//! Checking an extraction against the genuine graph.
//!
//! The genuine graph, the one the extraction started from, is read field by field in
//! the binary format. Each of its edges must be an edge of the remaining lists or stand
//! in some biclique; each edge of the remaining lists and of the bicliques of a node
//! must be an edge of the genuine graph. Self-loops of the genuine graph that neither
//! the lists nor the bicliques hold are collected, and self-loops that the bicliques
//! introduce but the genuine graph confirms are dropped from the set of introduced ones.

use vstd::prelude::*;
use std::collections::{HashMap, HashSet};
use crate::biclique::{
    in_some_biclique, lemma_occurrences, node_to_bicliques, occurrences, vec_contains, Bicliques,
};
use crate::cecilia::{body_fields, lists_view};
use crate::le::read_i32_at;

verus! {

broadcast use vstd::std_specs::hash::group_hash_axioms;

/// Why the genuine graph does not match the extraction.
#[derive(Debug, Clone, Copy, PartialEq, Eq, Structural)]
pub enum GenuineError {
    /// Fewer than eight bytes: the two header words are not there.
    TruncatedHeader,
    /// A field is 0.
    ZeroField,
    /// A field is `i32::MIN`, whose negation overflows.
    MarkerOverflow,
    /// An edge of the remaining lists or of a biclique is not an edge of the genuine graph.
    ExtractedEdgeMissing,
    /// An edge of the genuine graph is neither in the remaining lists nor in a biclique.
    EdgeNotRepresented,
}

/// The state of the check: the open node, whether no neighbour has been read yet, the
/// neighbours (other than the node itself) read for the open node, the self-loops that
/// only the bicliques hold, the self-loops that nothing holds, and the largest neighbour.
pub type GenuineState = (u32, bool, Seq<u32>, Set<u32>, Set<u32>, u32);

/// Every neighbour of `v` in the remaining lists, and every node other than `v` on the
/// `to` side of a biclique that has `v` on its `from` side, is among `seen`.
pub open spec fn extracted_edges_seen(
    adj: Seq<Seq<u32>>,
    from: Seq<Seq<u32>>,
    to: Seq<Seq<u32>>,
    v: u32,
    seen: Seq<u32>,
) -> bool {
    &&& v < adj.len() ==> forall|k: int| 0 <= k < adj[v as int].len() ==> seen.contains(#[trigger] adj[v as int][k])
    &&& forall|b: int, k: int|
        0 <= b < from.len() && #[trigger] from[b].contains(v) && 0 <= k < to[b].len() && to[b][k] != v
            ==> seen.contains(#[trigger] to[b][k])
}

/// The edge from `v` to `w` is in the remaining list of `v` or in some biclique.
pub open spec fn edge_represented(
    adj: Seq<Seq<u32>>,
    from: Seq<Seq<u32>>,
    to: Seq<Seq<u32>>,
    v: u32,
    w: u32,
) -> bool {
    (v < adj.len() && adj[v as int].contains(w)) || in_some_biclique(from, to, v, w)
}

/// One field of the genuine graph.
pub open spec fn genuine_step(
    adj: Seq<Seq<u32>>,
    from: Seq<Seq<u32>>,
    to: Seq<Seq<u32>>,
    st: GenuineState,
    field: i32,
) -> Result<GenuineState, GenuineError> {
    let (v, fresh, seen, introduced, unstored, max) = st;
    if field < 0 {
        if field == i32::MIN {
            Err(GenuineError::MarkerOverflow)
        } else if !fresh && !extracted_edges_seen(adj, from, to, v, seen) {
            Err(GenuineError::ExtractedEdgeMissing)
        } else {
            Ok(((-field - 1) as u32, fresh, Seq::empty(), introduced, unstored, max))
        }
    } else if field == 0 {
        Err(GenuineError::ZeroField)
    } else {
        let e = (field - 1) as u32;
        let m = if e > max { e } else { max };
        if e == v {
            if v < adj.len() && adj[v as int].contains(e) {
                Ok((v, false, seen, introduced, unstored, m))
            } else if introduced.contains(e) {
                Ok((v, false, seen, introduced.remove(e), unstored, m))
            } else {
                Ok((v, false, seen, introduced, unstored.insert(e), m))
            }
        } else if edge_represented(adj, from, to, v, e) {
            Ok((v, false, seen.push(e), introduced, unstored, m))
        } else {
            Err(GenuineError::EdgeNotRepresented)
        }
    }
}

/// The state after a sequence of fields, read from `start`, or the first error.
pub open spec fn genuine_fields(
    adj: Seq<Seq<u32>>,
    from: Seq<Seq<u32>>,
    to: Seq<Seq<u32>>,
    start: GenuineState,
    fields: Seq<i32>,
) -> Result<GenuineState, GenuineError>
    decreases fields.len(),
{
    if fields.len() == 0 {
        Ok(start)
    } else {
        match genuine_fields(adj, from, to, start, fields.drop_last()) {
            Ok(st) => genuine_step(adj, from, to, st, fields.last()),
            Err(e) => Err(e),
        }
    }
}

/// The state at the start: the node left open by the extraction, nothing read, the
/// self-loops that the bicliques introduce, and the largest neighbour so far.
pub open spec fn genuine_start(start_node: u32, introduced: Set<u32>, max_target: u32) -> GenuineState {
    (start_node, true, Seq::empty(), introduced, Set::empty(), max_target)
}

/// What checking the genuine graph `bytes` gives.
pub open spec fn genuine_spec(
    bytes: Seq<u8>,
    adj: Seq<Seq<u32>>,
    from: Seq<Seq<u32>>,
    to: Seq<Seq<u32>>,
    start_node: u32,
    introduced: Set<u32>,
    max_target: u32,
) -> Result<GenuineState, GenuineError> {
    if bytes.len() < 8 {
        Err(GenuineError::TruncatedHeader)
    } else {
        genuine_fields(adj, from, to, genuine_start(start_node, introduced, max_target), body_fields(bytes))
    }
}

proof fn lemma_genuine_error_persists(
    adj: Seq<Seq<u32>>,
    from: Seq<Seq<u32>>,
    to: Seq<Seq<u32>>,
    start: GenuineState,
    fields: Seq<i32>,
    k: int,
)
    requires
        0 <= k <= fields.len(),
        genuine_fields(adj, from, to, start, fields.take(k)) is Err,
    ensures
        genuine_fields(adj, from, to, start, fields) == genuine_fields(adj, from, to, start, fields.take(k)),
    decreases fields.len() - k,
{
    if k < fields.len() {
        assert(fields.take(k + 1).drop_last() =~= fields.take(k));
        lemma_genuine_error_persists(adj, from, to, start, fields, k + 1);
    } else {
        assert(fields.take(k) =~= fields);
    }
}

/// The check only drops self-loops from the introduced ones, and never records a
/// self-loop as unstored while it is still counted as introduced.
pub proof fn lemma_genuine_self_loops(
    adj: Seq<Seq<u32>>,
    from: Seq<Seq<u32>>,
    to: Seq<Seq<u32>>,
    start: GenuineState,
    fields: Seq<i32>,
)
    requires
        start.3.disjoint(start.4),
    ensures
        genuine_fields(adj, from, to, start, fields) matches Ok(st) ==> st.3.subset_of(start.3)
            && st.3.disjoint(st.4) && start.4.subset_of(st.4),
    decreases fields.len(),
{
    if fields.len() > 0 {
        lemma_genuine_self_loops(adj, from, to, start, fields.drop_last());
    }
}

/// Law: after a successful check, the self-loops still counted as introduced by the
/// bicliques are among those the bicliques introduced at the start, and none of them is
/// also recorded as a self-loop that nothing holds.
pub proof fn lemma_genuine_spec_self_loops(
    bytes: Seq<u8>,
    adj: Seq<Seq<u32>>,
    from: Seq<Seq<u32>>,
    to: Seq<Seq<u32>>,
    start_node: u32,
    introduced: Set<u32>,
    max_target: u32,
)
    ensures
        genuine_spec(bytes, adj, from, to, start_node, introduced, max_target) matches Ok(st)
            ==> st.3.subset_of(introduced) && st.3.disjoint(st.4),
{
    if bytes.len() >= 8 {
        let start = genuine_start(start_node, introduced, max_target);
        assert(start.3.disjoint(start.4));
        lemma_genuine_self_loops(adj, from, to, start, body_fields(bytes));
    }
}

/// The map from nodes to the bicliques that hold them on their `from` side.
pub open spec fn node_map_wf(map: Map<u32, Vec<usize>>, from: Seq<Seq<u32>>) -> bool {
    &&& forall|v: u32| #[trigger] map.contains_key(v) == (occurrences(from, v).len() > 0)
    &&& forall|v: u32| #[trigger] map.contains_key(v) ==> map[v]@ == occurrences(from, v)
}

fn all_extracted_edges_seen(
    adjacency: &Vec<Vec<u32>>,
    bicliques: &Bicliques,
    node2to: &HashMap<u32, Vec<usize>>,
    v: u32,
    seen: &Vec<u32>,
) -> (ok: bool)
    requires
        bicliques.wf(),
        node_map_wf(node2to@, bicliques.from_lists()),
    ensures
        ok == extracted_edges_seen(lists_view(adjacency), bicliques.from_lists(), bicliques.to_lists(), v, seen@),
{
    let ghost adj = lists_view(adjacency);
    let ghost from = bicliques.from_lists();
    let ghost to = bicliques.to_lists();
    if (v as usize) < adjacency.len() {
        let row = &adjacency[v as usize];
        assert(row@ == adj[v as int]);
        let mut k: usize = 0;
        while k < row.len()
            invariant
                0 <= k <= row@.len(),
                adj == lists_view(adjacency),
                v < adj.len(),
                row@ == adj[v as int],
                forall|k2: int| 0 <= k2 < k ==> seen@.contains(#[trigger] row@[k2]),
            decreases row@.len() - k,
        {
            if !vec_contains(seen, row[k]) {
                assert(adj[v as int][k as int] == row@[k as int]);
                return false;
            }
            k = k + 1;
        }
    }
    assert(from.len() == bicliques.from.len());
    proof { lemma_occurrences(from, v); }
    match node2to.get(&v) {
        None => {
            assert forall|b: int, k: int|
                0 <= b < from.len() && #[trigger] from[b].contains(v) && 0 <= k < to[b].len() && to[b][k] != v
                    implies seen@.contains(#[trigger] to[b][k]) by {
                assert(occurrences(from, v).contains(b as usize));
            }
        },
        Some(ids) => {
            let mut i: usize = 0;
            while i < ids.len()
                invariant
                    bicliques.wf(),
                    from == bicliques.from_lists(),
                    to == bicliques.to_lists(),
                    ids@ == occurrences(from, v),
                    0 <= i <= ids@.len(),
                    forall|i2: int| 0 <= i2 < ids@.len() ==> {
                        let b = #[trigger] ids@[i2];
                        &&& b < from.len()
                        &&& from[b as int].contains(v)
                    },
                    forall|i2: int, k: int| 0 <= i2 < i && 0 <= k < to[ids@[i2] as int].len()
                        && to[ids@[i2] as int][k] != v ==> seen@.contains(#[trigger] to[ids@[i2] as int][k]),
                decreases ids@.len() - i,
            {
                let b = ids[i];
                assert(ids@[i as int] == b);
                let targets = &bicliques.to[b];
                assert(targets@ == to[b as int]);
                let mut k: usize = 0;
                while k < targets.len()
                    invariant
                        0 <= k <= targets@.len(),
                        bicliques.wf(),
                        from == bicliques.from_lists(),
                        to == bicliques.to_lists(),
                        b < from.len(),
                        from[b as int].contains(v),
                        targets@ == to[b as int],
                        forall|k2: int| 0 <= k2 < k && targets@[k2] != v ==> seen@.contains(#[trigger] targets@[k2]),
                    decreases targets@.len() - k,
                {
                    if targets[k] != v && !vec_contains(seen, targets[k]) {
                        assert(to[b as int][k as int] == targets@[k as int]);
                        return false;
                    }
                    k = k + 1;
                }
                i = i + 1;
            }
            assert forall|b: int, k: int|
                0 <= b < from.len() && #[trigger] from[b].contains(v) && 0 <= k < to[b].len() && to[b][k] != v
                    implies seen@.contains(#[trigger] to[b][k]) by {
                assert(occurrences(from, v).contains(b as usize));
                let i2 = choose|i2: int| 0 <= i2 < ids@.len() && ids@[i2] == b as usize;
                assert(to[ids@[i2] as int][k] == to[b][k]);
            }
        },
    }
    true
}

fn edge_in_some_biclique(
    bicliques: &Bicliques,
    node2to: &HashMap<u32, Vec<usize>>,
    v: u32,
    w: u32,
) -> (found: bool)
    requires
        bicliques.wf(),
        node_map_wf(node2to@, bicliques.from_lists()),
    ensures
        found == in_some_biclique(bicliques.from_lists(), bicliques.to_lists(), v, w),
{
    let ghost from = bicliques.from_lists();
    let ghost to = bicliques.to_lists();
    assert(from.len() == bicliques.from.len());
    proof { lemma_occurrences(from, v); }
    match node2to.get(&v) {
        None => {
            proof {
                if in_some_biclique(from, to, v, w) {
                    let b = choose|b: int| 0 <= b < from.len() && #[trigger] from[b].contains(v) && to[b].contains(w);
                    assert(occurrences(from, v).contains(b as usize));
                }
            }
            false
        },
        Some(ids) => {
            let mut i: usize = 0;
            while i < ids.len()
                invariant
                    bicliques.wf(),
                    from == bicliques.from_lists(),
                    to == bicliques.to_lists(),
                    ids@ == occurrences(from, v),
                    0 <= i <= ids@.len(),
                    forall|i2: int| 0 <= i2 < ids@.len() ==> {
                        let b = #[trigger] ids@[i2];
                        &&& b < from.len()
                        &&& from[b as int].contains(v)
                    },
                    forall|i2: int| 0 <= i2 < i ==> !to[#[trigger] ids@[i2] as int].contains(w),
                decreases ids@.len() - i,
            {
                let b = ids[i];
                assert(ids@[i as int] == b);
                if vec_contains(&bicliques.to[b], w) {
                    assert(from[b as int].contains(v) && to[b as int].contains(w));
                    return true;
                }
                i = i + 1;
            }
            proof {
                if in_some_biclique(from, to, v, w) {
                    let b = choose|b: int| 0 <= b < from.len() && #[trigger] from[b].contains(v) && to[b].contains(w);
                    assert(occurrences(from, v).contains(b as usize));
                    let i2 = choose|i2: int| 0 <= i2 < ids@.len() && ids@[i2] == b as usize;
                    assert(!to[ids@[i2] as int].contains(w));
                }
            }
            false
        },
    }
}

/// What the check leaves: the self-loops still counted as introduced by the bicliques,
/// the self-loops of the genuine graph that nothing holds, and the largest neighbour.
pub struct GenuineOutcome {
    pub self_loops: HashSet<u32>,
    pub unstored_self_loops: HashSet<u32>,
    pub max_target: u32,
}

/// Checks the extraction (`adjacency`, `bicliques`) against the genuine graph in
/// `genuine`, starting from the node that reading the extraction left open; or tells
/// the first reason why they do not match.
pub fn try_check_genuine(
    genuine: &[u8],
    adjacency: &Vec<Vec<u32>>,
    bicliques: &Bicliques,
    start_node: u32,
    max_target: u32,
    self_loops: HashSet<u32>,
) -> (res: Result<GenuineOutcome, GenuineError>)
    requires
        bicliques.wf(),
    ensures
        match (res, genuine_spec(genuine@, lists_view(adjacency), bicliques.from_lists(), bicliques.to_lists(),
            start_node, self_loops@, max_target)) {
            (Ok(o), Ok(st)) => {
                &&& o.self_loops@ == st.3
                &&& o.unstored_self_loops@ == st.4
                &&& o.max_target == st.5
            },
            (Err(e), Err(f)) => e == f,
            _ => false,
        },
{
    let ghost adj = lists_view(adjacency);
    let ghost from = bicliques.from_lists();
    let ghost to = bicliques.to_lists();
    if genuine.len() < 8 {
        return Err(GenuineError::TruncatedHeader);
    }
    let node2to = node_to_bicliques(&bicliques.from);
    let ghost start = genuine_start(start_node, self_loops@, max_target);
    let ghost fields = body_fields(genuine@);
    let count = (genuine.len() - 8) / 4;
    let ghost whole = genuine_spec(genuine@, adj, from, to, start_node, self_loops@, max_target);
    assert(whole == genuine_fields(adj, from, to, start, fields));
    let mut introduced = self_loops;
    let mut unstored: HashSet<u32> = HashSet::new();
    let mut current = start_node;
    let mut fresh = true;
    let mut seen: Vec<u32> = Vec::new();
    let mut max = max_target;
    let mut i: usize = 0;
    while i < count
        invariant
            bicliques.wf(),
            adj == lists_view(adjacency),
            from == bicliques.from_lists(),
            to == bicliques.to_lists(),
            node_map_wf(node2to@, from),
            genuine@.len() >= 8,
            count == (genuine@.len() - 8) / 4,
            fields == body_fields(genuine@),
            whole == genuine_fields(adj, from, to, start, fields),
            whole == genuine_spec(genuine@, lists_view(adjacency), bicliques.from_lists(), bicliques.to_lists(),
                start_node, self_loops@, max_target),
            0 <= i <= count,
            genuine_fields(adj, from, to, start, fields.take(i as int))
                == Ok::<GenuineState, GenuineError>((current, fresh, seen@, introduced@, unstored@, max)),
        decreases count - i,
    {
        assert(8 + 4 * i + 4 <= genuine@.len()) by (nonlinear_arith)
            requires i < count, count == (genuine@.len() - 8) / 4, genuine@.len() >= 8;
        assert(genuine@.len() == genuine.len());
        let field = read_i32_at(genuine, 8 + 4 * i);
        assert(fields.take(i + 1).drop_last() =~= fields.take(i as int));
        assert(field == fields[i as int]);
        assert(fields.take(i + 1).last() == field);
        if field < 0 {
            if field == i32::MIN {
                assert(genuine_fields(adj, from, to, start, fields.take(i + 1))
                    == Err::<GenuineState, GenuineError>(GenuineError::MarkerOverflow));
                proof { lemma_genuine_error_persists(adj, from, to, start, fields, i + 1); }
                assert(genuine_fields(adj, from, to, start, fields)
                    == Err::<GenuineState, GenuineError>(GenuineError::MarkerOverflow));
                return Err(GenuineError::MarkerOverflow);
            }
            if !fresh && !all_extracted_edges_seen(adjacency, bicliques, &node2to, current, &seen) {
                proof { lemma_genuine_error_persists(adj, from, to, start, fields, i + 1); }
                return Err(GenuineError::ExtractedEdgeMissing);
            }
            seen.clear();
            current = (-field - 1) as u32;
        } else if field == 0 {
            proof { lemma_genuine_error_persists(adj, from, to, start, fields, i + 1); }
            return Err(GenuineError::ZeroField);
        } else {
            fresh = false;
            let e = (field - 1) as u32;
            if e > max {
                max = e;
            }
            if e == current {
                let in_list = (current as usize) < adjacency.len() && vec_contains(&adjacency[current as usize], e);
                if !in_list {
                    if introduced.contains(&e) {
                        introduced.remove(&e);
                    } else {
                        unstored.insert(e);
                    }
                }
            } else {
                let in_list = (current as usize) < adjacency.len() && vec_contains(&adjacency[current as usize], e);
                if !in_list && !edge_in_some_biclique(bicliques, &node2to, current, e) {
                    proof { lemma_genuine_error_persists(adj, from, to, start, fields, i + 1); }
                    return Err(GenuineError::EdgeNotRepresented);
                }
                seen.push(e);
            }
        }
        i = i + 1;
    }
    assert(fields.take(count as int) =~= fields);
    Ok(GenuineOutcome { self_loops: introduced, unstored_self_loops: unstored, max_target: max })
}


/// The node whose list is open, and the edges read so far, after a sequence of fields
/// of the genuine graph, starting with `start` open.
pub open spec fn genuine_edges(start: u32, fields: Seq<i32>) -> (u32, Set<(u32, u32)>)
    decreases fields.len(),
{
    if fields.len() == 0 {
        (start, Set::empty())
    } else {
        let (v, edges) = genuine_edges(start, fields.drop_last());
        let f = fields.last();
        if f < 0 && f != i32::MIN {
            ((-f - 1) as u32, edges)
        } else if f > 0 {
            (v, edges.insert((v, (f - 1) as u32)))
        } else {
            (v, edges)
        }
    }
}

proof fn lemma_genuine_edges_represented(
    adj: Seq<Seq<u32>>,
    from: Seq<Seq<u32>>,
    to: Seq<Seq<u32>>,
    start: GenuineState,
    fields: Seq<i32>,
)
    ensures
        genuine_fields(adj, from, to, start, fields) matches Ok(st) ==> {
            &&& st.0 == genuine_edges(start.0, fields).0
            &&& forall|v: u32, w: u32| #[trigger] genuine_edges(start.0, fields).1.contains((v, w)) && v != w
                ==> edge_represented(adj, from, to, v, w)
        },
    decreases fields.len(),
{
    if fields.len() > 0 {
        lemma_genuine_edges_represented(adj, from, to, start, fields.drop_last());
    }
}

/// Law: once the check has passed, every edge of the genuine graph other than a
/// self-loop is in the remaining list of its node or in a biclique of that node.
pub proof fn lemma_genuine_edges_kept(
    bytes: Seq<u8>,
    adj: Seq<Seq<u32>>,
    from: Seq<Seq<u32>>,
    to: Seq<Seq<u32>>,
    start_node: u32,
    introduced: Set<u32>,
    max_target: u32,
)
    requires
        genuine_spec(bytes, adj, from, to, start_node, introduced, max_target) is Ok,
    ensures
        forall|v: u32, w: u32| #[trigger] genuine_edges(start_node, body_fields(bytes)).1.contains((v, w)) && v != w
            ==> edge_represented(adj, from, to, v, w),
{
    lemma_genuine_edges_represented(adj, from, to, genuine_start(start_node, introduced, max_target), body_fields(bytes));
}



/// A prefix of a sequence of fields read without error reads without error.
proof fn lemma_genuine_prefix_ok(
    adj: Seq<Seq<u32>>,
    from: Seq<Seq<u32>>,
    to: Seq<Seq<u32>>,
    start: GenuineState,
    fields: Seq<i32>,
    m: int,
)
    requires
        0 <= m <= fields.len(),
        genuine_fields(adj, from, to, start, fields) is Ok,
    ensures
        genuine_fields(adj, from, to, start, fields.take(m)) is Ok,
{
    if genuine_fields(adj, from, to, start, fields.take(m)) is Err {
        lemma_genuine_error_persists(adj, from, to, start, fields, m);
    }
}

/// Reading one more field is one more step.
proof fn lemma_genuine_take_step(
    adj: Seq<Seq<u32>>,
    from: Seq<Seq<u32>>,
    to: Seq<Seq<u32>>,
    start: GenuineState,
    fields: Seq<i32>,
    m: int,
)
    requires
        0 <= m < fields.len(),
    ensures
        genuine_fields(adj, from, to, start, fields.take(m + 1)) == match genuine_fields(adj, from, to, start, fields.take(m)) {
            Ok(st) => genuine_step(adj, from, to, st, fields[m]),
            Err(e) => Err(e),
        },
{
    assert(fields.take(m + 1).drop_last() =~= fields.take(m));
    assert(fields.take(m + 1).last() == fields[m]);
}

/// Once a neighbour has been read, no node counts as fresh any more.
proof fn lemma_genuine_not_fresh(
    adj: Seq<Seq<u32>>,
    from: Seq<Seq<u32>>,
    to: Seq<Seq<u32>>,
    start: GenuineState,
    fields: Seq<i32>,
    m: int,
    k: int,
)
    requires
        0 <= k < m <= fields.len(),
        fields[k] > 0,
        genuine_fields(adj, from, to, start, fields.take(m)) is Ok,
    ensures
        !genuine_fields(adj, from, to, start, fields.take(m))->Ok_0.1,
    decreases m,
{
    lemma_genuine_take_step(adj, from, to, start, fields, m - 1);
    if k < m - 1 {
        lemma_genuine_not_fresh(adj, from, to, start, fields, m - 1, k);
    }
}

/// After the marker at `i` and only neighbours up to `m`, the open node is the node of
/// that marker, and every node recorded as seen is a neighbour read after the marker.
proof fn lemma_genuine_seen_read(
    adj: Seq<Seq<u32>>,
    from: Seq<Seq<u32>>,
    to: Seq<Seq<u32>>,
    start: GenuineState,
    fields: Seq<i32>,
    i: int,
    m: int,
)
    requires
        0 <= i < m <= fields.len(),
        fields[i] < 0,
        forall|k: int| i < k < m ==> #[trigger] fields[k] >= 0,
        genuine_fields(adj, from, to, start, fields.take(m)) is Ok,
    ensures
        ({
            let st = genuine_fields(adj, from, to, start, fields.take(m))->Ok_0;
            &&& st.0 == (-fields[i] - 1) as u32
            &&& forall|x: int| #![trigger st.2[x]] 0 <= x < st.2.len() ==> exists|k: int| i < k < m && #[trigger] fields[k] == st.2[x] + 1
        }),
    decreases m,
{
    lemma_genuine_take_step(adj, from, to, start, fields, m - 1);
    if m - 1 > i {
        lemma_genuine_seen_read(adj, from, to, start, fields, i, m - 1);
        let prev = genuine_fields(adj, from, to, start, fields.take(m - 1))->Ok_0;
        let st = genuine_fields(adj, from, to, start, fields.take(m))->Ok_0;
        assert(fields[m - 1] >= 0);
        assert forall|x: int| #![trigger st.2[x]] 0 <= x < st.2.len() implies exists|k: int| i < k < m && #[trigger] fields[k] == st.2[x] + 1 by {
            if x < prev.2.len() {
                assert(st.2[x] == prev.2[x]);
                let k = choose|k: int| i < k < m - 1 && #[trigger] fields[k] == prev.2[x] + 1;
                assert(i < k < m && fields[k] == st.2[x] + 1);
            } else {
                assert(fields[m - 1] == st.2[x] + 1);
            }
        }
    }
}

/// Law: where the check against the genuine graph succeeds, the extraction holds no edge
/// that the genuine graph lacks. Take a node whose genuine list is opened by a marker and
/// closed by the next marker, once some neighbour has been read in the file: every
/// neighbour on its remaining list, and every other node on the `to` side of a biclique
/// that has it on its `from` side, is among the neighbours read between the two markers.
pub proof fn lemma_genuine_closed_list_holds_extraction(
    bytes: Seq<u8>,
    adj: Seq<Seq<u32>>,
    from: Seq<Seq<u32>>,
    to: Seq<Seq<u32>>,
    start_node: u32,
    introduced: Set<u32>,
    max_target: u32,
    i: int,
    j: int,
    r: int,
)
    requires
        genuine_spec(bytes, adj, from, to, start_node, introduced, max_target) is Ok,
        0 <= i < j < body_fields(bytes).len(),
        body_fields(bytes)[i] < 0,
        body_fields(bytes)[j] < 0,
        forall|k: int| i < k < j ==> #[trigger] body_fields(bytes)[k] >= 0,
        0 <= r < j,
        body_fields(bytes)[r] > 0,
    ensures
        ({
            let f = body_fields(bytes);
            let v = (-f[i] - 1) as u32;
            &&& v < adj.len() ==> forall|w: int| #![trigger adj[v as int][w]] 0 <= w < adj[v as int].len()
                ==> exists|k: int| i < k < j && #[trigger] f[k] == adj[v as int][w] + 1
            &&& forall|b: int, w: int| #![trigger to[b][w], from[b]]
                0 <= b < from.len() && from[b].contains(v) && 0 <= w < to[b].len() && to[b][w] != v
                ==> exists|k: int| i < k < j && #[trigger] f[k] == to[b][w] + 1
        }),
{
    let f = body_fields(bytes);
    let start = genuine_start(start_node, introduced, max_target);
    lemma_genuine_prefix_ok(adj, from, to, start, f, j + 1);
    lemma_genuine_take_step(adj, from, to, start, f, j);
    lemma_genuine_not_fresh(adj, from, to, start, f, j, r);
    lemma_genuine_seen_read(adj, from, to, start, f, i, j);
    let st = genuine_fields(adj, from, to, start, f.take(j))->Ok_0;
    let v = (-f[i] - 1) as u32;
    assert(extracted_edges_seen(adj, from, to, v, st.2));
    if v < adj.len() {
        assert forall|w: int| #![trigger adj[v as int][w]] 0 <= w < adj[v as int].len()
            implies exists|k: int| i < k < j && #[trigger] f[k] == adj[v as int][w] + 1 by {
            assert(st.2.contains(adj[v as int][w]));
            let x = choose|x: int| 0 <= x < st.2.len() && st.2[x] == adj[v as int][w];
            assert(exists|k: int| i < k < j && #[trigger] f[k] == st.2[x] + 1);
        }
    }
    assert forall|b: int, w: int| #![trigger to[b][w], from[b]]
        0 <= b < from.len() && from[b].contains(v) && 0 <= w < to[b].len() && to[b][w] != v
        implies exists|k: int| i < k < j && #[trigger] f[k] == to[b][w] + 1 by {
        assert(st.2.contains(to[b][w]));
        let x = choose|x: int| 0 <= x < st.2.len() && st.2[x] == to[b][w];
        assert(exists|k: int| i < k < j && #[trigger] f[k] == st.2[x] + 1);
    }
}


/// Checks the extraction (`adjacency`, `bicliques`) against the genuine graph in
/// `genuine`; they must match (`try_check_genuine` tells).
pub fn check_genuine(
    genuine: &[u8],
    adjacency: &Vec<Vec<u32>>,
    bicliques: &Bicliques,
    start_node: u32,
    max_target: u32,
    self_loops: HashSet<u32>,
) -> (o: GenuineOutcome)
    requires
        bicliques.wf(),
        genuine_spec(genuine@, lists_view(adjacency), bicliques.from_lists(), bicliques.to_lists(),
            start_node, self_loops@, max_target) is Ok,
    ensures
        ({
            let st = genuine_spec(genuine@, lists_view(adjacency), bicliques.from_lists(), bicliques.to_lists(),
                start_node, self_loops@, max_target)->Ok_0;
            &&& o.self_loops@ == st.3
            &&& o.unstored_self_loops@ == st.4
            &&& o.max_target == st.5
        }),
{
    try_check_genuine(genuine, adjacency, bicliques, start_node, max_target, self_loops).unwrap()
}

} // verus!
