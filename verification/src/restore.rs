//! Restoring the ASCIIGraph text of a graph from its remaining lists and its bicliques.
//!
//! The first line holds the number of nodes. Line `r` after it lists the neighbours of
//! node `r`, each followed by a space. A node that is on the `from` side of some
//! biclique gets its remaining list, then the `to` sides of its bicliques, without
//! itself, in ascending order; any other node keeps its remaining list as it is.

use vstd::prelude::*;
use vstd::relations::sorted_by;
use crate::biclique::{
    lemma_max_of_lists_bounds, lemma_occurrences, max_node, max_of_lists, node_to_bicliques, occurrences,
    Bicliques,
};
use crate::cecilia::lists_view;
use crate::degree::degree_bound;
use crate::genuine::{edge_represented, genuine_edges, genuine_spec, lemma_genuine_edges_kept, node_map_wf};
use crate::biclique::in_some_biclique;
use crate::cecilia::body_fields;
use crate::text::{decimal, push_decimal};
use crate::ascii_graph::{ascii_spec, lemma_ascii_roundtrip};
use crate::cecilia::{cecilia_bytes, decode_spec, padded_lists, rows_words, total_len};

verus! {

broadcast use vstd::std_specs::hash::group_hash_axioms;

/// Why a graph cannot be restored.
#[derive(Debug, Clone, Copy, PartialEq, Eq, Structural)]
pub enum RestoreError {
    /// A node beyond the remaining lists and not beyond the largest `from` node is on
    /// the `from` side of no biclique, so nothing gives its list.
    NodeWithoutList,
}

/// The `to` sides of the bicliques `ids`, one after the other.
pub open spec fn concat_targets(to: Seq<Seq<u32>>, ids: Seq<usize>) -> Seq<u32>
    decreases ids.len(),
{
    if ids.len() == 0 {
        Seq::empty()
    } else {
        concat_targets(to, ids.drop_last()) + to[ids.last() as int]
    }
}

/// `s` without any occurrence of `v`.
pub open spec fn without(s: Seq<u32>, v: u32) -> Seq<u32>
    decreases s.len(),
{
    if s.len() == 0 {
        Seq::empty()
    } else if s.last() == v {
        without(s.drop_last(), v)
    } else {
        without(s.drop_last(), v).push(s.last())
    }
}

/// `s` in ascending order.
pub open spec fn ascending(s: Seq<u32>) -> Seq<u32> {
    s.sort_by(|a: u32, b: u32| a <= b)
}

/// The restored neighbours of node `r`.
pub open spec fn restored_row(adj: Seq<Seq<u32>>, from: Seq<Seq<u32>>, to: Seq<Seq<u32>>, r: int) -> Seq<u32> {
    let v = r as u32;
    let extra = concat_targets(to, occurrences(from, v));
    if r < adj.len() {
        if occurrences(from, v).len() > 0 {
            ascending(without(adj[r] + extra, v))
        } else {
            adj[r]
        }
    } else {
        without(extra, v)
    }
}

/// Some node beyond the remaining lists and not beyond the largest `from` node is on
/// the `from` side of no biclique.
pub open spec fn has_node_without_list(adj: Seq<Seq<u32>>, from: Seq<Seq<u32>>) -> bool {
    exists|r: int| adj.len() <= r <= max_of_lists(from) && #[trigger] occurrences(from, r as u32).len() == 0
}

/// The text of one line of neighbours: each in decimal followed by a space.
pub open spec fn row_text(row: Seq<u32>) -> Seq<u8>
    decreases row.len(),
{
    if row.len() == 0 {
        Seq::empty()
    } else {
        row_text(row.drop_last()) + decimal(row.last() as nat) + seq![32u8]
    }
}

/// The text of the lines of neighbours, each ended by a newline.
pub open spec fn rows_text(rows: Seq<Seq<u32>>) -> Seq<u8>
    decreases rows.len(),
{
    if rows.len() == 0 {
        Seq::empty()
    } else {
        rows_text(rows.drop_last()) + row_text(rows.last()) + seq![10u8]
    }
}

/// An ASCIIGraph text: the number of nodes on a line, then the lines of neighbours.
pub open spec fn ascii_text(num_nodes: nat, rows: Seq<Seq<u32>>) -> Seq<u8> {
    decimal(num_nodes) + seq![10u8] + rows_text(rows)
}

/// `std`'s `sort` on a vector of `u32`: it leaves the same values, in ascending order,
/// as its documentation states.
#[verifier::external_body]
fn sort_ascending(v: &mut Vec<u32>)
    ensures
        final(v)@.to_multiset() == old(v)@.to_multiset(),
        sorted_by(final(v)@, |a: u32, b: u32| a <= b),
{
    v.sort();
}

fn append_list(out: &mut Vec<u32>, v: &Vec<u32>)
    ensures
        final(out)@ == old(out)@ + v@,
{
    let mut i: usize = 0;
    while i < v.len()
        invariant
            0 <= i <= v@.len(),
            out@ == old(out)@ + v@.take(i as int),
        decreases v@.len() - i,
    {
        out.push(v[i]);
        assert(v@.take(i + 1) =~= v@.take(i as int).push(v@[i as int]));
        i = i + 1;
    }
    assert(v@.take(i as int) =~= v@);
}

fn remove_value(s: &Vec<u32>, v: u32) -> (r: Vec<u32>)
    ensures
        r@ == without(s@, v),
{
    let mut r: Vec<u32> = Vec::new();
    let mut i: usize = 0;
    while i < s.len()
        invariant
            0 <= i <= s@.len(),
            r@ == without(s@.take(i as int), v),
        decreases s@.len() - i,
    {
        assert(s@.take(i + 1).drop_last() =~= s@.take(i as int));
        if s[i] != v {
            r.push(s[i]);
        }
        i = i + 1;
    }
    assert(s@.take(i as int) =~= s@);
    r
}

fn gather_targets(bicliques: &Bicliques, ids: &Vec<usize>, out: &mut Vec<u32>)
    requires
        bicliques.wf(),
        forall|i: int| 0 <= i < ids@.len() ==> #[trigger] ids@[i] < bicliques.to@.len(),
    ensures
        final(out)@ == old(out)@ + concat_targets(bicliques.to_lists(), ids@),
{
    let ghost to = bicliques.to_lists();
    let mut i: usize = 0;
    while i < ids.len()
        invariant
            bicliques.wf(),
            to == bicliques.to_lists(),
            forall|i2: int| 0 <= i2 < ids@.len() ==> #[trigger] ids@[i2] < bicliques.to@.len(),
            0 <= i <= ids@.len(),
            out@ == old(out)@ + concat_targets(to, ids@.take(i as int)),
        decreases ids@.len() - i,
    {
        let b = ids[i];
        assert(ids@[i as int] == b);
        append_list(out, &bicliques.to[b]);
        assert(ids@.take(i + 1).drop_last() =~= ids@.take(i as int));
        i = i + 1;
    }
    assert(ids@.take(i as int) =~= ids@);
}

/// The restored lists of all nodes: one per node that has a remaining list or is not
/// beyond the largest `from` node.
pub fn try_restore_rows(adjacency: &Vec<Vec<u32>>, bicliques: &Bicliques) -> (res: Result<Vec<Vec<u32>>, RestoreError>)
    requires
        bicliques.wf(),
        adjacency@.len() <= u32::MAX,
        forall|b: int, k: int| 0 <= b < bicliques.from_lists().len() && 0 <= k < bicliques.from_lists()[b].len()
            ==> #[trigger] bicliques.from_lists()[b][k] < u32::MAX,
    ensures
        ({
            let adj = lists_view(adjacency);
            let from = bicliques.from_lists();
            let to = bicliques.to_lists();
            match res {
                Ok(rows) => !has_node_without_list(adj, from) && rows@.len() == degree_bound(adj, from)
                    && forall|r: int| 0 <= r < rows@.len() ==> #[trigger] rows@[r]@ == restored_row(adj, from, to, r),
                Err(e) => e == RestoreError::NodeWithoutList && has_node_without_list(adj, from),
            }
        }),
{
    let ghost adj = lists_view(adjacency);
    let ghost from = bicliques.from_lists();
    let ghost to = bicliques.to_lists();
    let node2to = node_to_bicliques(&bicliques.from);
    let max_from = max_node(&bicliques.from);
    proof { lemma_max_of_lists_bounds(from); }
    assert(max_from < u32::MAX) by {
        crate::biclique::lemma_max_nonzero_is_member(from);
    }
    assert(from.len() == bicliques.from.len());
    let mut rows: Vec<Vec<u32>> = Vec::new();
    let mut r: usize = 0;
    while r < adjacency.len()
        invariant
            bicliques.wf(),
            adj == lists_view(adjacency),
            from == bicliques.from_lists(),
            to == bicliques.to_lists(),
            from.len() <= usize::MAX,
            node_map_wf(node2to@, from),
            adjacency@.len() <= u32::MAX,
            0 <= r <= adjacency@.len(),
            rows@.len() == r,
            forall|r2: int| 0 <= r2 < r ==> #[trigger] rows@[r2]@ == restored_row(adj, from, to, r2),
        decreases adjacency@.len() - r,
    {
        let v = r as u32;
        let row = match node2to.get(&v) {
            Some(ids) => {
                proof { lemma_occurrences(from, v); }
                let mut merged: Vec<u32> = Vec::new();
                append_list(&mut merged, &adjacency[r]);
                gather_targets(bicliques, ids, &mut merged);
                let mut kept = remove_value(&merged, v);
                let ghost unsorted = kept@;
                sort_ascending(&mut kept);
                proof {
                    let leq = |a: u32, b: u32| a <= b;
                    unsorted.lemma_sort_by_ensures(leq);
                    vstd::seq_lib::lemma_sorted_unique(kept@, unsorted.sort_by(leq), leq);
                }
                kept
            },
            None => {
                let mut copy: Vec<u32> = Vec::new();
                append_list(&mut copy, &adjacency[r]);
                copy
            },
        };
        rows.push(row);
        r = r + 1;
    }
    let end = max_from as usize + 1;
    while r < end
        invariant
            bicliques.wf(),
            adj == lists_view(adjacency),
            from == bicliques.from_lists(),
            to == bicliques.to_lists(),
            from.len() <= usize::MAX,
            node_map_wf(node2to@, from),
            end == max_of_lists(from) + 1,
            adjacency@.len() <= r,
            r <= end || r == adjacency@.len(),
            rows@.len() == r,
            forall|r2: int| adjacency@.len() <= r2 < r ==> #[trigger] occurrences(from, r2 as u32).len() > 0,
            forall|r2: int| 0 <= r2 < r ==> #[trigger] rows@[r2]@ == restored_row(adj, from, to, r2),
        decreases end - r,
    {
        let v = r as u32;
        match node2to.get(&v) {
            Some(ids) => {
                proof { lemma_occurrences(from, v); }
                let mut merged: Vec<u32> = Vec::new();
                gather_targets(bicliques, ids, &mut merged);
                let kept = remove_value(&merged, v);
                assert(Seq::<u32>::empty() + concat_targets(to, occurrences(from, v)) =~= concat_targets(to, occurrences(from, v)));
                rows.push(kept);
            },
            None => {
                assert(occurrences(from, r as u32).len() == 0);
                return Err(RestoreError::NodeWithoutList);
            },
        }
        r = r + 1;
    }
    assert(!has_node_without_list(adj, from));
    Ok(rows)
}

fn push_byte(out: &mut Vec<u8>, b: u8)
    ensures
        final(out)@ == old(out)@ + seq![b],
{
    out.push(b);
}

/// Writes an ASCIIGraph text: `num_nodes` on the first line, then the lines of `rows`.
pub fn format_ascii_graph(num_nodes: u64, rows: &Vec<Vec<u32>>) -> (text: Vec<u8>)
    ensures
        text@ == ascii_text(num_nodes as nat, lists_view(rows)),
{
    let ghost ls = lists_view(rows);
    let mut out: Vec<u8> = Vec::new();
    push_decimal(&mut out, num_nodes);
    push_byte(&mut out, 10);
    let mut i: usize = 0;
    while i < rows.len()
        invariant
            ls == lists_view(rows),
            0 <= i <= ls.len(),
            out@ == decimal(num_nodes as nat) + seq![10u8] + rows_text(ls.take(i as int)),
        decreases ls.len() - i,
    {
        let row = &rows[i];
        let ghost line_start = out@;
        let mut k: usize = 0;
        while k < row.len()
            invariant
                row@ == ls[i as int],
                0 <= k <= row@.len(),
                out@ == line_start + row_text(row@.take(k as int)),
            decreases row@.len() - k,
        {
            push_decimal(&mut out, row[k] as u64);
            push_byte(&mut out, 32);
            assert(row@.take(k + 1).drop_last() =~= row@.take(k as int));
            k = k + 1;
        }
        push_byte(&mut out, 10);
        assert(row@.take(k as int) =~= row@);
        assert(ls.take(i + 1).drop_last() =~= ls.take(i as int));
        i = i + 1;
    }
    assert(ls.take(i as int) =~= ls);
    out
}

/// Restores the ASCIIGraph text of a graph from its remaining lists and its bicliques,
/// or tells why a node has no list.
pub fn try_restore_ascii_graph(adjacency: &Vec<Vec<u32>>, bicliques: &Bicliques) -> (res: Result<Vec<u8>, RestoreError>)
    requires
        bicliques.wf(),
        adjacency@.len() <= u32::MAX,
        forall|b: int, k: int| 0 <= b < bicliques.from_lists().len() && 0 <= k < bicliques.from_lists()[b].len()
            ==> #[trigger] bicliques.from_lists()[b][k] < u32::MAX,
    ensures
        ({
            let adj = lists_view(adjacency);
            let from = bicliques.from_lists();
            let to = bicliques.to_lists();
            match res {
                Ok(text) => !has_node_without_list(adj, from) && text@ == ascii_text(
                    degree_bound(adj, from) as nat,
                    Seq::new(degree_bound(adj, from) as nat, |r: int| restored_row(adj, from, to, r)),
                ),
                Err(e) => e == RestoreError::NodeWithoutList && has_node_without_list(adj, from),
            }
        }),
{
    let ghost adj = lists_view(adjacency);
    let ghost from = bicliques.from_lists();
    let ghost to = bicliques.to_lists();
    let rows = try_restore_rows(adjacency, bicliques)?;
    let n = rows.len() as u64;
    let text = format_ascii_graph(n, &rows);
    assert(lists_view(&rows) =~= Seq::new(degree_bound(adj, from) as nat, |r: int| restored_row(adj, from, to, r)));
    Ok(text)
}


/// Without bicliques every node keeps its list as it is: a graph with at least one
/// list is restored line for line.
pub proof fn lemma_restore_without_bicliques(adj: Seq<Seq<u32>>)
    requires
        adj.len() >= 1,
    ensures
        !has_node_without_list(adj, Seq::empty()),
        degree_bound(adj, Seq::empty()) == adj.len(),
        forall|r: int| 0 <= r < adj.len()
            ==> #[trigger] restored_row(adj, Seq::empty(), Seq::empty(), r) == adj[r],
{
    assert(max_of_lists(Seq::<Seq<u32>>::empty()) == 0);
    assert forall|r: int| 0 <= r < adj.len()
        implies #[trigger] restored_row(adj, Seq::empty(), Seq::empty(), r) == adj[r] by {
        assert(occurrences(Seq::<Seq<u32>>::empty(), r as u32).len() == 0);
    }
}


proof fn lemma_without_excludes(s: Seq<u32>, v: u32)
    ensures
        !without(s, v).contains(v),
        forall|x: u32| x != v && s.contains(x) ==> #[trigger] without(s, v).contains(x),
    decreases s.len(),
{
    if s.len() > 0 {
        lemma_without_excludes(s.drop_last(), v);
        let w = without(s.drop_last(), v);
        if s.last() != v {
            assert forall|x: u32| #[trigger] w.push(s.last()).contains(x) && x == v implies false by {
                let k = choose|k: int| 0 <= k < w.push(s.last()).len() && w.push(s.last())[k] == x;
                if k < w.len() {
                    assert(w[k] == x);
                }
            }
        }
        assert forall|x: u32| x != v && s.contains(x) implies #[trigger] without(s, v).contains(x) by {
            let k = choose|k: int| 0 <= k < s.len() && s[k] == x;
            if k < s.len() - 1 {
                assert(s.drop_last()[k] == x);
                assert(s.drop_last().contains(x));
                assert(w.contains(x));
                let j = choose|j: int| 0 <= j < w.len() && w[j] == x;
                if s.last() != v {
                    assert(w.push(s.last())[j] == x);
                }
            } else {
                assert(without(s, v) == w.push(s.last()));
                assert(w.push(s.last())[w.len() as int] == x);
            }
        }
    }
}

/// A restored list never holds its own node, and a list merged with bicliques is in
/// ascending order; the values of a merged list are those of the remaining list and
/// of the `to` sides, other than the node itself.
pub proof fn lemma_restored_row(adj: Seq<Seq<u32>>, from: Seq<Seq<u32>>, to: Seq<Seq<u32>>, r: int)
    requires
        0 <= r <= u32::MAX,
        occurrences(from, r as u32).len() > 0,
    ensures
        !restored_row(adj, from, to, r).contains(r as u32),
        r < adj.len() ==> sorted_by(restored_row(adj, from, to, r), |a: u32, b: u32| a <= b),
        r < adj.len() ==> forall|x: u32| x != r
            && (adj[r] + concat_targets(to, occurrences(from, r as u32))).contains(x)
            ==> #[trigger] restored_row(adj, from, to, r).contains(x),
{
    let v = r as u32;
    let extra = concat_targets(to, occurrences(from, v));
    let leq = |a: u32, b: u32| a <= b;
    if r < adj.len() {
        let w = without(adj[r] + extra, v);
        lemma_without_excludes(adj[r] + extra, v);
        w.lemma_sort_by_ensures(leq);
        assert forall|x: u32| x != r && (adj[r] + extra).contains(x)
            implies #[trigger] restored_row(adj, from, to, r).contains(x) by {
            assert(w.contains(x));
            w.to_multiset_ensures();
            assert(w.to_multiset().count(x) > 0);
            w.sort_by(leq).to_multiset_ensures();
        }
    } else {
        lemma_without_excludes(extra, v);
    }
}

/// Converting an ASCIIGraph text to the binary format, reading it back and restoring it
/// without bicliques gives the lists of the text, padded with empty lists up to the
/// number of nodes of the first line: where that number covers all lists and is at
/// least one, and every neighbour is below `2^31 - 1`.
pub proof fn lemma_conversion_restores_lists(s: Seq<u8>)
    requires
        ascii_spec(s) matches Ok((n, rows)) && rows.len() <= n && n >= 1
            && forall|i: int, k: int| 0 <= i < rows.len() && 0 <= k < rows[i].len() ==> #[trigger] rows[i][k] < 0x7fff_ffff,
    ensures
        ascii_spec(s) matches Ok((n, rows)) && decode_spec(cecilia_bytes(n, total_len(rows) as u32, rows_words(rows)))
            matches Ok(st) && !has_node_without_list(st.1, Seq::empty())
            && degree_bound(st.1, Seq::empty()) == n
            && Seq::new(n as nat, |r: int| restored_row(st.1, Seq::empty(), Seq::empty(), r)) == padded_lists(n, rows),
{
    lemma_ascii_roundtrip(s);
    let (n, rows) = ascii_spec(s)->Ok_0;
    let st = decode_spec(cecilia_bytes(n, total_len(rows) as u32, rows_words(rows)))->Ok_0;
    assert(st.1 == padded_lists(n, rows));
    lemma_restore_without_bicliques(st.1);
    assert(Seq::new(n as nat, |r: int| restored_row(st.1, Seq::empty(), Seq::empty(), r)) =~= padded_lists(n, rows));
}


proof fn lemma_concat_targets_contains(to: Seq<Seq<u32>>, ids: Seq<usize>, i: int, w: u32)
    requires
        0 <= i < ids.len(),
        to[ids[i] as int].contains(w),
    ensures
        concat_targets(to, ids).contains(w),
    decreases ids.len(),
{
    let front = concat_targets(to, ids.drop_last());
    let last = to[ids.last() as int];
    if i < ids.len() - 1 {
        lemma_concat_targets_contains(to, ids.drop_last(), i, w);
        let k = choose|k: int| 0 <= k < front.len() && front[k] == w;
        assert((front + last)[k] == w);
    } else {
        let k = choose|k: int| 0 <= k < last.len() && last[k] == w;
        assert((front + last)[front.len() + k] == w);
    }
}

/// An edge that the lists or the bicliques hold, other than a self-loop, is on the
/// restored list of its node.
pub proof fn lemma_represented_edge_restored(adj: Seq<Seq<u32>>, from: Seq<Seq<u32>>, to: Seq<Seq<u32>>, v: u32, w: u32)
    requires
        from.len() == to.len(),
        from.len() <= usize::MAX,
        edge_represented(adj, from, to, v, w),
        v != w,
        !has_node_without_list(adj, from),
    ensures
        v < degree_bound(adj, from),
        restored_row(adj, from, to, v as int).contains(w),
{
    lemma_occurrences(from, v);
    lemma_max_of_lists_bounds(from);
    let ids = occurrences(from, v);
    let extra = concat_targets(to, ids);
    if in_some_biclique(from, to, v, w) {
        let b = choose|b: int| 0 <= b < from.len() && #[trigger] from[b].contains(v) && to[b].contains(w);
        assert(ids.contains(b as usize));
        let i = choose|i: int| 0 <= i < ids.len() && ids[i] == b as usize;
        lemma_concat_targets_contains(to, ids, i, w);
        let k = choose|k: int| 0 <= k < from[b].len() && from[b][k] == v;
        assert(from[b][k] <= max_of_lists(from));
        if (v as int) < adj.len() {
            let j = choose|j: int| 0 <= j < extra.len() && extra[j] == w;
            assert((adj[v as int] + extra)[adj[v as int].len() + j] == w);
            lemma_restored_row(adj, from, to, v as int);
        } else {
            lemma_without_excludes(extra, v);
        }
    } else {
        assert((v as int) < adj.len() && adj[v as int].contains(w));
        if ids.len() > 0 {
            let j = choose|j: int| 0 <= j < adj[v as int].len() && adj[v as int][j] == w;
            assert((adj[v as int] + extra)[j] == w);
            lemma_restored_row(adj, from, to, v as int);
        }
    }
}

/// Law: where the check against the genuine graph passes and the graph can be
/// restored, every edge of the genuine graph other than a self-loop is on the
/// restored list of its node.
pub proof fn lemma_restoration_complete(
    genuine: Seq<u8>,
    adj: Seq<Seq<u32>>,
    from: Seq<Seq<u32>>,
    to: Seq<Seq<u32>>,
    start_node: u32,
    introduced: Set<u32>,
    max_target: u32,
)
    requires
        from.len() == to.len(),
        from.len() <= usize::MAX,
        genuine_spec(genuine, adj, from, to, start_node, introduced, max_target) is Ok,
        !has_node_without_list(adj, from),
    ensures
        forall|v: u32, w: u32| #[trigger] genuine_edges(start_node, body_fields(genuine)).1.contains((v, w)) && v != w
            ==> v < degree_bound(adj, from) && restored_row(adj, from, to, v as int).contains(w),
{
    lemma_genuine_edges_kept(genuine, adj, from, to, start_node, introduced, max_target);
    assert forall|v: u32, w: u32| #[trigger] genuine_edges(start_node, body_fields(genuine)).1.contains((v, w)) && v != w
        implies v < degree_bound(adj, from) && restored_row(adj, from, to, v as int).contains(w) by {
        lemma_represented_edge_restored(adj, from, to, v, w);
    }
}


/// The restored lists of all nodes; every node up to the largest `from` node must have a
/// list or a biclique (`try_restore_rows` tells).
pub fn restore_rows(adjacency: &Vec<Vec<u32>>, bicliques: &Bicliques) -> (rows: Vec<Vec<u32>>)
    requires
        bicliques.wf(),
        adjacency@.len() <= u32::MAX,
        forall|b: int, k: int| 0 <= b < bicliques.from_lists().len() && 0 <= k < bicliques.from_lists()[b].len()
            ==> #[trigger] bicliques.from_lists()[b][k] < u32::MAX,
        !has_node_without_list(lists_view(adjacency), bicliques.from_lists()),
    ensures
        ({
            let adj = lists_view(adjacency);
            let from = bicliques.from_lists();
            let to = bicliques.to_lists();
            rows@.len() == degree_bound(adj, from)
                && forall|r: int| 0 <= r < rows@.len() ==> #[trigger] rows@[r]@ == restored_row(adj, from, to, r)
        }),
{
    try_restore_rows(adjacency, bicliques).unwrap()
}

/// Restores the ASCIIGraph text of a graph; every node up to the largest `from` node
/// must have a list or a biclique (`try_restore_ascii_graph` tells).
pub fn restore_ascii_graph(adjacency: &Vec<Vec<u32>>, bicliques: &Bicliques) -> (text: Vec<u8>)
    requires
        bicliques.wf(),
        adjacency@.len() <= u32::MAX,
        forall|b: int, k: int| 0 <= b < bicliques.from_lists().len() && 0 <= k < bicliques.from_lists()[b].len()
            ==> #[trigger] bicliques.from_lists()[b][k] < u32::MAX,
        !has_node_without_list(lists_view(adjacency), bicliques.from_lists()),
    ensures
        ({
            let adj = lists_view(adjacency);
            let from = bicliques.from_lists();
            let to = bicliques.to_lists();
            text@ == ascii_text(
                degree_bound(adj, from) as nat,
                Seq::new(degree_bound(adj, from) as nat, |r: int| restored_row(adj, from, to, r)),
            )
        }),
{
    try_restore_ascii_graph(adjacency, bicliques).unwrap()
}

} // verus!
