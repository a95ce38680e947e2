//! Out-degrees of the restored graph, counted from the remaining lists and the bicliques.

use vstd::prelude::*;
use std::collections::HashSet;
use crate::biclique::{
    count, in_some_biclique, lemma_count_contains, lemma_max_of_lists_bounds, max_node, max_of_lists,
    self_loop_set, Bicliques,
};
use crate::cecilia::lists_view;

verus! {

broadcast use vstd::std_specs::hash::group_hash_axioms;

/// The length of the remaining list of `v`, 0 where `v` has none.
pub open spec fn list_degree(adj: Seq<Seq<u32>>, v: int) -> nat {
    if 0 <= v < adj.len() { adj[v].len() } else { 0 }
}

/// The edges that the bicliques give `v`: for each biclique, the size of its `to` side
/// times the number of times `v` is on its `from` side.
pub open spec fn biclique_degree(from: Seq<Seq<u32>>, to: Seq<Seq<u32>>, v: int) -> nat
    decreases from.len(),
{
    if from.len() == 0 {
        0
    } else {
        biclique_degree(from.drop_last(), to.drop_last(), v)
            + if 0 <= v <= u32::MAX { count(from.last(), v as u32) * to[from.len() - 1].len() } else { 0 }
    }
}

/// The degree of `v` before the self-loop corrections.
pub open spec fn gross_degree(adj: Seq<Seq<u32>>, from: Seq<Seq<u32>>, to: Seq<Seq<u32>>, v: int) -> nat {
    list_degree(adj, v) + biclique_degree(from, to, v)
}

/// The degree of `v`: the gross degree, less one where a biclique introduces a self-loop
/// at `v` that the genuine graph lacks, plus one where the genuine graph has a self-loop at `v`
/// that nothing holds. Both corrections apply to nodes that have a remaining list.
pub open spec fn node_degree(
    adj: Seq<Seq<u32>>,
    from: Seq<Seq<u32>>,
    to: Seq<Seq<u32>>,
    introduced: Set<u32>,
    unstored: Set<u32>,
    v: int,
) -> int {
    gross_degree(adj, from, to, v)
        - (if 0 <= v < adj.len() && introduced.contains(v as u32) { 1int } else { 0int })
        + (if 0 <= v < adj.len() && unstored.contains(v as u32) { 1int } else { 0int })
}

/// The number of degrees: one per node that has a list or is on a `from` side.
pub open spec fn degree_bound(adj: Seq<Seq<u32>>, from: Seq<Seq<u32>>) -> int {
    let m = max_of_lists(from) + 1;
    if adj.len() > m { adj.len() as int } else { m }
}

proof fn lemma_biclique_degree_take(from: Seq<Seq<u32>>, to: Seq<Seq<u32>>, v: int, b: int)
    requires
        from.len() == to.len(),
        0 <= b < from.len(),
    ensures
        biclique_degree(from.take(b + 1), to.take(b + 1), v) == biclique_degree(from.take(b), to.take(b), v)
            + if 0 <= v <= u32::MAX { count(from[b], v as u32) * to[b].len() } else { 0 },
{
    assert(from.take(b + 1).drop_last() =~= from.take(b));
    assert(to.take(b + 1).drop_last() =~= to.take(b));
}

proof fn lemma_biclique_degree_mono(from: Seq<Seq<u32>>, to: Seq<Seq<u32>>, v: int, b: int)
    requires
        from.len() == to.len(),
        0 <= b <= from.len(),
    ensures
        biclique_degree(from.take(b), to.take(b), v) <= biclique_degree(from, to, v),
    decreases from.len() - b,
{
    if b < from.len() {
        lemma_biclique_degree_take(from, to, v, b);
        lemma_biclique_degree_mono(from, to, v, b + 1);
    } else {
        assert(from.take(b) =~= from);
        assert(to.take(b) =~= to);
    }
}

proof fn lemma_count_take(s: Seq<u32>, v: u32, k: int)
    requires
        0 <= k < s.len(),
    ensures
        count(s.take(k + 1), v) == count(s.take(k), v) + if s[k] == v { 1nat } else { 0nat },
        count(s.take(k), v) <= count(s, v),
    decreases s.len() - k,
{
    assert(s.take(k + 1).drop_last() =~= s.take(k));
    if k + 1 < s.len() {
        lemma_count_take(s, v, k + 1);
    } else {
        assert(s.take(k + 1) =~= s);
    }
}

/// A node that some biclique has on both sides gets at least one edge from the bicliques.
proof fn lemma_self_loop_degree(from: Seq<Seq<u32>>, to: Seq<Seq<u32>>, v: u32)
    requires
        from.len() == to.len(),
        in_some_biclique(from, to, v, v),
    ensures
        biclique_degree(from, to, v as int) >= 1,
    decreases from.len(),
{
    let b = choose|b: int| 0 <= b < from.len() && #[trigger] from[b].contains(v) && to[b].contains(v);
    if b == from.len() - 1 {
        lemma_count_contains(from.last(), v);
        assert(to[b].len() >= 1);
        assert(count(from.last(), v) * to[b].len() >= 1) by (nonlinear_arith)
            requires count(from.last(), v) >= 1, to[b].len() >= 1;
    } else {
        assert(from.drop_last()[b] == from[b]);
        assert(to.drop_last()[b] == to[b]);
        lemma_self_loop_degree(from.drop_last(), to.drop_last(), v);
    }
}

/// Law: for a node that has a remaining list, a genuine self-loop that nothing holds adds
/// exactly one to its degree, and a self-loop that only a biclique introduces takes
/// exactly one away; for a node without a list, neither changes its degree.
pub proof fn lemma_degree_self_loop_corrections(
    adj: Seq<Seq<u32>>,
    from: Seq<Seq<u32>>,
    to: Seq<Seq<u32>>,
    introduced: Set<u32>,
    unstored: Set<u32>,
    v: u32,
)
    ensures
        (v as int) < adj.len() ==> node_degree(adj, from, to, introduced, unstored.insert(v), v as int)
            == node_degree(adj, from, to, introduced, unstored.remove(v), v as int) + 1,
        (v as int) < adj.len() ==> node_degree(adj, from, to, introduced.insert(v), unstored, v as int)
            == node_degree(adj, from, to, introduced.remove(v), unstored, v as int) - 1,
        (v as int) >= adj.len() ==> node_degree(adj, from, to, introduced, unstored, v as int)
            == node_degree(adj, from, to, Set::empty(), Set::empty(), v as int),
{
}

/// Law: one more neighbour on the remaining list of a node gives it exactly one more
/// edge, and leaves the degree of every other node as it was.
pub proof fn lemma_degree_counts_list(
    adj: Seq<Seq<u32>>,
    from: Seq<Seq<u32>>,
    to: Seq<Seq<u32>>,
    introduced: Set<u32>,
    unstored: Set<u32>,
    v: int,
    w: u32,
    u: int,
)
    requires
        0 <= v < adj.len(),
    ensures
        node_degree(adj.update(v, adj[v].push(w)), from, to, introduced, unstored, u)
            == node_degree(adj, from, to, introduced, unstored, u) + (if u == v { 1int } else { 0int }),
{
}

/// Law: one more biclique with `v` once on its `from` side gives `v` as many more edges
/// as its `to` side holds nodes.
pub proof fn lemma_degree_counts_biclique(
    adj: Seq<Seq<u32>>,
    from: Seq<Seq<u32>>,
    to: Seq<Seq<u32>>,
    introduced: Set<u32>,
    unstored: Set<u32>,
    v: u32,
    t: Seq<u32>,
)
    requires
        from.len() == to.len(),
    ensures
        node_degree(adj, from.push(seq![v]), to.push(t), introduced, unstored, v as int)
            == node_degree(adj, from, to, introduced, unstored, v as int) + t.len(),
{
    assert(from.push(seq![v]).drop_last() =~= from);
    assert(to.push(t).drop_last() =~= to);
    assert(seq![v].drop_last() =~= Seq::<u32>::empty());
    assert(count(seq![v], v) == 1) by {
        reveal_with_fuel(count, 2);
    }
}

/// Every degree, and every degree before the self-loop corrections, fits a `usize`.
pub open spec fn degrees_fit(
    adj: Seq<Seq<u32>>,
    from: Seq<Seq<u32>>,
    to: Seq<Seq<u32>>,
    introduced: Set<u32>,
    unstored: Set<u32>,
) -> bool {
    forall|v: int| 0 <= v < degree_bound(adj, from) ==> gross_degree(adj, from, to, v) <= usize::MAX
        && #[trigger] node_degree(adj, from, to, introduced, unstored, v) <= usize::MAX
}

/// The out-degree of every node of the restored graph, or `None` where one of them
/// does not fit a `usize`.
pub fn try_node_degrees(
    adjacency: &Vec<Vec<u32>>,
    bicliques: &Bicliques,
    introduced: &HashSet<u32>,
    unstored: &HashSet<u32>,
) -> (degrees: Option<Vec<usize>>)
    requires
        bicliques.wf(),
        adjacency@.len() <= u32::MAX,
        forall|b: int, k: int| 0 <= b < bicliques.from_lists().len() && 0 <= k < bicliques.from_lists()[b].len()
            ==> #[trigger] bicliques.from_lists()[b][k] < u32::MAX,
        introduced@.subset_of(self_loop_set(bicliques.from_lists(), bicliques.to_lists())),
    ensures
        ({
            let adj = lists_view(adjacency);
            let from = bicliques.from_lists();
            let to = bicliques.to_lists();
            match degrees {
                Some(d) => d@.len() == degree_bound(adj, from)
                    && (forall|v: int| 0 <= v < d@.len() ==> #[trigger] gross_degree(adj, from, to, v) <= usize::MAX)
                    && forall|v: int| 0 <= v < d@.len()
                    ==> #[trigger] d@[v] == node_degree(adj, from, to, introduced@, unstored@, v),
                None => exists|v: int| 0 <= v < degree_bound(adj, from) && (gross_degree(adj, from, to, v) > usize::MAX
                    || #[trigger] node_degree(adj, from, to, introduced@, unstored@, v) > usize::MAX),
            }
        }),
        degrees is None ==> !degrees_fit(lists_view(adjacency), bicliques.from_lists(), bicliques.to_lists(),
            introduced@, unstored@),
{
    let ghost adj = lists_view(adjacency);
    let ghost from = bicliques.from_lists();
    let ghost to = bicliques.to_lists();
    let max_from = max_node(&bicliques.from);
    proof { lemma_max_of_lists_bounds(from); }
    assert(max_from < u32::MAX) by {
        crate::biclique::lemma_max_nonzero_is_member(from);
    }
    let m = max_from as usize + 1;
    let bound = if adjacency.len() > m { adjacency.len() } else { m };
    assert(bound == degree_bound(adj, from));
    // Each node starts from the length of its list.
    let mut degrees: Vec<usize> = Vec::new();
    let mut v: usize = 0;
    while v < bound
        invariant
            adj == lists_view(adjacency),
            0 <= v <= bound,
            bound >= adjacency@.len(),
            degrees@.len() == v,
            forall|w: int| 0 <= w < v ==> #[trigger] degrees@[w] == list_degree(adj, w),
        decreases bound - v,
    {
        if v < adjacency.len() {
            degrees.push(adjacency[v].len());
        } else {
            degrees.push(0);
        }
        v = v + 1;
    }
    // Then each biclique adds its `to` side to every node of its `from` side.
    let mut b: usize = 0;
    while b < bicliques.from.len()
        invariant
            bicliques.wf(),
            adj == lists_view(adjacency),
            from == bicliques.from_lists(),
            to == bicliques.to_lists(),
            bound == degree_bound(adj, from),
            forall|i: int, k: int| 0 <= i < from.len() && 0 <= k < from[i].len() ==> #[trigger] from[i][k] <= max_of_lists(from),
            0 <= b <= from.len(),
            degrees@.len() == bound,
            forall|w: int| 0 <= w < bound ==> #[trigger] degrees@[w]
                == list_degree(adj, w) + biclique_degree(from.take(b as int), to.take(b as int), w),
        decreases from.len() - b,
    {
        let sources = &bicliques.from[b];
        let size = bicliques.to[b].len();
        assert(sources@ == from[b as int] && size == to[b as int].len());
        assert(sources@.take(0) =~= Seq::<u32>::empty());
        assert forall|w: int| 0 <= w < bound implies #[trigger] degrees@[w]
            == list_degree(adj, w) + biclique_degree(from.take(b as int), to.take(b as int), w)
                + if 0 <= w <= u32::MAX { count(sources@.take(0), w as u32) * size } else { 0 } by {
            if 0 <= w <= u32::MAX {
                assert(count(sources@.take(0), w as u32) == 0);
            }
        }
        let mut k: usize = 0;
        while k < sources.len()
            invariant
                bicliques.wf(),
                adj == lists_view(adjacency),
                from == bicliques.from_lists(),
                to == bicliques.to_lists(),
                bound == degree_bound(adj, from),
                forall|i: int, k2: int| 0 <= i < from.len() && 0 <= k2 < from[i].len() ==> #[trigger] from[i][k2] <= max_of_lists(from),
                0 <= b < from.len(),
                sources@ == from[b as int],
                size == to[b as int].len(),
                0 <= k <= sources@.len(),
                degrees@.len() == bound,
                forall|w: int| 0 <= w < bound ==> #[trigger] degrees@[w]
                    == list_degree(adj, w) + biclique_degree(from.take(b as int), to.take(b as int), w)
                        + if 0 <= w <= u32::MAX { count(sources@.take(k as int), w as u32) * size } else { 0 },
            decreases sources@.len() - k,
        {
            let node = sources[k] as usize;
            assert(from[b as int][k as int] <= max_of_lists(from));
            proof { lemma_count_take(sources@, node as u32, k as int); }
            let current = degrees[node];
            match current.checked_add(size) {
                Some(sum) => {
                    degrees.set(node, sum);
                    assert forall|w: int| 0 <= w < bound implies #[trigger] degrees@[w]
                        == list_degree(adj, w) + biclique_degree(from.take(b as int), to.take(b as int), w)
                            + if 0 <= w <= u32::MAX { count(sources@.take(k + 1), w as u32) * size } else { 0 } by {
                        if 0 <= w <= u32::MAX {
                            lemma_count_take(sources@, w as u32, k as int);
                            let c = count(sources@.take(k as int), w as u32);
                            assert((c + 1) * size == c * size + size) by (nonlinear_arith);
                        }
                    }
                },
                None => {
                    proof {
                        let w = node as int;
                        let c = count(sources@.take(k as int), w as u32);
                        let c_all = count(from[b as int], w as u32);
                        assert(sources@[k as int] == w as u32);
                        if k + 1 < sources@.len() {
                            lemma_count_take(sources@, w as u32, k + 1);
                        } else {
                            assert(sources@.take(k + 1) =~= sources@);
                        }
                        assert(c + 1 <= c_all);
                        assert((c + 1) * size <= c_all * size) by (nonlinear_arith)
                            requires c + 1 <= c_all;
                        assert((c + 1) * size == c * size + size) by (nonlinear_arith);
                        lemma_biclique_degree_take(from, to, w, b as int);
                        lemma_biclique_degree_mono(from, to, w, b + 1);
                        assert(gross_degree(adj, from, to, w) > usize::MAX);
                        assert(0 <= w < degree_bound(adj, from));
                        let _ = node_degree(adj, from, to, introduced@, unstored@, w);
                    }
                    return None;
                },
            }
            k = k + 1;
        }
        assert(sources@.take(k as int) =~= sources@);
        proof {
            assert forall|w: int| 0 <= w < bound implies #[trigger] degrees@[w]
                == list_degree(adj, w) + biclique_degree(from.take(b + 1), to.take(b + 1), w) by {
                lemma_biclique_degree_take(from, to, w, b as int);
            }
        }
        b = b + 1;
    }
    assert(from.take(from.len() as int) =~= from);
    assert(to.take(to.len() as int) =~= to);
    assert forall|w: int| 0 <= w < bound implies #[trigger] gross_degree(adj, from, to, w) <= usize::MAX by {
        assert(degrees@[w] == gross_degree(adj, from, to, w));
    }
    // Self-loops that only the bicliques introduce are counted once too often.
    let mut v: usize = 0;
    while v < adjacency.len()
        invariant
            bicliques.wf(),
            adj == lists_view(adjacency),
            from == bicliques.from_lists(),
            to == bicliques.to_lists(),
            adjacency@.len() <= u32::MAX,
            bound == degree_bound(adj, from),
            bound >= adjacency@.len(),
            introduced@.subset_of(self_loop_set(from, to)),
            0 <= v <= adjacency@.len(),
            degrees@.len() == bound,
            forall|w: int| 0 <= w < bound ==> #[trigger] gross_degree(adj, from, to, w) <= usize::MAX,
            forall|w: int| 0 <= w < bound ==> #[trigger] degrees@[w]
                == gross_degree(adj, from, to, w)
                    - (if 0 <= w < v && introduced@.contains(w as u32) { 1int } else { 0int }),
        decreases adjacency@.len() - v,
    {
        if introduced.contains(&(v as u32)) {
            proof {
                assert(self_loop_set(from, to).contains(v as u32));
                lemma_self_loop_degree(from, to, v as u32);
            }
            let d = degrees[v];
            degrees.set(v, d - 1);
        }
        v = v + 1;
    }
    // Self-loops of the genuine graph that nothing holds are counted once more.
    let mut v: usize = 0;
    while v < adjacency.len()
        invariant
            adj == lists_view(adjacency),
            from == bicliques.from_lists(),
            to == bicliques.to_lists(),
            adjacency@.len() <= u32::MAX,
            bound == degree_bound(adj, from),
            bound >= adjacency@.len(),
            0 <= v <= adjacency@.len(),
            degrees@.len() == bound,
            forall|w: int| 0 <= w < bound ==> #[trigger] gross_degree(adj, from, to, w) <= usize::MAX,
            forall|w: int| 0 <= w < bound ==> #[trigger] degrees@[w]
                == gross_degree(adj, from, to, w)
                    - (if 0 <= w < adjacency@.len() && introduced@.contains(w as u32) { 1int } else { 0int })
                    + (if 0 <= w < v && unstored@.contains(w as u32) { 1int } else { 0int }),
        decreases adjacency@.len() - v,
    {
        if unstored.contains(&(v as u32)) {
            let d = degrees[v];
            match d.checked_add(1) {
                Some(e) => {
                    degrees.set(v, e);
                },
                None => {
                    assert(node_degree(adj, from, to, introduced@, unstored@, v as int) > usize::MAX);
                    return None;
                },
            }
        }
        v = v + 1;
    }
    Some(degrees)
}


/// The out-degree of every node of the restored graph; every degree must fit a `usize`
/// (`try_node_degrees` tells).
pub fn node_degrees(
    adjacency: &Vec<Vec<u32>>,
    bicliques: &Bicliques,
    introduced: &HashSet<u32>,
    unstored: &HashSet<u32>,
) -> (degrees: Vec<usize>)
    requires
        bicliques.wf(),
        adjacency@.len() <= u32::MAX,
        forall|b: int, k: int| 0 <= b < bicliques.from_lists().len() && 0 <= k < bicliques.from_lists()[b].len()
            ==> #[trigger] bicliques.from_lists()[b][k] < u32::MAX,
        introduced@.subset_of(self_loop_set(bicliques.from_lists(), bicliques.to_lists())),
        degrees_fit(lists_view(adjacency), bicliques.from_lists(), bicliques.to_lists(), introduced@, unstored@),
    ensures
        ({
            let adj = lists_view(adjacency);
            let from = bicliques.from_lists();
            let to = bicliques.to_lists();
            degrees@.len() == degree_bound(adj, from) && forall|v: int| 0 <= v < degrees@.len()
                ==> #[trigger] degrees@[v] == node_degree(adj, from, to, introduced@, unstored@, v)
        }),
{
    let r = try_node_degrees(adjacency, bicliques, introduced, unstored);
    r.unwrap()
}

} // verus!
