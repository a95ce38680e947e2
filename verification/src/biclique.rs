//! Bicliques and the facts about them that the restoration of a graph needs.
//!
//! Biclique `b` stands for every edge from a node of `from[b]` to a node of `to[b]`.

use vstd::prelude::*;
use std::collections::{HashMap, HashSet};
use crate::cecilia::lists_view;

verus! {

broadcast use vstd::std_specs::hash::group_hash_axioms;

/// The bicliques of an extraction: `from[b]` and `to[b]` are the two sides of biclique `b`.
pub struct Bicliques {
    pub from: Vec<Vec<u32>>,
    pub to: Vec<Vec<u32>>,
}

impl Bicliques {
    /// Both sides are given for each biclique.
    pub open spec fn wf(&self) -> bool {
        self.from@.len() == self.to@.len()
    }

    pub open spec fn from_lists(&self) -> Seq<Seq<u32>> {
        lists_view(&self.from)
    }

    pub open spec fn to_lists(&self) -> Seq<Seq<u32>> {
        lists_view(&self.to)
    }
}

/// How often `v` occurs in `s`.
pub open spec fn count(s: Seq<u32>, v: u32) -> nat
    decreases s.len(),
{
    if s.len() == 0 {
        0
    } else {
        count(s.drop_last(), v) + if s.last() == v { 1nat } else { 0nat }
    }
}

/// The bicliques whose `from` side holds `v`, in order, each as often as `v` occurs in it.
pub open spec fn occurrences(from: Seq<Seq<u32>>, v: u32) -> Seq<usize>
    decreases from.len(),
{
    if from.len() == 0 {
        Seq::empty()
    } else {
        occurrences(from.drop_last(), v) + Seq::new(count(from.last(), v), |k: int| (from.len() - 1) as usize)
    }
}

/// Some biclique has `v` on its `from` side and `w` on its `to` side.
pub open spec fn in_some_biclique(from: Seq<Seq<u32>>, to: Seq<Seq<u32>>, v: u32, w: u32) -> bool {
    exists|b: int| 0 <= b < from.len() && #[trigger] from[b].contains(v) && to[b].contains(w)
}

/// The nodes that some biclique has on both of its sides.
pub open spec fn self_loop_set(from: Seq<Seq<u32>>, to: Seq<Seq<u32>>) -> Set<u32> {
    Set::new(|v: u32| in_some_biclique(from, to, v, v))
}

pub(crate) proof fn lemma_count_contains(s: Seq<u32>, v: u32)
    ensures
        (count(s, v) > 0) == s.contains(v),
    decreases s.len(),
{
    if s.len() > 0 {
        lemma_count_contains(s.drop_last(), v);
        if s.last() == v {
            assert(s[s.len() - 1] == v);
        }
        if s.drop_last().contains(v) {
            let k = choose|k: int| 0 <= k < s.drop_last().len() && s.drop_last()[k] == v;
            assert(s[k] == v);
        }
        if s.contains(v) && s.last() != v {
            let k = choose|k: int| 0 <= k < s.len() && s[k] == v;
            assert(s.drop_last()[k] == v);
        }
    }
}

/// The list of occurrences holds exactly the bicliques whose `from` side holds `v`.
pub proof fn lemma_occurrences(from: Seq<Seq<u32>>, v: u32)
    requires
        from.len() <= usize::MAX,
    ensures
        forall|i: int| 0 <= i < occurrences(from, v).len() ==> {
            let b = #[trigger] occurrences(from, v)[i];
            &&& b < from.len()
            &&& from[b as int].contains(v)
        },
        forall|b: int| 0 <= b < from.len() && #[trigger] from[b].contains(v)
            ==> occurrences(from, v).contains(b as usize),
    decreases from.len(),
{
    if from.len() > 0 {
        let front = from.drop_last();
        lemma_occurrences(front, v);
        lemma_count_contains(from.last(), v);
        let o = occurrences(from, v);
        let o1 = occurrences(front, v);
        assert forall|i: int| 0 <= i < o.len() implies {
            let b = #[trigger] o[i];
            &&& b < from.len()
            &&& from[b as int].contains(v)
        } by {
            if i < o1.len() {
                assert(o[i] == o1[i]);
            } else {
                assert(o[i] == from.len() - 1);
            }
        }
        assert forall|b: int| 0 <= b < from.len() && #[trigger] from[b].contains(v)
            implies o.contains(b as usize) by {
            if b < from.len() - 1 {
                assert(front[b] == from[b]);
                let i = choose|i: int| 0 <= i < o1.len() && o1[i] == b as usize;
                assert(o[i] == b as usize);
            } else {
                assert(o[o1.len() as int] == b as usize);
            }
        }
    }
}

/// Whether `v` holds `x`.
pub fn vec_contains(v: &Vec<u32>, x: u32) -> (r: bool)
    ensures
        r == v@.contains(x),
{
    let mut i: usize = 0;
    while i < v.len()
        invariant
            0 <= i <= v@.len(),
            forall|k: int| 0 <= k < i ==> v@[k] != x,
        decreases v@.len() - i,
    {
        if v[i] == x {
            return true;
        }
        i = i + 1;
    }
    false
}

/// For each node on the `from` side of some biclique, the bicliques that hold it there,
/// in order, each as often as the node occurs in it.
pub fn node_to_bicliques(from: &Vec<Vec<u32>>) -> (map: HashMap<u32, Vec<usize>>)
    ensures
        forall|v: u32| #[trigger] map@.contains_key(v) == (occurrences(lists_view(from), v).len() > 0),
        forall|v: u32| #[trigger] map@.contains_key(v) ==> map@[v]@ == occurrences(lists_view(from), v),
{
    let ghost lists = lists_view(from);
    let mut map: HashMap<u32, Vec<usize>> = HashMap::new();
    let mut b: usize = 0;
    while b < from.len()
        invariant
            lists == lists_view(from),
            0 <= b <= from@.len(),
            forall|v: u32| #[trigger] map@.contains_key(v) == (occurrences(lists.take(b as int), v).len() > 0),
            forall|v: u32| #[trigger] map@.contains_key(v) ==> map@[v]@ == occurrences(lists.take(b as int), v),
        decreases from@.len() - b,
    {
        let row = &from[b];
        assert(row@ == lists[b as int]);
        let mut k: usize = 0;
        while k < row.len()
            invariant
                lists == lists_view(from),
                0 <= b < from@.len(),
                row@ == lists[b as int],
                0 <= k <= row@.len(),
                forall|v: u32| #[trigger] map@.contains_key(v) == (occurrences(lists.take(b as int), v).len()
                    + count(row@.take(k as int), v) > 0),
                forall|v: u32| #[trigger] map@.contains_key(v) ==> map@[v]@ == occurrences(lists.take(b as int), v)
                    + Seq::new(count(row@.take(k as int), v), |j: int| b),
            decreases row@.len() - k,
        {
            let v = row[k];
            assert(row@.take(k + 1).drop_last() =~= row@.take(k as int));
            let ghost before = map@;
            match map.remove(&v) {
                Some(mut ids) => {
                    ids.push(b);
                    map.insert(v, ids);
                },
                None => {
                    let mut ids: Vec<usize> = Vec::new();
                    ids.push(b);
                    map.insert(v, ids);
                },
            }
            assert forall|w: u32| #[trigger] map@.contains_key(w) implies map@[w]@ == occurrences(lists.take(b as int), w)
                + Seq::new(count(row@.take(k + 1), w), |j: int| b) by {
                {
                    if w == v {
                        if before.contains_key(v) {
                            assert(before[v]@.push(b) =~= occurrences(lists.take(b as int), w)
                                + Seq::new(count(row@.take(k + 1), w), |j: int| b));
                        } else {
                            assert(count(row@.take(k as int), w) == 0);
                            assert(Seq::<usize>::empty().push(b) =~= occurrences(lists.take(b as int), w)
                                + Seq::new(count(row@.take(k + 1), w), |j: int| b));
                        }
                    } else {
                        assert(map@[w] == before[w]);
                    }
                }
            }
            k = k + 1;
        }
        assert(row@.take(row@.len() as int) =~= row@);
        assert(lists.take(b + 1).drop_last() =~= lists.take(b as int));
        assert(lists.take(b + 1).last() == row@);
        b = b + 1;
    }
    assert(lists.take(from@.len() as int) =~= lists);
    map
}


/// The nodes that some biclique among the first `nb` ones, or biclique `nb` through the
/// first `k` nodes of its `from` side, has on both sides.
spec fn self_loops_upto(from: Seq<Seq<u32>>, to: Seq<Seq<u32>>, nb: int, k: int, v: u32) -> bool {
    (exists|b: int| 0 <= b < nb && #[trigger] from[b].contains(v) && to[b].contains(v))
        || (from[nb].take(k).contains(v) && to[nb].contains(v))
}

/// The nodes that some biclique has on both of its sides: the self-loops that the
/// bicliques stand for.
pub fn biclique_self_loops(bicliques: &Bicliques) -> (loops: HashSet<u32>)
    requires
        bicliques.wf(),
    ensures
        loops@ == self_loop_set(bicliques.from_lists(), bicliques.to_lists()),
{
    let ghost from = bicliques.from_lists();
    let ghost to = bicliques.to_lists();
    let mut loops: HashSet<u32> = HashSet::new();
    let mut b: usize = 0;
    while b < bicliques.from.len()
        invariant
            bicliques.wf(),
            from == bicliques.from_lists(),
            to == bicliques.to_lists(),
            0 <= b <= from.len(),
            forall|v: u32| #[trigger] loops@.contains(v)
                == exists|c: int| 0 <= c < b && #[trigger] from[c].contains(v) && to[c].contains(v),
        decreases from.len() - b,
    {
        let sources = &bicliques.from[b];
        let targets = &bicliques.to[b];
        assert(sources@ == from[b as int] && targets@ == to[b as int]);
        let mut k: usize = 0;
        while k < sources.len()
            invariant
                bicliques.wf(),
                from == bicliques.from_lists(),
                to == bicliques.to_lists(),
                0 <= b < from.len(),
                sources@ == from[b as int],
                targets@ == to[b as int],
                0 <= k <= sources@.len(),
                forall|v: u32| #[trigger] loops@.contains(v) == self_loops_upto(from, to, b as int, k as int, v),
            decreases sources@.len() - k,
        {
            let v = sources[k];
            let ghost before = loops@;
            if vec_contains(targets, v) {
                loops.insert(v);
            }
            assert forall|w: u32| #[trigger] loops@.contains(w) == self_loops_upto(from, to, b as int, k + 1, w) by {
                assert(from[b as int].take(k + 1) =~= from[b as int].take(k as int).push(v));
                let pre = from[b as int].take(k as int);
                let ext = from[b as int].take(k + 1);
                if ext.contains(w) && !pre.contains(w) {
                    let j = choose|j: int| 0 <= j < ext.len() && ext[j] == w;
                    if j < k {
                        assert(pre[j] == w);
                    }
                }
                if pre.contains(w) {
                    let j = choose|j: int| 0 <= j < pre.len() && pre[j] == w;
                    assert(ext[j] == w);
                }
                if w == v {
                    assert(from[b as int].take(k + 1)[k as int] == v);
                }
            }
            k = k + 1;
        }
        assert(from[b as int].take(k as int) =~= from[b as int]);
        assert forall|v: u32| #[trigger] loops@.contains(v)
            == exists|c: int| 0 <= c < b + 1 && #[trigger] from[c].contains(v) && to[c].contains(v) by {
            if loops@.contains(v) && !(exists|c: int| 0 <= c < b && #[trigger] from[c].contains(v) && to[c].contains(v)) {
                assert(from[b as int].contains(v) && to[b as int].contains(v));
            }
        }
        b = b + 1;
    }
    assert(loops@ =~= self_loop_set(from, to));
    loops
}

/// No edge of a biclique is already an edge of the lists: for every biclique, every
/// node on its `from` side that has a list, and every node on its `to` side, the list
/// of the former does not hold the latter.
pub open spec fn bicliques_add_new_edges(adj: Seq<Seq<u32>>, from: Seq<Seq<u32>>, to: Seq<Seq<u32>>) -> bool {
    forall|b: int, i: int, j: int|
        0 <= b < from.len() && 0 <= i < from[b].len() && 0 <= j < to[b].len() && from[b][i] < adj.len()
            ==> !#[trigger] adj[from[b][i] as int].contains(#[trigger] to[b][j])
}

/// Law: the bicliques add only new edges exactly when no edge of the remaining lists,
/// from a node `v` that has a list to a node `w`, is also an edge that some biclique
/// (the last one included) stands for, with `v` on its `from` side and `w` on its `to` side.
pub proof fn lemma_bicliques_add_new_edges_iff(adj: Seq<Seq<u32>>, from: Seq<Seq<u32>>, to: Seq<Seq<u32>>)
    ensures
        bicliques_add_new_edges(adj, from, to) == !exists|v: u32, w: u32, b: int|
            v < adj.len() && #[trigger] adj[v as int].contains(w) && 0 <= b < from.len()
                && #[trigger] from[b].contains(v) && to[b].contains(w),
{
    if bicliques_add_new_edges(adj, from, to) {
        assert forall|v: u32, w: u32, b: int|
            v < adj.len() && #[trigger] adj[v as int].contains(w) && 0 <= b < from.len()
                && #[trigger] from[b].contains(v) implies !to[b].contains(w) by {
            if to[b].contains(w) {
                let i = choose|i: int| 0 <= i < from[b].len() && from[b][i] == v;
                let j = choose|j: int| 0 <= j < to[b].len() && to[b][j] == w;
                assert(!adj[from[b][i] as int].contains(to[b][j]));
            }
        }
    } else {
        let (b, i, j) = choose|b: int, i: int, j: int|
            0 <= b < from.len() && 0 <= i < from[b].len() && 0 <= j < to[b].len() && from[b][i] < adj.len()
                && #[trigger] adj[from[b][i] as int].contains(#[trigger] to[b][j]);
        let v = from[b][i];
        let w = to[b][j];
        assert(from[b].contains(v));
        assert(to[b].contains(w));
        assert(adj[v as int].contains(w));
    }
}

/// Whether every edge that the bicliques stand for is missing from the lists.
pub fn check_bicliques_add_new_edges(adjacency: &Vec<Vec<u32>>, bicliques: &Bicliques) -> (ok: bool)
    requires
        bicliques.wf(),
    ensures
        ok == bicliques_add_new_edges(lists_view(adjacency), bicliques.from_lists(), bicliques.to_lists()),
{
    let ghost adj = lists_view(adjacency);
    let ghost from = bicliques.from_lists();
    let ghost to = bicliques.to_lists();
    let mut b: usize = 0;
    while b < bicliques.from.len()
        invariant
            bicliques.wf(),
            adj == lists_view(adjacency),
            from == bicliques.from_lists(),
            to == bicliques.to_lists(),
            0 <= b <= from.len(),
            forall|c: int, i: int, j: int|
                0 <= c < b && 0 <= i < from[c].len() && 0 <= j < to[c].len() && from[c][i] < adj.len()
                    ==> !#[trigger] adj[from[c][i] as int].contains(#[trigger] to[c][j]),
        decreases from.len() - b,
    {
        let sources = &bicliques.from[b];
        let targets = &bicliques.to[b];
        let mut i: usize = 0;
        while i < sources.len()
            invariant
                bicliques.wf(),
                adj == lists_view(adjacency),
                from == bicliques.from_lists(),
                to == bicliques.to_lists(),
                0 <= b < from.len(),
                sources@ == from[b as int],
                targets@ == to[b as int],
                0 <= i <= sources@.len(),
                forall|c: int, i2: int, j: int|
                    0 <= c < b && 0 <= i2 < from[c].len() && 0 <= j < to[c].len() && from[c][i2] < adj.len()
                        ==> !#[trigger] adj[from[c][i2] as int].contains(#[trigger] to[c][j]),
                forall|i2: int, j: int|
                    0 <= i2 < i && 0 <= j < to[b as int].len() && from[b as int][i2] < adj.len()
                        ==> !#[trigger] adj[from[b as int][i2] as int].contains(#[trigger] to[b as int][j]),
            decreases sources@.len() - i,
        {
            let f = sources[i];
            if (f as usize) < adjacency.len() {
                let row = &adjacency[f as usize];
                assert(row@ == adj[f as int]);
                let mut j: usize = 0;
                while j < targets.len()
                    invariant
                        0 <= j <= targets@.len(),
                        bicliques.wf(),
                        adj == lists_view(adjacency),
                        from == bicliques.from_lists(),
                        to == bicliques.to_lists(),
                        0 <= b < from.len(),
                        sources@ == from[b as int],
                        targets@ == to[b as int],
                        0 <= i < sources@.len(),
                        f == sources@[i as int],
                        f < adj.len(),
                        row@ == adj[f as int],
                        forall|j2: int| 0 <= j2 < j ==> !row@.contains(#[trigger] targets@[j2]),
                    decreases targets@.len() - j,
                {
                    if vec_contains(row, targets[j]) {
                        assert(adj[from[b as int][i as int] as int].contains(to[b as int][j as int]));
                        return false;
                    }
                    j = j + 1;
                }
            }
            i = i + 1;
        }
        b = b + 1;
    }
    true
}

/// The largest value of a list, 0 for an empty one.
pub open spec fn max_of(s: Seq<u32>) -> u32
    decreases s.len(),
{
    if s.len() == 0 {
        0
    } else {
        let m = max_of(s.drop_last());
        if s.last() > m { s.last() } else { m }
    }
}

/// The largest value over all lists, 0 where there is none.
pub open spec fn max_of_lists(ls: Seq<Seq<u32>>) -> u32
    decreases ls.len(),
{
    if ls.len() == 0 {
        0
    } else {
        let m = max_of_lists(ls.drop_last());
        let x = max_of(ls.last());
        if x > m { x } else { m }
    }
}

/// No value of a list exceeds its maximum.
pub proof fn lemma_max_of_bounds(s: Seq<u32>)
    ensures
        forall|k: int| 0 <= k < s.len() ==> #[trigger] s[k] <= max_of(s),
        max_of(s) == 0 || s.contains(max_of(s)),
    decreases s.len(),
{
    if s.len() > 0 {
        lemma_max_of_bounds(s.drop_last());
        assert forall|k: int| 0 <= k < s.len() implies #[trigger] s[k] <= max_of(s) by {
            if k < s.len() - 1 {
                assert(s[k] == s.drop_last()[k]);
            }
        }
        if max_of(s) != 0 && max_of(s) != s.last() {
            let k = choose|k: int| 0 <= k < s.drop_last().len() && s.drop_last()[k] == max_of(s.drop_last());
            assert(s[k] == max_of(s));
        }
        if max_of(s) == s.last() {
            assert(s[s.len() - 1] == max_of(s));
        }
    }
}

/// No value of any list exceeds the maximum over all lists.
pub proof fn lemma_max_of_lists_bounds(ls: Seq<Seq<u32>>)
    ensures
        forall|i: int, k: int| 0 <= i < ls.len() && 0 <= k < ls[i].len() ==> #[trigger] ls[i][k] <= max_of_lists(ls),
    decreases ls.len(),
{
    if ls.len() > 0 {
        lemma_max_of_lists_bounds(ls.drop_last());
        lemma_max_of_bounds(ls.last());
        assert forall|i: int, k: int| 0 <= i < ls.len() && 0 <= k < ls[i].len()
            implies #[trigger] ls[i][k] <= max_of_lists(ls) by {
            if i < ls.len() - 1 {
                assert(ls[i] == ls.drop_last()[i]);
            }
        }
    }
}

/// The largest node id over all lists, 0 where there is none.
pub fn max_node(lists: &Vec<Vec<u32>>) -> (m: u32)
    ensures
        m == max_of_lists(lists_view(lists)),
{
    let ghost ls = lists_view(lists);
    let mut m: u32 = 0;
    let mut i: usize = 0;
    while i < lists.len()
        invariant
            ls == lists_view(lists),
            0 <= i <= ls.len(),
            m == max_of_lists(ls.take(i as int)),
        decreases ls.len() - i,
    {
        let row = &lists[i];
        let mut x: u32 = 0;
        let mut k: usize = 0;
        while k < row.len()
            invariant
                row@ == ls[i as int],
                0 <= k <= row@.len(),
                x == max_of(row@.take(k as int)),
            decreases row@.len() - k,
        {
            assert(row@.take(k + 1).drop_last() =~= row@.take(k as int));
            if row[k] > x {
                x = row[k];
            }
            k = k + 1;
        }
        assert(row@.take(k as int) =~= row@);
        assert(ls.take(i + 1).drop_last() =~= ls.take(i as int));
        if x > m {
            m = x;
        }
        i = i + 1;
    }
    assert(ls.take(i as int) =~= ls);
    m
}

/// Where the maximum over all lists is not 0, some list holds it.
pub proof fn lemma_max_nonzero_is_member(ls: Seq<Seq<u32>>)
    ensures
        max_of_lists(ls) == 0 || exists|i: int, k: int| 0 <= i < ls.len() && 0 <= k < ls[i].len()
            && #[trigger] ls[i][k] == max_of_lists(ls),
    decreases ls.len(),
{
    if ls.len() > 0 {
        lemma_max_nonzero_is_member(ls.drop_last());
        lemma_max_of_bounds(ls.last());
        let m = max_of_lists(ls);
        if m != 0 {
            if m == max_of(ls.last()) {
                let k = choose|k: int| 0 <= k < ls.last().len() && ls.last()[k] == m;
                assert(ls[ls.len() - 1][k] == m);
            } else {
                let (i, k) = choose|i: int, k: int| 0 <= i < ls.drop_last().len() && 0 <= k < ls.drop_last()[i].len()
                    && #[trigger] ls.drop_last()[i][k] == max_of_lists(ls.drop_last());
                assert(ls[i][k] == m);
            }
        }
    }
}

} // verus!
