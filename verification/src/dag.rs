//! Directed graphs over the nodes `0..n`, given as lists of edges.

use vstd::prelude::*;

verus! {

/// Every edge joins two nodes of `0..n`.
pub open spec fn edges_in_range(n: int, edges: Seq<(usize, usize)>) -> bool {
    forall|i: int| 0 <= i < edges.len() ==> (#[trigger] edges[i]).0 < n && edges[i].1 < n
}

/// The targets of the edges that leave `u`, in edge order.
pub open spec fn successors(edges: Seq<(usize, usize)>, u: usize) -> Seq<usize>
    decreases edges.len(),
{
    if edges.len() == 0 {
        Seq::empty()
    } else {
        let rest = successors(edges.drop_last(), u);
        if edges.last().0 == u {
            rest.push(edges.last().1)
        } else {
            rest
        }
    }
}

/// The sources of the edges that enter `v`, in edge order.
pub open spec fn predecessors(edges: Seq<(usize, usize)>, v: usize) -> Seq<usize>
    decreases edges.len(),
{
    if edges.len() == 0 {
        Seq::empty()
    } else {
        let rest = predecessors(edges.drop_last(), v);
        if edges.last().1 == v {
            rest.push(edges.last().0)
        } else {
            rest
        }
    }
}

/// `walk` goes from node to node along edges.
pub open spec fn is_walk(edges: Seq<(usize, usize)>, walk: Seq<usize>) -> bool {
    &&& walk.len() >= 1
    &&& forall|i: int| 0 <= i < walk.len() - 1 ==> #[trigger] follows_edge(edges, walk, i)
}

/// The `i`-th step of `walk` goes along an edge.
pub open spec fn follows_edge(edges: Seq<(usize, usize)>, walk: Seq<usize>, i: int) -> bool {
    edges.contains((walk[i], walk[i + 1]))
}

/// No walk of one or more edges returns to the node it started from.
pub open spec fn acyclic(edges: Seq<(usize, usize)>) -> bool {
    forall|walk: Seq<usize>|
        #[trigger] is_walk(edges, walk) && walk.len() >= 2 ==> walk.first() != walk.last()
}

/// An edge leads to each listed successor, and each edge is listed.
pub proof fn lemma_successors(edges: Seq<(usize, usize)>, u: usize)
    ensures
        forall|j: int|
            0 <= j < successors(edges, u).len() ==> edges.contains(
                (u, #[trigger] successors(edges, u)[j]),
            ),
        forall|v: usize| edges.contains((u, v)) ==> #[trigger] successors(edges, u).contains(v),
    decreases edges.len(),
{
    if edges.len() > 0 {
        let rest = edges.drop_last();
        lemma_successors(rest, u);
        let s = successors(edges, u);
        let t = successors(rest, u);
        assert(edges =~= rest.push(edges.last()));
        assert forall|j: int| 0 <= j < s.len() implies edges.contains((u, #[trigger] s[j])) by {
            if j < t.len() {
                assert(t[j] == s[j]);
                assert(rest.contains((u, t[j])));
                let i = choose|i: int| 0 <= i < rest.len() && rest[i] == (u, t[j]);
                assert(edges[i] == (u, s[j]));
            } else {
                assert(edges[edges.len() - 1] == (u, s[j]));
            }
        }
        assert forall|v: usize| edges.contains((u, v)) implies #[trigger] s.contains(v) by {
            let i = choose|i: int| 0 <= i < edges.len() && edges[i] == (u, v);
            if i < rest.len() {
                assert(rest[i] == (u, v));
                assert(rest.contains((u, v)));
                assert(t.contains(v));
                let j = choose|j: int| 0 <= j < t.len() && t[j] == v;
                assert(s[j] == v);
            } else {
                assert(s[s.len() - 1] == v);
            }
        }
    }
}

/// An edge comes from each listed predecessor, and each edge is listed.
pub proof fn lemma_predecessors(edges: Seq<(usize, usize)>, v: usize)
    ensures
        forall|j: int|
            0 <= j < predecessors(edges, v).len() ==> edges.contains(
                (#[trigger] predecessors(edges, v)[j], v),
            ),
        forall|u: usize| edges.contains((u, v)) ==> #[trigger] predecessors(edges, v).contains(u),
    decreases edges.len(),
{
    if edges.len() > 0 {
        let rest = edges.drop_last();
        lemma_predecessors(rest, v);
        let s = predecessors(edges, v);
        let t = predecessors(rest, v);
        assert forall|j: int| 0 <= j < s.len() implies edges.contains((#[trigger] s[j], v)) by {
            if j < t.len() {
                assert(t[j] == s[j]);
                assert(rest.contains((t[j], v)));
                let i = choose|i: int| 0 <= i < rest.len() && rest[i] == (t[j], v);
                assert(edges[i] == (s[j], v));
            } else {
                assert(edges[edges.len() - 1] == (s[j], v));
            }
        }
        assert forall|u: usize| edges.contains((u, v)) implies #[trigger] s.contains(u) by {
            let i = choose|i: int| 0 <= i < edges.len() && edges[i] == (u, v);
            if i < rest.len() {
                assert(rest[i] == (u, v));
                assert(rest.contains((u, v)));
                assert(t.contains(u));
                let j = choose|j: int| 0 <= j < t.len() && t[j] == u;
                assert(s[j] == u);
            } else {
                assert(s[s.len() - 1] == u);
            }
        }
    }
}

/// Where every edge climbs in `rank`, so does every walk, and there is no cycle.
pub proof fn lemma_ranked_is_acyclic(edges: Seq<(usize, usize)>, rank: spec_fn(usize) -> int)
    requires
        forall|u: usize, v: usize| #[trigger] edges.contains((u, v)) ==> rank(u) < rank(v),
    ensures
        acyclic(edges),
{
    assert forall|walk: Seq<usize>| #[trigger] is_walk(edges, walk) && walk.len() >= 2 implies
        walk.first() != walk.last() by {
        lemma_walk_climbs(edges, rank, walk, walk.len() - 1);
    }
}

proof fn lemma_walk_climbs(
    edges: Seq<(usize, usize)>,
    rank: spec_fn(usize) -> int,
    walk: Seq<usize>,
    k: int,
)
    requires
        forall|u: usize, v: usize| #[trigger] edges.contains((u, v)) ==> rank(u) < rank(v),
        is_walk(edges, walk),
        0 <= k < walk.len(),
    ensures
        rank(walk[0]) + k <= rank(walk[k]),
    decreases k,
{
    if k > 0 {
        lemma_walk_climbs(edges, rank, walk, k - 1);
        assert(follows_edge(edges, walk, k - 1));
    }
}

/// The successor lists of the nodes `0..n`.
pub fn successor_lists(n: usize, edges: &Vec<(usize, usize)>) -> (succ: Vec<Vec<usize>>)
    requires
        edges_in_range(n as int, edges@),
    ensures
        succ.len() == n,
        forall|u: usize| u < n ==> (#[trigger] succ@[u as int])@ == successors(edges@, u),
{
    let mut succ: Vec<Vec<usize>> = empty_lists(n);
    let mut k: usize = 0;
    assert(edges@.take(0) =~= Seq::empty());
    while k < edges.len()
        invariant
            k <= edges.len(),
            edges_in_range(n as int, edges@),
            succ.len() == n,
            forall|u: usize|
                u < n ==> (#[trigger] succ@[u as int])@ == successors(edges@.take(k as int), u),
        decreases edges.len() - k,
    {
        let (u, v) = edges[k];
        assert(edges@.take(k + 1).drop_last() =~= edges@.take(k as int));
        succ[u].push(v);
        k += 1;
    }
    assert(edges@.take(edges.len() as int) =~= edges@);
    succ
}

/// The predecessor lists of the nodes `0..n`.
pub fn predecessor_lists(n: usize, edges: &Vec<(usize, usize)>) -> (preds: Vec<Vec<usize>>)
    requires
        edges_in_range(n as int, edges@),
    ensures
        preds.len() == n,
        forall|v: usize| v < n ==> (#[trigger] preds@[v as int])@ == predecessors(edges@, v),
{
    let mut preds: Vec<Vec<usize>> = empty_lists(n);
    let mut k: usize = 0;
    assert(edges@.take(0) =~= Seq::empty());
    while k < edges.len()
        invariant
            k <= edges.len(),
            edges_in_range(n as int, edges@),
            preds.len() == n,
            forall|v: usize|
                v < n ==> (#[trigger] preds@[v as int])@ == predecessors(edges@.take(k as int), v),
        decreases edges.len() - k,
    {
        let (u, v) = edges[k];
        assert(edges@.take(k + 1).drop_last() =~= edges@.take(k as int));
        preds[v].push(u);
        k += 1;
    }
    assert(edges@.take(edges.len() as int) =~= edges@);
    preds
}

/// `n` empty lists.
fn empty_lists(n: usize) -> (lists: Vec<Vec<usize>>)
    ensures
        lists.len() == n,
        forall|i: int| 0 <= i < n ==> (#[trigger] lists@[i])@ == Seq::<usize>::empty(),
{
    let mut lists: Vec<Vec<usize>> = Vec::new();
    let mut i: usize = 0;
    while i < n
        invariant
            i <= n,
            lists.len() == i,
            forall|j: int| 0 <= j < i ==> (#[trigger] lists@[j])@ == Seq::<usize>::empty(),
        decreases n - i,
    {
        lists.push(Vec::new());
        i += 1;
    }
    lists
}

} // verus!
