//! Topological order.

use vstd::prelude::*;

use crate::dag::{
    acyclic, edges_in_range, follows_edge, is_walk, lemma_successors, successor_lists, successors,
};

verus! {

/// No edge leads to `v`.
pub open spec fn is_source(edges: Seq<(usize, usize)>, v: usize) -> bool {
    forall|u: usize| !edges.contains((u, v))
}

/// Each node comes after all nodes with an edge to it.
pub open spec fn topological(edges: Seq<(usize, usize)>, order: Seq<usize>) -> bool {
    forall|i: int, u: usize|
        0 <= i < order.len() && edges.contains((u, #[trigger] order[i]))
            ==> #[trigger] order.take(i).contains(u)
}

/// All nodes with an edge to `v` are in `order`.
pub open spec fn freed(edges: Seq<(usize, usize)>, order: Seq<usize>, v: usize) -> bool {
    forall|u: usize| #[trigger] edges.contains((u, v)) ==> order.contains(u)
}

/// `v` is the `j`-th successor of the `p`-th node of `order`.
pub open spec fn occurs(
    edges: Seq<(usize, usize)>,
    order: Seq<usize>,
    v: usize,
    p: int,
    j: int,
) -> bool {
    0 <= p < order.len() && 0 <= j < successors(edges, order[p]).len() && successors(
        edges,
        order[p],
    )[j] == v
}

/// Place `(p, j)` comes before place `(q, l)` when the successors of the nodes are read in order.
pub open spec fn place_before(p: int, j: int, q: int, l: int) -> bool {
    p < q || (p == q && j < l)
}

/// `(p, j)` is the last place where `v` occurs: from there on nothing holds `v` back.
pub open spec fn released_at(
    edges: Seq<(usize, usize)>,
    order: Seq<usize>,
    v: usize,
    p: int,
    j: int,
) -> bool {
    &&& occurs(edges, order, v, p, j)
    &&& forall|q: int, l: int| #[trigger]
        occurs(edges, order, v, q, l) ==> !place_before(p, j, q, l)
}

/// First come, first served: sources in index order, then each node when it is released.
pub open spec fn served_before(
    edges: Seq<(usize, usize)>,
    order: Seq<usize>,
    v: usize,
    w: usize,
) -> bool {
    if is_source(edges, v) {
        is_source(edges, w) ==> v < w
    } else {
        !is_source(edges, w) && exists|p: int, j: int, q: int, l: int|
            #![trigger released_at(edges, order, v, p, j), released_at(edges, order, w, q, l)]
            released_at(edges, order, v, p, j) && released_at(edges, order, w, q, l)
                && place_before(p, j, q, l)
    }
}

/// How many edges lead to `v` from nodes outside `done`.
spec fn waiting(edges: Seq<(usize, usize)>, done: Set<usize>, v: usize) -> nat
    decreases edges.len(),
{
    if edges.len() == 0 {
        0
    } else {
        waiting(edges.drop_last(), done, v) + if edges.last().1 == v && !done.contains(
            edges.last().0,
        ) {
            1nat
        } else {
            0
        }
    }
}

/// How often `v` is in `s`.
spec fn times(s: Seq<usize>, v: usize) -> nat
    decreases s.len(),
{
    if s.len() == 0 {
        0
    } else {
        times(s.drop_first(), v) + if s[0] == v {
            1nat
        } else {
            0
        }
    }
}

proof fn lemma_times_push(s: Seq<usize>, x: usize, v: usize)
    ensures
        times(s.push(x), v) == times(s, v) + if x == v {
            1nat
        } else {
            0
        },
    decreases s.len(),
{
    if s.len() == 0 {
        assert(s.push(x).drop_first() =~= s);
    } else {
        lemma_times_push(s.drop_first(), x, v);
        assert(s.push(x).drop_first() =~= s.drop_first().push(x));
    }
}

proof fn lemma_times_zero(s: Seq<usize>, v: usize)
    ensures
        times(s, v) == 0 <==> !s.contains(v),
    decreases s.len(),
{
    if s.len() > 0 {
        let t = s.drop_first();
        lemma_times_zero(t, v);
        if t.contains(v) {
            let i = choose|i: int| 0 <= i < t.len() && t[i] == v;
            assert(s[i + 1] == v);
        }
        if s.contains(v) && s[0] != v {
            let i = choose|i: int| 0 <= i < s.len() && s[i] == v;
            assert(t[i - 1] == v);
        }
    }
}

proof fn lemma_waiting_insert(edges: Seq<(usize, usize)>, done: Set<usize>, u: usize, v: usize)
    requires
        !done.contains(u),
    ensures
        waiting(edges, done, v) == waiting(edges, done.insert(u), v) + times(
            successors(edges, u),
            v,
        ),
    decreases edges.len(),
{
    if edges.len() > 0 {
        lemma_waiting_insert(edges.drop_last(), done, u, v);
        if edges.last().0 == u {
            lemma_times_push(successors(edges.drop_last(), u), edges.last().1, v);
        }
    }
}

proof fn lemma_waiting_zero(edges: Seq<(usize, usize)>, done: Set<usize>, v: usize)
    ensures
        waiting(edges, done, v) == 0 <==> forall|u: usize| #[trigger]
            edges.contains((u, v)) ==> done.contains(u),
    decreases edges.len(),
{
    if edges.len() > 0 {
        let rest = edges.drop_last();
        lemma_waiting_zero(rest, done, v);
        if waiting(edges, done, v) == 0 {
            assert forall|u: usize| #[trigger] edges.contains((u, v)) implies done.contains(u) by {
                let i = choose|i: int| 0 <= i < edges.len() && edges[i] == (u, v);
                if i < rest.len() {
                    assert(rest[i] == (u, v));
                    assert(rest.contains((u, v)));
                }
            }
        }
        if forall|u: usize| #[trigger] edges.contains((u, v)) ==> done.contains(u) {
            assert forall|u: usize| #[trigger] rest.contains((u, v)) implies done.contains(u) by {
                let i = choose|i: int| 0 <= i < rest.len() && rest[i] == (u, v);
                assert(edges[i] == (u, v));
                assert(edges.contains((u, v)));
            }
            if edges.last().1 == v {
                assert(edges[edges.len() - 1] == (edges.last().0, v));
                assert(edges.contains((edges.last().0, v)));
            }
        }
    }
}

/// A list of distinct numbers below `n` has at most `n` entries.
pub proof fn lemma_distinct_below(s: Seq<usize>, n: nat)
    requires
        s.no_duplicates(),
        forall|i: int| 0 <= i < s.len() ==> #[trigger] s[i] < n,
    ensures
        s.len() <= n,
    decreases n,
{
    if n == 0 {
        if s.len() > 0 {
            assert(s[0] < n);
        }
    } else {
        let top = (n - 1) as nat;
        if exists|i: int| 0 <= i < s.len() && #[trigger] s[i] == top {
            let i = choose|i: int| 0 <= i < s.len() && #[trigger] s[i] == top;
            let t = s.remove(i);
            assert forall|j: int| 0 <= j < t.len() implies #[trigger] t[j] < top by {
                let k = if j < i {
                    j
                } else {
                    j + 1
                };
                assert(t[j] == s[k]);
                assert(s[k] < n);
                assert(s[k] != s[i]);
            }
            assert(t.no_duplicates()) by {
                assert forall|a: int, b: int| 0 <= a < b < t.len() implies t[a] != t[b] by {
                    let c = if a < i {
                        a
                    } else {
                        a + 1
                    };
                    let d = if b < i {
                        b
                    } else {
                        b + 1
                    };
                    assert(t[a] == s[c] && t[b] == s[d]);
                }
            }
            lemma_distinct_below(t, top);
        } else {
            assert forall|j: int| 0 <= j < s.len() implies #[trigger] s[j] < top by {
                assert(s[j] < n);
                assert(s[j] != top);
            }
            lemma_distinct_below(s, top);
        }
    }
}

/// From a node that no topological order reaches, walks of any length lead back through such
/// nodes.
proof fn lemma_walk_back(
    n: nat,
    edges: Seq<(usize, usize)>,
    order: Seq<usize>,
    v: usize,
    k: nat,
) -> (walk: Seq<usize>)
    requires
        edges_in_range(n as int, edges),
        v < n,
        !order.contains(v),
        forall|w: usize| w < n && #[trigger] freed(edges, order, w) ==> order.contains(w),
    ensures
        is_walk(edges, walk),
        walk.len() == k + 1,
        walk.last() == v,
        forall|i: int| 0 <= i < walk.len() ==> #[trigger] walk[i] < n,
    decreases k,
{
    if k == 0 {
        seq![v]
    } else {
        assert(!freed(edges, order, v));
        let u = choose|u: usize| #[trigger] edges.contains((u, v)) && !order.contains(u);
        assert(edges.contains((u, v)) && !order.contains(u));
        let e = choose|e: int| 0 <= e < edges.len() && edges[e] == (u, v);
        assert(edges[e].0 < n);
        let back = lemma_walk_back(n, edges, order, u, (k - 1) as nat);
        let walk = back.push(v);
        assert forall|i: int| 0 <= i < walk.len() - 1 implies #[trigger] follows_edge(
        edges,
        walk,
        i,
    ) by {
            if i < back.len() - 1 {
                assert(follows_edge(edges, back, i));
            }
        }
        walk
    }
}

/// Without cycles, nothing is held back for good.
proof fn lemma_acyclic_complete(n: nat, edges: Seq<(usize, usize)>, order: Seq<usize>, v: usize)
    requires
        edges_in_range(n as int, edges),
        acyclic(edges),
        v < n,
        forall|w: usize| w < n && #[trigger] freed(edges, order, w) ==> order.contains(w),
    ensures
        order.contains(v),
{
    if !order.contains(v) {
        let walk = lemma_walk_back(n, edges, order, v, n);
        lemma_long_walk_repeats(n, edges, walk);
    }
}

/// A walk with more nodes than there are goes round in a cycle.
pub proof fn lemma_long_walk_repeats(n: nat, edges: Seq<(usize, usize)>, walk: Seq<usize>)
    requires
        is_walk(edges, walk),
        walk.len() > n,
        forall|i: int| 0 <= i < walk.len() ==> #[trigger] walk[i] < n,
    ensures
        !acyclic(edges),
{
    if walk.no_duplicates() {
        lemma_distinct_below(walk, n);
    } else {
        let (i, j) = choose|i: int, j: int|
            0 <= i < walk.len() && 0 <= j < walk.len() && i != j && walk[i] == walk[j];
        let (a, b) = if i < j {
            (i, j)
        } else {
            (j, i)
        };
        let round = walk.subrange(a, b + 1);
        assert forall|k: int| 0 <= k < round.len() - 1 implies #[trigger] follows_edge(
            edges,
            round,
            k,
        ) by {
            assert(follows_edge(edges, walk, a + k));
        }
        assert(is_walk(edges, round));
        assert(round.first() == round.last());
    }
}

/// Where each node of the queue was released: `(-1, v)` for a source `v`.
spec fn stamped(edges: Seq<(usize, usize)>, queue: Seq<usize>, stamps: Seq<(int, int)>) -> bool {
    &&& stamps.len() == queue.len()
    &&& forall|i: int| 0 <= i < queue.len() ==> #[trigger] stamp_ok(edges, queue, i, stamps[i])
    &&& forall|i: int, k: int|
        0 <= i < k < queue.len() ==> place_before(
            (#[trigger] stamps[i]).0,
            stamps[i].1,
            (#[trigger] stamps[k]).0,
            stamps[k].1,
        )
}

spec fn stamp_ok(
    edges: Seq<(usize, usize)>,
    queue: Seq<usize>,
    i: int,
    stamp: (int, int),
) -> bool {
    let v = queue[i];
    let (p, j) = stamp;
    if p < 0 {
        p == -1 && j == v && is_source(edges, v)
    } else {
        &&& p < i
        &&& occurs(edges, queue, v, p, j)
        &&& forall|u: usize| #[trigger] edges.contains((u, v)) ==> queue.take(p + 1).contains(u)
        &&& forall|l: int| j < l < successors(edges, queue[p]).len() ==> #[trigger] successors(
            edges,
            queue[p],
        )[l] != v
    }
}

/// Appending to the queue keeps the stamps of the nodes before.
proof fn lemma_stamp_push(
    edges: Seq<(usize, usize)>,
    queue: Seq<usize>,
    i: int,
    stamp: (int, int),
    w: usize,
)
    requires
        0 <= i < queue.len(),
        stamp_ok(edges, queue, i, stamp),
    ensures
        stamp_ok(edges, queue.push(w), i, stamp),
{
    let (p, j) = stamp;
    if p >= 0 {
        assert(queue.push(w).take(p + 1) =~= queue.take(p + 1));
    }
}

/// The stamps show in which order the nodes are served.
proof fn lemma_served(
    edges: Seq<(usize, usize)>,
    order: Seq<usize>,
    stamps: Seq<(int, int)>,
    i: int,
    k: int,
)
    requires
        order.no_duplicates(),
        stamped(edges, order, stamps),
        0 <= i < k < order.len(),
    ensures
        served_before(edges, order, order[i], order[k]),
{
    assert(stamp_ok(edges, order, i, stamps[i]));
    assert(stamp_ok(edges, order, k, stamps[k]));
    let (p, j) = stamps[i];
    let (q, l) = stamps[k];
    assert(place_before(p, j, q, l));
    if p >= 0 {
        lemma_released(edges, order, i, stamps[i]);
    }
    if q >= 0 {
        lemma_released(edges, order, k, stamps[k]);
    }
}

proof fn lemma_released(
    edges: Seq<(usize, usize)>,
    order: Seq<usize>,
    i: int,
    stamp: (int, int),
)
    requires
        order.no_duplicates(),
        0 <= i < order.len(),
        stamp.0 >= 0,
        stamp_ok(edges, order, i, stamp),
    ensures
        released_at(edges, order, order[i], stamp.0, stamp.1),
        !is_source(edges, order[i]),
{
    let v = order[i];
    let (p, j) = stamp;
    lemma_successors(edges, order[p]);
    assert(edges.contains((order[p], v)));
    assert forall|q: int, l: int| #[trigger] occurs(edges, order, v, q, l) implies !place_before(
        p,
        j,
        q,
        l,
    ) by {
        lemma_successors(edges, order[q]);
        assert(edges.contains((order[q], v)));
        assert(order.take(p + 1).contains(order[q]));
        let read = order.take(p + 1);
        let a = choose|a: int| 0 <= a < read.len() && read[a] == order[q];
        assert(order[a] == order[q]);
        assert(a == q);
    }
}

/// Topological order, first come, first served; sources in index order. Nodes on a cycle, or
/// behind one, are left out.
pub fn topo(n: usize, edges: &Vec<(usize, usize)>) -> (order: Vec<usize>)
    requires
        edges_in_range(n as int, edges@),
    ensures
        order@.no_duplicates(),
        forall|i: int| 0 <= i < order@.len() ==> #[trigger] order@[i] < n,
        topological(edges@, order@),
        forall|v: usize| v < n && #[trigger] freed(edges@, order@, v) ==> order@.contains(v),
        forall|i: int, k: int|
            0 <= i < k < order@.len() ==> served_before(
                edges@,
                order@,
                #[trigger] order@[i],
                #[trigger] order@[k],
            ),
        acyclic(edges@) ==> forall|v: usize| v < n ==> #[trigger] order@.contains(v),
{
    let succ = successor_lists(n, edges);
    let mut indeg = in_degrees(n, edges);
    let mut queue: Vec<usize> = Vec::new();
    let ghost mut stamps: Seq<(int, int)> = Seq::empty();
    let mut i: usize = 0;
    while i < n
        invariant
            i <= n,
            indeg.len() == n,
            forall|v: usize|
                v < n ==> #[trigger] indeg@[v as int] == waiting(edges@, Set::empty(), v),
            queue@.no_duplicates(),
            forall|k: int| 0 <= k < queue@.len() ==> #[trigger] queue@[k] < i,
            forall|v: usize| v < i ==> (#[trigger] queue@.contains(v) <==> indeg@[v as int] == 0),
            stamped(edges@, queue@, stamps),
            forall|k: int| 0 <= k < queue@.len() ==> #[trigger] stamps[k] == (-1int, queue@[k] as int),
        decreases n - i,
    {
        if indeg[i] == 0 {
            let ghost q = queue@;
            queue.push(i);
            proof {
                lemma_waiting_zero(edges@, Set::empty(), i);
                let t = stamps.push((-1int, i as int));
                assert forall|k: int| 0 <= k < queue@.len() implies #[trigger] stamp_ok(
                    edges@,
                    queue@,
                    k,
                    t[k],
                ) by {
                    if k < q.len() {
                        assert(stamp_ok(edges@, q, k, stamps[k]));
                        lemma_stamp_push(edges@, q, k, stamps[k], i);
                    }
                }
                assert forall|v: usize| v < i + 1 implies (#[trigger] queue@.contains(v)
                    <==> indeg@[v as int] == 0) by {
                    if v == i {
                        assert(queue@[q.len() as int] == i);
                    } else {
                        assert(queue@.contains(v) <==> q.contains(v)) by {
                            if q.contains(v) {
                                let k = choose|k: int| 0 <= k < q.len() && q[k] == v;
                                assert(queue@[k] == v);
                            }
                        }
                    }
                }
                stamps = t;
            }
        } else {
            assert forall|v: usize| v < i + 1 implies (#[trigger] queue@.contains(v)
                <==> indeg@[v as int] == 0) by {}
        }
        i += 1;
    }
    let mut head: usize = 0;
    proof {
        assert(queue@.take(0).to_set() =~= Set::empty());
        assert forall|k: int, u: usize| 0 <= k < queue@.len() && edges@.contains(
            (u, #[trigger] queue@[k]),
        ) implies #[trigger] queue@.take(k).contains(u) by {
            assert(stamp_ok(edges@, queue@, k, stamps[k]));
        }
    }
    while head < queue.len()
        invariant
            head <= queue@.len(),
            succ.len() == n,
            indeg.len() == n,
            edges_in_range(n as int, edges@),
            forall|u: usize| u < n ==> (#[trigger] succ@[u as int])@ == successors(edges@, u),
            queue@.no_duplicates(),
            forall|k: int| 0 <= k < queue@.len() ==> #[trigger] queue@[k] < n,
            forall|v: usize| v < n ==> #[trigger] indeg@[v as int] == waiting(
                edges@,
                queue@.take(head as int).to_set(),
                v,
            ),
            forall|v: usize| v < n ==> (#[trigger] queue@.contains(v) <==> indeg@[v as int] == 0),
            topological(edges@, queue@),
            stamped(edges@, queue@, stamps),
            forall|k: int| 0 <= k < queue@.len() ==> (#[trigger] stamps[k]).0 < head,
        decreases n - head,
    {
        let u: usize = queue[head];
        let ghost done = queue@.take(head as int).to_set();
        let ghost now = done.insert(u);
        let ghost out = successors(edges@, u);
        proof {
            lemma_distinct_below(queue@, n as nat);
            assert(!done.contains(u)) by {
                if done.contains(u) {
                    let a = choose|a: int|
                        0 <= a < queue@.take(head as int).len() && queue@.take(head as int)[a] == u;
                    assert(queue@[a] == queue@[head as int]);
                }
            }
            assert forall|v: usize| v < n implies #[trigger] indeg@[v as int] == waiting(
                edges@,
                now,
                v,
            ) + times(out.skip(0), v) by {
                lemma_waiting_insert(edges@, done, u, v);
                assert(out.skip(0) =~= out);
            }
            assert(succ@[u as int]@ == out);
        }
        let mut j: usize = 0;
        while j < succ[u].len()
            invariant
                head < queue@.len(),
                j <= out.len(),
                u < n,
                u == queue@[head as int],
                out == successors(edges@, u),
                now == queue@.take(head as int).to_set().insert(u),
                succ.len() == n,
                indeg.len() == n,
                edges_in_range(n as int, edges@),
                succ@[u as int]@ == out,
                forall|w: usize| w < n ==> (#[trigger] succ@[w as int])@ == successors(edges@, w),
                queue@.no_duplicates(),
                forall|k: int| 0 <= k < queue@.len() ==> #[trigger] queue@[k] < n,
                forall|v: usize| v < n ==> #[trigger] indeg@[v as int] == waiting(edges@, now, v)
                    + times(out.skip(j as int), v),
                forall|v: usize|
                    v < n ==> (#[trigger] queue@.contains(v) <==> indeg@[v as int] == 0),
                topological(edges@, queue@),
                stamped(edges@, queue@, stamps),
                forall|k: int|
                    0 <= k < queue@.len() ==> place_before(
                        (#[trigger] stamps[k]).0,
                        stamps[k].1,
                        head as int,
                        j as int,
                    ),
            decreases out.len() - j,
        {
            let v: usize = succ[u][j];
            let ghost before = indeg@;
            let ghost q = queue@;
            proof {
                assert(out[j as int] == v);
                lemma_successors(edges@, u);
                assert(edges@.contains((u, out[j as int])));
                let e = choose|e: int| 0 <= e < edges@.len() && edges@[e] == (u, v);
                assert(edges@[e].1 < n);
                let s = out.skip(j as int);
                assert(s.drop_first() =~= out.skip(j + 1));
                assert(s[0] == v);
                assert(before[v as int] == waiting(edges@, now, v) + times(s, v));
            }
            let d: usize = indeg[v] - 1;
            indeg.set(v, d);
            proof {
                let s = out.skip(j as int);
                assert forall|w: usize| w < n implies #[trigger] indeg@[w as int] == waiting(
                    edges@,
                    now,
                    w,
                ) + times(out.skip(j + 1), w) by {
                    assert(before[w as int] == waiting(edges@, now, w) + times(s, w));
                    assert(s.drop_first() =~= out.skip(j + 1));
                }
                assert(!q.contains(v));
            }
            if d == 0 {
                queue.push(v);
                proof {
                    assert(queue@.take(head as int) =~= q.take(head as int));
                    lemma_release(edges@, q, head as int, j as int, v);
                    let t = stamps.push((head as int, j as int));
                    assert forall|k: int| 0 <= k < queue@.len() implies #[trigger] stamp_ok(
                        edges@,
                        queue@,
                        k,
                        t[k],
                    ) by {
                        if k < q.len() {
                            assert(stamp_ok(edges@, q, k, stamps[k]));
                            lemma_stamp_push(edges@, q, k, stamps[k], v);
                        }
                    }
                    assert forall|w: usize| w < n implies (#[trigger] queue@.contains(w)
                        <==> indeg@[w as int] == 0) by {
                        assert(q.contains(w) <==> before[w as int] == 0);
                        if w == v {
                            assert(queue@[q.len() as int] == v);
                        } else if q.contains(w) {
                            let k = choose|k: int| 0 <= k < q.len() && q[k] == w;
                            assert(queue@[k] == w);
                        }
                    }
                    assert forall|k: int, w: usize| 0 <= k < queue@.len() && edges@.contains(
                        (w, #[trigger] queue@[k]),
                    ) implies #[trigger] queue@.take(k).contains(w) by {
                        if k < q.len() {
                            assert(q[k] == queue@[k]);
                            assert(queue@.take(k) =~= q.take(k));
                            assert(q.take(k).contains(w));
                        } else {
                            assert(queue@.take(head + 1).contains(w));
                            let read = queue@.take(head + 1);
                            let a = choose|a: int| 0 <= a < read.len() && read[a] == w;
                            assert(queue@.take(k)[a] == w);
                        }
                    }
                    stamps = t;
                }
            } else {
                assert forall|w: usize| w < n implies (#[trigger] queue@.contains(w)
                    <==> indeg@[w as int] == 0) by {
                    assert(q.contains(w) <==> before[w as int] == 0);
                }
            }
            j += 1;
        }
        proof {
            assert(out.skip(j as int) =~= Seq::empty());
            assert(queue@.take(head + 1).to_set() =~= now) by {
                let t = queue@.take(head + 1);
                assert(t =~= queue@.take(head as int).push(u));
                broadcast use vstd::seq_lib::group_seq_properties;
            }
        }
        head += 1;
    }
    proof {
        let order = queue@;
        assert(order.take(head as int) =~= order);
        assert forall|v: usize| v < n && #[trigger] freed(edges@, order, v) implies order.contains(
            v,
        ) by {
            lemma_waiting_zero(edges@, order.to_set(), v);
            assert(waiting(edges@, order.to_set(), v) == 0);
            assert(indeg@[v as int] == 0);
        }
        assert forall|a: int, k: int| 0 <= a < k < order.len() implies served_before(
            edges@,
            order,
            #[trigger] order[a],
            #[trigger] order[k],
        ) by {
            lemma_served(edges@, order, stamps, a, k);
        }
        if acyclic(edges@) {
            assert forall|v: usize| v < n implies #[trigger] order.contains(v) by {
                lemma_acyclic_complete(n as nat, edges@, order, v);
            }
        }
    }
    queue
}

/// A node whose last edge has just been read is released there.
proof fn lemma_release(edges: Seq<(usize, usize)>, q: Seq<usize>, head: int, j: int, v: usize)
    requires
        0 <= head < q.len(),
        0 <= j < successors(edges, q[head]).len(),
        successors(edges, q[head])[j] == v,
        waiting(edges, q.take(head).to_set().insert(q[head]), v) + times(
            successors(edges, q[head]).skip(j + 1),
            v,
        ) == 0,
    ensures
        stamp_ok(edges, q.push(v), q.len() as int, (head, j)),
{
    let u = q[head];
    let out = successors(edges, u);
    let after = q.push(v);
    assert(after[head] == u);
    lemma_waiting_zero(edges, q.take(head).to_set().insert(u), v);
    lemma_times_zero(out.skip(j + 1), v);
    assert forall|w: usize| #[trigger] edges.contains((w, v)) implies after.take(
        head + 1,
    ).contains(w) by {
        if w == u {
            assert(after.take(head + 1)[head] == u);
        } else {
            assert(q.take(head).contains(w));
            let a = choose|a: int| 0 <= a < q.take(head).len() && q.take(head)[a] == w;
            assert(after.take(head + 1)[a] == w);
        }
    }
    assert forall|l: int| j < l < out.len() implies #[trigger] out[l] != v by {
        assert(out.skip(j + 1)[l - j - 1] == out[l]);
    }
}

/// The number of edges that lead to each node.
fn in_degrees(n: usize, edges: &Vec<(usize, usize)>) -> (indeg: Vec<usize>)
    requires
        edges_in_range(n as int, edges@),
    ensures
        indeg.len() == n,
        forall|v: usize| v < n ==> #[trigger] indeg@[v as int] == waiting(edges@, Set::empty(), v),
{
    let mut indeg: Vec<usize> = Vec::new();
    let mut i: usize = 0;
    while i < n
        invariant
            i <= n,
            indeg.len() == i,
            forall|v: int| 0 <= v < i ==> #[trigger] indeg@[v] == 0,
        decreases n - i,
    {
        indeg.push(0);
        i += 1;
    }
    let mut k: usize = 0;
    assert(edges@.take(0) =~= Seq::empty());
    while k < edges.len()
        invariant
            k <= edges.len(),
            edges_in_range(n as int, edges@),
            indeg.len() == n,
            forall|v: usize| v < n ==> #[trigger] indeg@[v as int] == waiting(
                edges@.take(k as int),
                Set::empty(),
                v,
            ),
            forall|v: int| 0 <= v < n ==> #[trigger] indeg@[v] <= k,
        decreases edges.len() - k,
    {
        let v: usize = edges[k].1;
        assert(edges@.take(k + 1).drop_last() =~= edges@.take(k as int));
        let d: usize = indeg[v] + 1;
        indeg.set(v, d);
        k += 1;
    }
    assert(edges@.take(edges.len() as int) =~= edges@);
    indeg
}

} // verus!
