//! Which edges the depth-first search drops, along its first descent.

use vstd::prelude::*;

use crate::cycles::{
    all_successors, finish, in_bounds, law_back_edges_break_cycles, lemma_step, rooted,
    search_back_edges, searched, step, without, Search, DONE, ON_STACK, UNVISITED,
};
use crate::dag::{
    acyclic, edges_in_range, follows_edge, is_walk, lemma_successors, successors,
};
use crate::sort_laws::law_successors_are_in_edge_order;

verus! {

/// The edge from the `i`-th node of the path to the next one is the first that leaves it to a node
/// not on the path so far.
pub open spec fn goes_on(edges: Seq<(usize, usize)>, path: Seq<usize>, i: int) -> bool {
    &&& !path.take(i + 1).contains(path[i + 1])
    &&& exists|e: int|
        {
            &&& 0 <= e < edges.len()
            &&& #[trigger] edges[e] == (path[i], path[i + 1])
            &&& forall|d: int|
                0 <= d < e && (#[trigger] edges[d]).0 == path[i] ==> path.take(i + 1).contains(
                    edges[d].1,
                )
        }
}

/// The path begins at the first node, and always goes on along the first edge to a new node.
pub open spec fn is_first_descent(edges: Seq<(usize, usize)>, path: Seq<usize>) -> bool {
    &&& path.len() > 0
    &&& path[0] == 0
    &&& forall|i: int| 0 <= i < path.len() - 1 ==> #[trigger] goes_on(edges, path, i)
}

/// The same of the lists of successors.
spec fn steps_on(succ: Seq<Seq<usize>>, path: Seq<usize>, i: int, j: int) -> bool {
    &&& 0 <= j < succ[path[i] as int].len()
    &&& succ[path[i] as int][j] == path[i + 1]
    &&& !path.take(i + 1).contains(path[i + 1])
    &&& forall|l: int|
        0 <= l < j ==> path.take(i + 1).contains(#[trigger] succ[path[i] as int][l])
}

/// At some successor the `i`-th node of the path goes on.
spec fn steps(succ: Seq<Seq<usize>>, path: Seq<usize>, i: int) -> bool {
    exists|j: int| steps_on(succ, path, i, j)
}

/// Every node of the path but the last goes on.
spec fn descends(succ: Seq<Seq<usize>>, path: Seq<usize>) -> bool {
    &&& path.len() > 0
    &&& succ.len() <= usize::MAX
    &&& forall|i: int| 0 <= i < path.len() ==> #[trigger] path[i] < succ.len()
    &&& forall|i: int|
        0 <= i < path.len() - 1 ==> #[trigger] steps(succ, path, i)
}

/// A back edge that leaves a node of the path leads to it or to a node before it on the path.
spec fn back_along(path: Seq<usize>, back: Set<(usize, usize)>) -> bool {
    forall|i: int, v: usize|
        #![trigger path[i], back.contains((path[i], v))]
        0 <= i < path.len() && back.contains((path[i], v)) ==> path.take(i + 1).contains(v)
}

/// The first `m` nodes of the path are on the stack, and no other node was visited.
spec fn is_descending(succ: Seq<Seq<usize>>, path: Seq<usize>, s: Search, m: int) -> bool {
    &&& in_bounds(succ, s)
    &&& 1 <= m <= path.len()
    &&& s.stack.len() == m
    &&& forall|k: int| 0 <= k < m ==> (#[trigger] s.stack[k]).0 == path[k]
    &&& forall|w: int|
        0 <= w < s.color.len() ==> #[trigger] s.color[w] == if path.take(m).contains(w as usize) {
            ON_STACK
        } else {
            UNVISITED
        }
    &&& forall|l: int|
        0 <= l < s.stack[m - 1].1 ==> path.take(m).contains(
            #[trigger] succ[path[m - 1] as int][l],
        )
    &&& back_along(path, s.back)
}

/// Every node of the path is at its place on the stack, or done.
spec fn has_descended(succ: Seq<Seq<usize>>, path: Seq<usize>, s: Search) -> bool {
    &&& in_bounds(succ, s)
    &&& forall|k: int| 0 <= k < s.stack.len() ==> s.color[(#[trigger] s.stack[k]).0 as int] == ON_STACK
    &&& forall|i: int, j: int|
        0 <= i < j < s.stack.len() ==> (#[trigger] s.stack[i]).0 != (#[trigger] s.stack[j]).0
    &&& forall|v: usize|
        v < s.color.len() && #[trigger] s.color[v as int] == ON_STACK ==> is_on(s.stack, v)
    &&& forall|i: int|
        0 <= i < path.len() ==> s.color[#[trigger] path[i] as int] == DONE || (i < s.stack.len()
            && s.stack[i].0 == path[i])
    &&& forall|k: int, i: int|
        0 <= k < i < path.len() && s.color[#[trigger] path[k] as int] == DONE
            ==> s.color[#[trigger] path[i] as int] == DONE
    &&& back_along(path, s.back)
}

spec fn is_on(stack: Seq<(usize, usize)>, v: usize) -> bool {
    exists|k: int| 0 <= k < stack.len() && (#[trigger] stack[k]).0 == v
}

/// No node occurs twice on the path.
proof fn lemma_distinct(succ: Seq<Seq<usize>>, path: Seq<usize>, i: int, j: int)
    requires
        descends(succ, path),
        0 <= i < j < path.len(),
    ensures
        path[i] != path[j],
{
    let h = j - 1;
    assert(steps(succ, path, h));
    let l = choose|l: int| steps_on(succ, path, h, l);
    assert(steps_on(succ, path, h, l));
    assert(!path.take(j).contains(path[j]));
    assert(path.take(j)[i] == path[i]);
}

/// Once the path is on the stack, a step keeps its nodes there until they are done.
proof fn lemma_descended_step(succ: Seq<Seq<usize>>, path: Seq<usize>, s: Search)
    requires
        descends(succ, path),
        has_descended(succ, path, s),
        s.stack.len() > 0,
    ensures
        has_descended(succ, path, step(succ, s)),
{
    lemma_step(succ, s);
    let t = step(succ, s);
    let top = s.stack.len() - 1;
    let (u, seen) = s.stack.last();
    assert(s.stack[top] == (u, seen));
    assert(s.color[u as int] == ON_STACK);
    assert forall|k: int| 0 <= k < top implies t.stack[k] == s.stack[k] by {}
    if seen < succ[u as int].len() {
        let v = succ[u as int][seen as int];
        assert(t.stack[top] == (u, (seen + 1) as usize));
        let pushed = s.color[v as int] == UNVISITED;
        assert forall|k: int| 0 <= k < t.stack.len() implies t.color[(
        #[trigger] t.stack[k]).0 as int] == ON_STACK by {
            if k <= top {
                assert(s.color[s.stack[k].0 as int] == ON_STACK);
            }
        }
        assert forall|i: int, j: int| 0 <= i < j < t.stack.len() implies (
        #[trigger] t.stack[i]).0 != (#[trigger] t.stack[j]).0 by {
            assert(s.stack[i].0 == t.stack[i].0);
            assert(s.color[s.stack[i].0 as int] == ON_STACK);
            if j <= top {
                assert(s.stack[j].0 == t.stack[j].0);
            }
        }
        assert forall|w: usize|
            w < t.color.len() && #[trigger] t.color[w as int] == ON_STACK implies is_on(
            t.stack,
            w,
        ) by {
            if pushed && w == v {
                assert(t.stack[top + 1].0 == w);
            } else {
                assert(is_on(s.stack, w));
                let k = choose|k: int| 0 <= k < s.stack.len() && (#[trigger] s.stack[k]).0 == w;
                assert(t.stack[k].0 == w);
            }
        }
        assert forall|i: int| 0 <= i < path.len() implies t.color[#[trigger] path[i] as int] == DONE
            || (i < t.stack.len() && t.stack[i].0 == path[i]) by {
            if s.color[path[i] as int] != DONE {
                assert(s.stack[i].0 == path[i]);
                assert(t.stack[i].0 == path[i]);
            }
        }
        assert forall|k: int, i: int|
            0 <= k < i < path.len() && t.color[#[trigger] path[k] as int]
                == DONE implies t.color[#[trigger] path[i] as int] == DONE by {
            assert(s.color[path[k] as int] == DONE);
            assert(s.color[path[i] as int] == DONE);
        }
        assert forall|i: int, w: usize|
            #![trigger path[i], t.back.contains((path[i], w))]
            0 <= i < path.len() && t.back.contains((path[i], w)) implies path.take(i + 1).contains(
            w,
        ) by {
            if !s.back.contains((path[i], w)) {
                assert(path[i] == u && w == v);
                assert(s.color[v as int] == ON_STACK);
                assert(s.color[path[i] as int] != DONE);
                assert(s.stack[i].0 == path[i]);
                assert(i == top) by {
                    if i < top {
                        assert(s.stack[i].0 != s.stack[top].0);
                    }
                }
                assert(is_on(s.stack, v));
                let k = choose|k: int| 0 <= k < s.stack.len() && (#[trigger] s.stack[k]).0 == v;
                lemma_stack_is_path(succ, path, s, top);
                assert(s.stack[k].0 == path[k]);
                assert(path.take(i + 1)[k] == v);
            } else {
                assert(path.take(i + 1).contains(w));
            }
        }
    } else {
        assert forall|k: int| 0 <= k < t.stack.len() implies t.color[(
        #[trigger] t.stack[k]).0 as int] == ON_STACK by {
            assert(s.stack[k].0 != s.stack[top].0);
            assert(s.color[s.stack[k].0 as int] == ON_STACK);
        }
        assert forall|i: int, j: int| 0 <= i < j < t.stack.len() implies (
        #[trigger] t.stack[i]).0 != (#[trigger] t.stack[j]).0 by {
            assert(s.stack[i].0 != s.stack[j].0);
        }
        assert forall|w: usize|
            w < t.color.len() && #[trigger] t.color[w as int] == ON_STACK implies is_on(
            t.stack,
            w,
        ) by {
            assert(is_on(s.stack, w));
            let k = choose|k: int| 0 <= k < s.stack.len() && (#[trigger] s.stack[k]).0 == w;
            assert(k < top);
            assert(t.stack[k].0 == w);
        }
        assert forall|i: int| 0 <= i < path.len() implies t.color[#[trigger] path[i] as int] == DONE
            || (i < t.stack.len() && t.stack[i].0 == path[i]) by {
            if s.color[path[i] as int] != DONE {
                assert(s.stack[i].0 == path[i]);
                if i < top {
                    assert(t.stack[i].0 == path[i]);
                }
            }
        }
        assert forall|k: int, i: int|
            0 <= k < i < path.len() && t.color[#[trigger] path[k] as int]
                == DONE implies t.color[#[trigger] path[i] as int] == DONE by {
            if s.color[path[k] as int] == DONE {
                assert(s.color[path[i] as int] == DONE);
            } else {
                assert(path[k] == u);
                assert(s.stack[k].0 == path[k]);
                assert(k == top) by {
                    if k < top {
                        assert(s.stack[k].0 != s.stack[top].0);
                    }
                }
            }
        }
    }
}

/// Below a node of the path that is on the stack are the nodes before it on the path.
proof fn lemma_stack_is_path(succ: Seq<Seq<usize>>, path: Seq<usize>, s: Search, i: int)
    requires
        descends(succ, path),
        has_descended(succ, path, s),
        0 <= i < s.stack.len(),
        i < path.len(),
        s.stack[i].0 == path[i],
    ensures
        forall|k: int| 0 <= k <= i ==> (#[trigger] s.stack[k]).0 == path[k],
{
    assert(s.color[s.stack[i].0 as int] == ON_STACK);
    assert forall|k: int| 0 <= k <= i implies (#[trigger] s.stack[k]).0 == path[k] by {
        if k < i && s.color[path[k] as int] == DONE {
            assert(s.color[path[i] as int] == DONE);
        }
    }
}

/// Once the path is on the stack, its nodes are done when the search is finished.
proof fn lemma_descended_finish(succ: Seq<Seq<usize>>, path: Seq<usize>, s: Search)
    requires
        descends(succ, path),
        has_descended(succ, path, s),
    ensures
        has_descended(succ, path, finish(succ, s)),
        finish(succ, s).stack.len() == 0,
    decreases
            crate::cycles::unvisited(s.color),
            crate::cycles::pending(succ, s.stack),
{
    if s.stack.len() > 0 {
        lemma_step(succ, s);
        lemma_descended_step(succ, path, s);
        lemma_descended_finish(succ, path, step(succ, s));
    }
}

/// The search follows the path down and then finishes.
proof fn lemma_descends(
    succ: Seq<Seq<usize>>,
    path: Seq<usize>,
    s: Search,
    m: int,
)
    requires
        descends(succ, path),
        is_descending(succ, path, s, m),
    ensures
        has_descended(succ, path, finish(succ, s)),
        finish(succ, s).stack.len() == 0,
    decreases path.len() - m, succ[path[m - 1] as int].len() - s.stack[m - 1].1,
{
    let u = path[m - 1];
    let seen = s.stack[m - 1].1;
    assert(s.stack.last() == (u, seen));
    if m == path.len() {
        assert(path.take(m) =~= path);
        assert forall|k: int| 0 <= k < s.stack.len() implies s.color[(
        #[trigger] s.stack[k]).0 as int] == ON_STACK by {
            assert(path.take(m)[k] == path[k]);
        }
        assert forall|i: int, j: int| 0 <= i < j < s.stack.len() implies (
        #[trigger] s.stack[i]).0 != (#[trigger] s.stack[j]).0 by {
            lemma_distinct(succ, path, i, j);
        }
        assert forall|v: usize|
            v < s.color.len() && #[trigger] s.color[v as int] == ON_STACK implies is_on(
            s.stack,
            v,
        ) by {
            assert(path.take(m).contains(v));
            let k = choose|k: int| 0 <= k < path.len() && path[k] == v;
            assert(s.stack[k].0 == v);
        }
        assert forall|i: int| 0 <= i < path.len() implies s.color[#[trigger] path[i] as int]
            == ON_STACK && s.stack[i].0 == path[i] by {
            assert(s.stack[i].0 == path[i]);
            assert(path.take(m).contains(path[i]));
        }
        lemma_descended_finish(succ, path, s);
    } else {
        let top = m - 1;
        assert(steps(succ, path, top));
        let j = choose|j: int| steps_on(succ, path, top, j);
        assert(steps_on(succ, path, top, j));
        assert(path.take((m - 1) + 1) =~= path.take(m));
        assert(seen <= j) by {
            if seen > j {
                assert(path.take(m).contains(succ[path[m - 1] as int][j]));
            }
        }
        lemma_step(succ, s);
        let t = step(succ, s);
        let v = succ[u as int][seen as int];
        assert(v < succ.len());
        assert(s.color[v as int] == if path.take(m).contains(v) {
            ON_STACK
        } else {
            UNVISITED
        });
        assert forall|k: int| 0 <= k < m - 1 implies t.stack[k] == s.stack[k] by {}
        assert(t.stack[m - 1] == (u, (seen + 1) as usize));
        if seen < j {
            assert(path.take(m).contains(v));
            assert forall|k: int| 0 <= k < m implies (#[trigger] t.stack[k]).0 == path[k] by {
                assert(s.stack[k].0 == path[k]);
            }
            assert forall|l: int| 0 <= l < t.stack[m - 1].1 implies path.take(m).contains(
                #[trigger] succ[path[m - 1] as int][l],
            ) by {}
            assert forall|i: int, w: usize|
                #![trigger path[i], t.back.contains((path[i], w))]
                0 <= i < path.len() && t.back.contains((path[i], w)) implies path.take(
                i + 1,
            ).contains(w) by {
                if !s.back.contains((path[i], w)) {
                    assert(path[i] == u && w == v);
                    if i < m - 1 {
                        lemma_distinct(succ, path, i, m - 1);
                    } else if i > m - 1 {
                        lemma_distinct(succ, path, m - 1, i);
                    }
                } else {
                    assert(path.take(i + 1).contains(w));
                }
            }
            assert(is_descending(succ, path, t, m));
            lemma_descends(succ, path, t, m);
        } else {
            assert(v == path[m]);
            assert(t.stack[m] == (v, 0usize));
            assert forall|k: int| 0 <= k < m + 1 implies (#[trigger] t.stack[k]).0 == path[k] by {
                if k < m {
                    assert(s.stack[k].0 == path[k]);
                }
            }
            assert forall|w: int| 0 <= w < t.color.len() implies #[trigger] t.color[w]
                == if path.take(m + 1).contains(w as usize) {
                ON_STACK
            } else {
                UNVISITED
            } by {
                assert(path.take(m + 1) =~= path.take(m).push(path[m]));
                let x = w as usize;
                if path.take(m).contains(x) {
                    let k = choose|k: int| 0 <= k < m && path.take(m)[k] == x;
                    assert(path.take(m + 1)[k] == x);
                }
                if path.take(m + 1).contains(x) {
                    let now = path.take(m + 1);
                    let k = choose|k: int| 0 <= k < now.len() && now[k] == x;
                    if k < m {
                        assert(path.take(m)[k] == x);
                    }
                }
                assert(path.take(m + 1)[m] == path[m]);
            }
            assert(is_descending(succ, path, t, m + 1));
            lemma_descends(succ, path, t, m + 1);
        }
    }
}

/// After the first root, the nodes of the path are done and stay so.
proof fn lemma_searched(succ: Seq<Seq<usize>>, path: Seq<usize>, k: nat)
    requires
        descends(succ, path),
        path[0] == 0,
        1 <= k <= succ.len(),
        in_bounds(succ, searched(succ, 0)),
    ensures
        has_descended(succ, path, searched(succ, k)),
        searched(succ, k).stack.len() == 0,
    decreases k,
{
    let s = searched(succ, (k - 1) as nat);
    let root = (k - 1) as usize;
    let r = rooted(s, root);
    if k == 1 {
        assert(s.color[0] == UNVISITED);
        assert(path.take(1) =~= seq![0usize]);
        assert forall|w: int| 0 <= w < r.color.len() implies #[trigger] r.color[w]
            == if path.take(1).contains(w as usize) {
            ON_STACK
        } else {
            UNVISITED
        } by {
            assert(seq![0usize][0] == 0);
        }
        assert(in_bounds(succ, r));
        assert(is_descending(succ, path, r, 1));
        lemma_descends(succ, path, r, 1);
    } else {
        lemma_searched(succ, path, (k - 1) as nat);
        if s.color[k - 1] == UNVISITED {
            assert forall|i: int| 0 <= i < path.len() implies r.color[#[trigger] path[i] as int]
                == DONE by {
                assert(s.color[path[i] as int] == DONE);
            }
            assert forall|v: usize|
                v < r.color.len() && #[trigger] r.color[v as int] == ON_STACK implies is_on(
                r.stack,
                v,
            ) by {
                if v != root {
                    assert(is_on(s.stack, v));
                }
                assert(r.stack[0].0 == root);
            }
            assert(has_descended(succ, path, r));
            lemma_descended_finish(succ, path, r);
        }
    }
}

/// The search begins at the first node and always goes on along the first edge to a new node: an
/// edge that leaves a node of this first descent is dropped exactly if it leads to that node itself
/// or back to one before it.
pub proof fn law_first_descent_drops_what_leads_back(
    n: nat,
    edges: Seq<(usize, usize)>,
    path: Seq<usize>,
    i: int,
    v: usize,
)
    requires
        0 < n <= usize::MAX,
        edges.len() <= usize::MAX,
        edges_in_range(n as int, edges),
        is_first_descent(edges, path),
        0 <= i < path.len(),
        edges.contains((path[i], v)),
    ensures
        search_back_edges(n, edges).contains((path[i], v)) <==> path.take(i + 1).contains(v),
{
    let succ = all_successors(n, edges);
    let back = search_back_edges(n, edges);
    lemma_descent_of_lists(n, edges, path);
    assert(in_bounds(succ, searched(succ, 0))) by {
        assert forall|u: int| 0 <= u < succ.len() implies (#[trigger] succ[u]).len()
            <= usize::MAX by {
            lemma_few_successors(edges, u as usize);
        }
        assert forall|u: int, j: int|
            0 <= u < succ.len() && 0 <= j < succ[u].len() implies #[trigger] succ[u][j]
            < succ.len() by {
            lemma_successors(edges, u as usize);
            assert(edges.contains((u as usize, succ[u][j])));
            let e = choose|e: int| 0 <= e < edges.len() && edges[e] == (u as usize, succ[u][j]);
            assert(edges[e].1 < n);
        }
    }
    lemma_searched(succ, path, n);
    if back.contains((path[i], v)) {
        assert(back_along(path, back));
    }
    if path.take(i + 1).contains(v) && !back.contains((path[i], v)) {
        law_back_edges_break_cycles(n, edges);
        let kept = without(edges, back);
        let keep = |e: (usize, usize)| !back.contains(e);
        let upto = path.take(i + 1);
        let j = choose|j: int| 0 <= j < upto.len() && upto[j] == v;
        let walk = path.subrange(j, i + 1).push(v);
        assert forall|k: int| 0 <= k < walk.len() - 1 implies #[trigger] follows_edge(
            kept,
            walk,
            k,
        ) by {
            let e = (walk[k], walk[k + 1]);
            if k < walk.len() - 2 {
                assert(walk[k] == path[j + k] && walk[k + 1] == path[j + k + 1]);
                assert(goes_on(edges, path, j + k));
                assert(!back.contains((path[j + k], path[j + k + 1])));
            } else {
                assert(walk[k] == path[i] && walk[k + 1] == v);
            }
            assert(edges.contains(e));
            let d = choose|d: int| 0 <= d < edges.len() && edges[d] == e;
            edges.lemma_filter_contains(keep, d);
        }
        assert(is_walk(kept, walk));
        assert(walk.first() == v && walk.last() == v);
        assert(acyclic(kept));
    }
}

/// There are no more successors than edges.
proof fn lemma_few_successors(edges: Seq<(usize, usize)>, u: usize)
    ensures
        successors(edges, u).len() <= edges.len(),
    decreases edges.len(),
{
    if edges.len() > 0 {
        lemma_few_successors(edges.drop_last(), u);
    }
}

/// A first descent along the edges is one along the lists of successors.
proof fn lemma_descent_of_lists(n: nat, edges: Seq<(usize, usize)>, path: Seq<usize>)
    requires
        0 < n <= usize::MAX,
        edges_in_range(n as int, edges),
        is_first_descent(edges, path),
    ensures
        descends(all_successors(n, edges), path),
{
    let succ = all_successors(n, edges);
    assert forall|i: int| 0 <= i < path.len() implies #[trigger] path[i] < succ.len() by {
        if i > 0 {
            assert(goes_on(edges, path, i - 1));
            let e = choose|e: int|
                {
                    &&& 0 <= e < edges.len()
                    &&& #[trigger] edges[e] == (path[i - 1], path[i])
                    &&& forall|d: int|
                        0 <= d < e && (#[trigger] edges[d]).0 == path[i - 1] ==> path.take(
                            i,
                        ).contains(edges[d].1)
                };
            assert(edges[e].1 < n);
        }
    }
    assert forall|i: int| 0 <= i < path.len() - 1 implies #[trigger] steps(
        succ,
        path,
        i,
    ) by {
        assert(goes_on(edges, path, i));
        let u = path[i];
        let e = choose|e: int|
            {
                &&& 0 <= e < edges.len()
                &&& #[trigger] edges[e] == (path[i], path[i + 1])
                &&& forall|d: int|
                    0 <= d < e && (#[trigger] edges[d]).0 == path[i] ==> path.take(
                        i + 1,
                    ).contains(edges[d].1)
            };
        let from = law_successors_are_in_edge_order(edges, u);
        assert(succ[u as int] == successors(edges, u));
        assert(from.contains(e));
        let j = choose|j: int| 0 <= j < from.len() && from[j] == e;
        assert forall|l: int| 0 <= l < j implies path.take(i + 1).contains(
            #[trigger] succ[path[i] as int][l],
        ) by {
            assert(from[l] < from[j]);
            assert(edges[from[l]] == (u, successors(edges, u)[l]));
        }
        assert(steps_on(succ, path, i, j));
    }
}

} // verus!
