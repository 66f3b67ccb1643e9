//! Breaking cycles: the back edges of a depth-first search.

use vstd::prelude::*;

use crate::dag::{
    acyclic, edges_in_range, follows_edge, is_walk, lemma_ranked_is_acyclic, lemma_successors, successor_lists,
    successors,
};

verus! {

/// A node that the search has not reached.
pub const UNVISITED: u8 = 0;

/// A node whose successors are being visited.
pub const ON_STACK: u8 = 1;

/// A node whose successors have all been visited.
pub const DONE: u8 = 2;

/// The state of a depth-first search: the color of each node, the path from the root of the
/// search to the current node, each with the number of its successors seen so far, and the edges
/// found to lead back onto the path.
pub struct Search {
    pub color: Seq<u8>,
    pub stack: Seq<(usize, usize)>,
    pub back: Set<(usize, usize)>,
}

/// The number of nodes that the search has not reached.
pub open spec fn unvisited(color: Seq<u8>) -> nat
    decreases color.len(),
{
    if color.len() == 0 {
        0
    } else {
        unvisited(color.drop_last()) + if color.last() == UNVISITED {
            1nat
        } else {
            0
        }
    }
}

/// The number of steps that the nodes on the path still need for themselves.
pub open spec fn pending(succ: Seq<Seq<usize>>, stack: Seq<(usize, usize)>) -> nat
    decreases stack.len(),
{
    if stack.len() == 0 {
        0
    } else {
        let (u, seen) = stack.last();
        pending(succ, stack.drop_last()) + ((succ[u as int].len() - seen) as nat) + 1
    }
}

/// The state refers to nodes and successors that exist.
pub open spec fn in_bounds(succ: Seq<Seq<usize>>, s: Search) -> bool {
    &&& s.color.len() == succ.len()
    &&& forall|u: int| 0 <= u < s.color.len() ==> #[trigger] s.color[u] <= DONE
    &&& forall|u: int| 0 <= u < succ.len() ==> (#[trigger] succ[u]).len() <= usize::MAX
    &&& forall|u: int, j: int|
        0 <= u < succ.len() && 0 <= j < succ[u].len() ==> #[trigger] succ[u][j] < succ.len()
    &&& forall|k: int|
        0 <= k < s.stack.len() ==> (#[trigger] s.stack[k]).0 < succ.len() && s.stack[k].1
            <= succ[s.stack[k].0 as int].len()
}

/// One step: look at the next successor of the node at the end of the path, or leave that node
/// when there is none. An unvisited successor extends the path; one on the path closes a cycle.
pub open spec fn step(succ: Seq<Seq<usize>>, s: Search) -> Search {
    let (u, seen) = s.stack.last();
    let path = s.stack.drop_last();
    if seen < succ[u as int].len() {
        let v = succ[u as int][seen as int];
        let moved = path.push((u, (seen + 1) as usize));
        if s.color[v as int] == UNVISITED {
            Search {
                color: s.color.update(v as int, ON_STACK),
                stack: moved.push((v, 0)),
                back: s.back,
            }
        } else if s.color[v as int] == ON_STACK {
            Search { color: s.color, stack: moved, back: s.back.insert((u, v)) }
        } else {
            Search { color: s.color, stack: moved, back: s.back }
        }
    } else {
        Search { color: s.color.update(u as int, DONE), stack: path, back: s.back }
    }
}

/// The search carried on until the path is empty.
pub open spec fn finish(succ: Seq<Seq<usize>>, s: Search) -> Search
    decreases unvisited(s.color), pending(succ, s.stack),
    when in_bounds(succ, s)
{
    if s.stack.len() == 0 {
        s
    } else {
        proof {
            lemma_step(succ, s);
        }
        finish(succ, step(succ, s))
    }
}

/// The state after the nodes `0..k` have been tried as roots, in that order.
pub open spec fn searched(succ: Seq<Seq<usize>>, k: nat) -> Search
    decreases k,
{
    if k == 0 {
        Search {
            color: Seq::new(succ.len(), |i: int| UNVISITED),
            stack: Seq::empty(),
            back: Set::empty(),
        }
    } else {
        let s = searched(succ, (k - 1) as nat);
        if s.color[k - 1] != UNVISITED {
            s
        } else {
            finish(succ, rooted(s, (k - 1) as usize))
        }
    }
}

/// The state in which the search starts from the unvisited node `root`.
pub open spec fn rooted(s: Search, root: usize) -> Search {
    Search {
        color: s.color.update(root as int, ON_STACK),
        stack: seq![(root, 0usize)],
        back: s.back,
    }
}

/// The successor lists of the nodes `0..n`.
pub open spec fn all_successors(n: nat, edges: Seq<(usize, usize)>) -> Seq<Seq<usize>> {
    Seq::new(n, |u: int| successors(edges, u as usize))
}

/// The edges that lead back onto the path of a depth-first search, which tries the nodes `0..n`
/// as roots in order, and the successors of each node in edge order.
pub open spec fn search_back_edges(n: nat, edges: Seq<(usize, usize)>) -> Set<(usize, usize)> {
    searched(all_successors(n, edges), n).back
}

/// The edges of `edges` that are not in `dropped`, in order.
pub open spec fn without(edges: Seq<(usize, usize)>, dropped: Set<(usize, usize)>) -> Seq<
    (usize, usize),
> {
    edges.filter(|e: (usize, usize)| !dropped.contains(e))
}

proof fn lemma_unvisited_update(color: Seq<u8>, v: int, c: u8)
    requires
        0 <= v < color.len(),
        c != UNVISITED,
    ensures
        color[v] == UNVISITED ==> unvisited(color.update(v, c)) + 1 == unvisited(color),
        color[v] != UNVISITED ==> unvisited(color.update(v, c)) == unvisited(color),
    decreases color.len(),
{
    let after = color.update(v, c);
    if v == color.len() - 1 {
        assert(after.drop_last() =~= color.drop_last());
    } else {
        lemma_unvisited_update(color.drop_last(), v, c);
        assert(after.drop_last() =~= color.drop_last().update(v, c));
    }
}

/// A step keeps the state in bounds and comes closer to the end of the search.
pub proof fn lemma_step(succ: Seq<Seq<usize>>, s: Search)
    requires
        in_bounds(succ, s),
        s.stack.len() > 0,
    ensures
        in_bounds(succ, step(succ, s)),
        unvisited(step(succ, s).color) < unvisited(s.color) || (unvisited(step(succ, s).color)
            == unvisited(s.color) && pending(succ, step(succ, s).stack) < pending(succ, s.stack)),
{
    let t = step(succ, s);
    let (u, seen) = s.stack.last();
    let path = s.stack.drop_last();
    assert(s.stack[s.stack.len() - 1] == (u, seen));
    assert forall|k: int| 0 <= k < t.stack.len() implies (#[trigger] t.stack[k]).0 < succ.len()
        && t.stack[k].1 <= succ[t.stack[k].0 as int].len() by {
        if k < s.stack.len() - 1 {
            assert(t.stack[k] == s.stack[k]);
        }
    }
    if seen < succ[u as int].len() {
        let v = succ[u as int][seen as int];
        let moved = path.push((u, (seen + 1) as usize));
        assert(moved.drop_last() =~= path);
        assert(pending(succ, moved) + 1 == pending(succ, s.stack));
        if s.color[v as int] == UNVISITED {
            lemma_unvisited_update(s.color, v as int, ON_STACK);
        }
    } else {
        lemma_unvisited_update(s.color, u as int, DONE);
    }
}

/// What holds throughout the search. `left` lists the nodes that are done, in the order in which
/// the search left them.
spec fn search_invariant(
    edges: Seq<(usize, usize)>,
    succ: Seq<Seq<usize>>,
    s: Search,
    left: Seq<usize>,
) -> bool {
    &&& in_bounds(succ, s)
    &&& path_linked(succ, s)
    &&& left_ordered(succ, s, left)
    &&& seen_settled(succ, s)
    &&& back_closes_cycles(edges, s)
}

/// The nodes on the path are those colored so, each once, and each is a successor of the one
/// before it.
spec fn path_linked(succ: Seq<Seq<usize>>, s: Search) -> bool {
    &&& forall|k: int| 0 <= k < s.stack.len() ==> s.color[(#[trigger] s.stack[k]).0 as int] == ON_STACK
    &&& forall|i: int, j: int|
        0 <= i < j < s.stack.len() ==> (#[trigger] s.stack[i]).0 != (#[trigger] s.stack[j]).0
    &&& forall|v: int|
        0 <= v < s.color.len() && #[trigger] s.color[v] == ON_STACK ==> on_path(s.stack, v)
    &&& forall|k: int| 0 <= k < s.stack.len() - 1 ==> #[trigger] linked(succ, s.stack, k)
}

/// The successor last seen from the `k`-th node on the path is the next node on the path.
spec fn linked(succ: Seq<Seq<usize>>, stack: Seq<(usize, usize)>, k: int) -> bool {
    stack[k].1 >= 1 && succ[stack[k].0 as int][stack[k].1 - 1] == stack[k + 1].0
}

spec fn on_path(stack: Seq<(usize, usize)>, v: int) -> bool {
    exists|k: int| 0 <= k < stack.len() && (#[trigger] stack[k]).0 == v
}

/// Each successor of a node that was left was left before it, or the edge to it is a back edge.
spec fn left_ordered(succ: Seq<Seq<usize>>, s: Search, left: Seq<usize>) -> bool {
    &&& left.no_duplicates()
    &&& forall|a: int| 0 <= a < left.len() ==> #[trigger] left[a] < s.color.len() && s.color[left[a] as int] == DONE
    &&& forall|v: usize| v < s.color.len() && s.color[v as int] == DONE ==> #[trigger] left.contains(v)
    &&& forall|a: int, j: int|
        0 <= a < left.len() && 0 <= j < succ[left[a] as int].len() ==> {
            let v = #[trigger] succ[left[a] as int][j];
            s.back.contains((left[a], v)) || left.take(a).contains(v)
        }
}

/// A successor seen from a node on the path is done, or next on the path, or the edge to it is a
/// back edge.
spec fn seen_settled(succ: Seq<Seq<usize>>, s: Search) -> bool {
    forall|k: int, j: int|
        0 <= k < s.stack.len() && 0 <= j < s.stack[k].1 ==> {
            let u = s.stack[k].0;
            let v = #[trigger] succ[s.stack[k].0 as int][j];
            ||| s.back.contains((u, v))
            ||| s.color[v as int] == DONE
            ||| k + 1 < s.stack.len() && v == s.stack[k + 1].0
        }
}

/// Every back edge is an edge, and closes a cycle: a walk leads from its target to its source.
spec fn back_closes_cycles(edges: Seq<(usize, usize)>, s: Search) -> bool {
    forall|u: usize, v: usize|
        #[trigger] s.back.contains((u, v)) ==> edges.contains((u, v)) && closes_cycle(edges, u, v)
}

/// A walk leads from `v` to `u`, so the edge from `u` to `v` closes a cycle.
pub open spec fn closes_cycle(edges: Seq<(usize, usize)>, u: usize, v: usize) -> bool {
    exists|walk: Seq<usize>|
        #[trigger] is_walk(edges, walk) && walk.first() == v && walk.last() == u
}

/// The nodes left after one more step.
spec fn left_after(succ: Seq<Seq<usize>>, s: Search, left: Seq<usize>) -> Seq<usize> {
    let (u, seen) = s.stack.last();
    if seen < succ[u as int].len() {
        left
    } else {
        left.push(u)
    }
}

/// A step keeps the invariant.
proof fn lemma_invariant_step(
    edges: Seq<(usize, usize)>,
    succ: Seq<Seq<usize>>,
    s: Search,
    left: Seq<usize>,
)
    requires
        succ.len() <= usize::MAX,
        succ == all_successors(succ.len(), edges),
        search_invariant(edges, succ, s, left),
        s.stack.len() > 0,
    ensures
        search_invariant(edges, succ, step(succ, s), left_after(succ, s, left)),
{
    lemma_step(succ, s);
    let t = step(succ, s);
    let top = s.stack.len() - 1;
    let (u, seen) = s.stack.last();
    assert(s.stack[top] == (u, seen));
    assert(s.color[u as int] == ON_STACK);
    lemma_successors(edges, u);
    assert(succ[u as int] == successors(edges, u));
    if seen < succ[u as int].len() {
        let v = succ[u as int][seen as int];
        assert(edges.contains((u, v)));
        if s.color[v as int] == UNVISITED {
            lemma_push_step(edges, succ, s, left);
        } else {
            if s.color[v as int] == ON_STACK {
                lemma_path_walk(edges, succ, s, v);
            }
            lemma_look_step(edges, succ, s, left);
        }
    } else {
        lemma_leave_step(edges, succ, s, left);
    }
}

/// Along the path, a walk leads from any node on it to its end.
proof fn lemma_path_walk(edges: Seq<(usize, usize)>, succ: Seq<Seq<usize>>, s: Search, v: usize)
    requires
        succ.len() <= usize::MAX,
        succ == all_successors(succ.len(), edges),
        in_bounds(succ, s),
        path_linked(succ, s),
        s.stack.len() > 0,
        v < s.color.len(),
        s.color[v as int] == ON_STACK,
    ensures
        closes_cycle(edges, s.stack.last().0, v),
{
    assert(on_path(s.stack, v as int));
    let m = choose|k: int| 0 <= k < s.stack.len() && (#[trigger] s.stack[k]).0 == v as int;
    let walk = Seq::new((s.stack.len() - m) as nat, |i: int| s.stack[m + i].0);
    assert forall|i: int| 0 <= i < walk.len() - 1 implies #[trigger] follows_edge(
        edges,
        walk,
        i,
    ) by {
        let k = m + i;
        let w = s.stack[k].0;
        assert(linked(succ, s.stack, k));
        lemma_successors(edges, w);
        assert(succ[w as int] == successors(edges, w));
        assert(edges.contains((w, successors(edges, w)[s.stack[k].1 - 1])));
    }
    assert(is_walk(edges, walk));
    assert(walk.first() == v && walk.last() == s.stack.last().0);
}

proof fn lemma_push_step(
    edges: Seq<(usize, usize)>,
    succ: Seq<Seq<usize>>,
    s: Search,
    left: Seq<usize>,
)
    requires
        search_invariant(edges, succ, s, left),
        s.stack.len() > 0,
        s.stack.last().1 < succ[s.stack.last().0 as int].len(),
        s.color[succ[s.stack.last().0 as int][s.stack.last().1 as int] as int] == UNVISITED,
    ensures
        search_invariant(edges, succ, step(succ, s), left),
{
    lemma_step(succ, s);
    let t = step(succ, s);
    let top = s.stack.len() - 1;
    let (u, seen) = s.stack.last();
    let v = succ[u as int][seen as int];
    assert(s.stack[top] == (u, seen));
    assert(forall|k: int| 0 <= k < top ==> t.stack[k] == s.stack[k]);
    assert(t.stack[top] == (u, (seen + 1) as usize));
    assert(t.stack[top + 1] == (v, 0usize));
    assert forall|k: int| 0 <= k < t.stack.len() implies t.color[(#[trigger] t.stack[k]).0 as int]
        == ON_STACK by {
        if k <= top {
            assert(s.color[s.stack[k].0 as int] == ON_STACK);
        }
    }
    assert forall|i: int, j: int| 0 <= i < j < t.stack.len() implies (#[trigger] t.stack[i]).0 != (
    #[trigger] t.stack[j]).0 by {
        assert(s.stack[i].0 == t.stack[i].0);
        assert(s.color[s.stack[i].0 as int] == ON_STACK);
        if j <= top {
            assert(s.stack[j].0 == t.stack[j].0);
        }
    }
    assert forall|w: int| 0 <= w < t.color.len() && #[trigger] t.color[w] == ON_STACK implies on_path(
        t.stack,
        w,
    ) by {
        if w == v {
            assert(t.stack[top + 1].0 == w);
        } else {
            assert(on_path(s.stack, w));
            let k = choose|k: int| 0 <= k < s.stack.len() && (#[trigger] s.stack[k]).0 == w;
            assert(t.stack[k].0 == w);
        }
    }
    assert forall|k: int| 0 <= k < t.stack.len() - 1 implies #[trigger] linked(
        succ,
        t.stack,
        k,
    ) by {
        if k < top {
            assert(linked(succ, s.stack, k));
            assert(t.stack[k + 1].0 == s.stack[k + 1].0);
        }
    }
    assert(path_linked(succ, t));
    assert forall|k: int, j: int| 0 <= k < t.stack.len() && 0 <= j < t.stack[k].1 implies {
        let a = t.stack[k].0;
        let b = #[trigger] succ[t.stack[k].0 as int][j];
        ||| t.back.contains((a, b))
        ||| t.color[b as int] == DONE
        ||| k + 1 < t.stack.len() && b == t.stack[k + 1].0
    } by {
        if k < top {
            let b = succ[s.stack[k].0 as int][j];
            assert(t.stack[k + 1].0 == s.stack[k + 1].0);
        } else if k == top && j < seen {
            let b = succ[s.stack[k].0 as int][j];
        }
    }
    assert(seen_settled(succ, t));
}

proof fn lemma_look_step(
    edges: Seq<(usize, usize)>,
    succ: Seq<Seq<usize>>,
    s: Search,
    left: Seq<usize>,
)
    requires
        search_invariant(edges, succ, s, left),
        s.stack.len() > 0,
        s.stack.last().1 < succ[s.stack.last().0 as int].len(),
        ({
            let u = s.stack.last().0;
            let v = succ[u as int][s.stack.last().1 as int];
            &&& s.color[v as int] != UNVISITED
            &&& s.color[v as int] == ON_STACK ==> edges.contains((u, v)) && closes_cycle(edges, u, v)
            &&& s.color[v as int] != ON_STACK ==> s.color[v as int] == DONE
        }),
    ensures
        search_invariant(edges, succ, step(succ, s), left),
{
    lemma_step(succ, s);
    let t = step(succ, s);
    let top = s.stack.len() - 1;
    let (u, seen) = s.stack.last();
    assert(s.stack[top] == (u, seen));
    assert(forall|k: int| 0 <= k < top ==> t.stack[k] == s.stack[k]);
    assert(t.stack[top] == (u, (seen + 1) as usize));
    assert forall|k: int| 0 <= k < t.stack.len() implies t.color[(#[trigger] t.stack[k]).0 as int]
        == ON_STACK by {
        assert(s.color[s.stack[k].0 as int] == ON_STACK);
    }
    assert forall|i: int, j: int| 0 <= i < j < t.stack.len() implies (#[trigger] t.stack[i]).0 != (
    #[trigger] t.stack[j]).0 by {
        assert(s.stack[i].0 == t.stack[i].0);
        assert(s.stack[j].0 == t.stack[j].0);
    }
    assert forall|w: int| 0 <= w < t.color.len() && #[trigger] t.color[w] == ON_STACK implies on_path(
        t.stack,
        w,
    ) by {
        assert(on_path(s.stack, w));
        let k = choose|k: int| 0 <= k < s.stack.len() && (#[trigger] s.stack[k]).0 == w;
        assert(t.stack[k].0 == w);
    }
    assert forall|k: int| 0 <= k < t.stack.len() - 1 implies #[trigger] linked(
        succ,
        t.stack,
        k,
    ) by {
        assert(linked(succ, s.stack, k));
        assert(t.stack[k + 1].0 == s.stack[k + 1].0);
    }
    assert(path_linked(succ, t));
    assert forall|k: int, j: int| 0 <= k < t.stack.len() && 0 <= j < t.stack[k].1 implies {
        let a = t.stack[k].0;
        let b = #[trigger] succ[t.stack[k].0 as int][j];
        ||| t.back.contains((a, b))
        ||| t.color[b as int] == DONE
        ||| k + 1 < t.stack.len() && b == t.stack[k + 1].0
    } by {
        if k < top {
            let b = succ[s.stack[k].0 as int][j];
            assert(t.stack[k + 1].0 == s.stack[k + 1].0);
        } else if j < seen {
            let b = succ[s.stack[k].0 as int][j];
        }
    }
    assert(seen_settled(succ, t));
}

proof fn lemma_leave_step(
    edges: Seq<(usize, usize)>,
    succ: Seq<Seq<usize>>,
    s: Search,
    left: Seq<usize>,
)
    requires
        search_invariant(edges, succ, s, left),
        s.stack.len() > 0,
        s.stack.last().1 == succ[s.stack.last().0 as int].len(),
    ensures
        search_invariant(edges, succ, step(succ, s), left.push(s.stack.last().0)),
{
    lemma_step(succ, s);
    let t = step(succ, s);
    let top = s.stack.len() - 1;
    let (u, seen) = s.stack.last();
    let now = left.push(u);
    assert(s.stack[top] == (u, seen));
    assert(s.color[u as int] == ON_STACK);
    assert(forall|k: int| 0 <= k < top ==> t.stack[k] == s.stack[k]);
    assert forall|k: int| 0 <= k < t.stack.len() implies t.color[(#[trigger] t.stack[k]).0 as int]
        == ON_STACK by {
        assert(s.stack[k].0 != s.stack[top].0);
    }
    assert forall|w: int| 0 <= w < t.color.len() && #[trigger] t.color[w] == ON_STACK implies on_path(
        t.stack,
        w,
    ) by {
        assert(w != u);
        assert(s.color[w] == ON_STACK);
        assert(on_path(s.stack, w));
        let k = choose|k: int| 0 <= k < s.stack.len() && (#[trigger] s.stack[k]).0 == w;
        assert(t.stack[k].0 == w);
    }
    assert forall|k: int| 0 <= k < t.stack.len() - 1 implies #[trigger] linked(
        succ,
        t.stack,
        k,
    ) by {
        assert(linked(succ, s.stack, k));
        assert(t.stack[k + 1].0 == s.stack[k + 1].0);
    }
    assert(path_linked(succ, t));
    assert forall|k: int, j: int| 0 <= k < t.stack.len() && 0 <= j < t.stack[k].1 implies {
        let a = t.stack[k].0;
        let b = #[trigger] succ[t.stack[k].0 as int][j];
        ||| t.back.contains((a, b))
        ||| t.color[b as int] == DONE
        ||| k + 1 < t.stack.len() && b == t.stack[k + 1].0
    } by {
        let b = succ[s.stack[k].0 as int][j];
        assert(s.stack[k + 1].0 == b || s.back.contains((s.stack[k].0, b)) || s.color[b as int]
            == DONE);
    }
    assert(seen_settled(succ, t));
    assert forall|i: int, j: int| 0 <= i < j < now.len() implies now[i] != now[j] by {
        if j == left.len() {
            assert(s.color[left[i] as int] == DONE);
        }
    }
    assert(now.no_duplicates());
    assert forall|a: int| 0 <= a < now.len() implies #[trigger] now[a] < t.color.len()
        && t.color[now[a] as int] == DONE by {
        if a < left.len() {
            assert(left[a] < s.color.len());
        }
    }
    assert forall|w: usize| w < t.color.len() && t.color[w as int] == DONE implies
        #[trigger] now.contains(w) by {
        if w == u {
            assert(now[left.len() as int] == u);
        } else {
            assert(left.contains(w));
            let a = choose|a: int| 0 <= a < left.len() && left[a] == w;
            assert(now[a] == w);
        }
    }
    assert forall|a: int, j: int| 0 <= a < now.len() && 0 <= j < succ[now[a] as int].len() implies {
        let v = #[trigger] succ[now[a] as int][j];
        t.back.contains((now[a], v)) || now.take(a).contains(v)
    } by {
        if a < left.len() {
            let v = succ[left[a] as int][j];
            assert(now.take(a) =~= left.take(a));
        } else {
            assert(now.take(a) =~= left);
            assert(0 <= j < s.stack[top].1);
            let v = succ[s.stack[top].0 as int][j];
            if !s.back.contains((u, v)) {
                assert(s.color[v as int] == DONE);
                assert(left.contains(v));
            }
        }
    }
    assert(left_ordered(succ, t, now));
}

/// A search whose path is empty, and which is through with every node, leaves no cycle beside
/// the back edges.
proof fn lemma_rest_is_acyclic(
    n: nat,
    edges: Seq<(usize, usize)>,
    s: Search,
    left: Seq<usize>,
)
    requires
        n <= usize::MAX,
        edges_in_range(n as int, edges),
        search_invariant(edges, all_successors(n, edges), s, left),
        forall|v: int| 0 <= v < n ==> #[trigger] s.color[v] == DONE,
    ensures
        acyclic(without(edges, s.back)),
{
    let succ = all_successors(n, edges);
    let rest = without(edges, s.back);
    let rank = |v: usize| -left.index_of(v);
    assert forall|u: usize, v: usize| #[trigger] rest.contains((u, v)) implies rank(u) < rank(v) by {
        let keep = |e: (usize, usize)| !s.back.contains(e);
        let i = choose|i: int| 0 <= i < rest.len() && rest[i] == (u, v);
        edges.lemma_filter_pred(keep, i);
        edges.lemma_filter_contains_rev(keep, (u, v));
        let e = choose|e: int| 0 <= e < edges.len() && edges[e] == (u, v);
        assert(edges[e].0 < n && edges[e].1 < n);
        lemma_successors(edges, u);
        assert(successors(edges, u).contains(v));
        let j = choose|j: int| 0 <= j < successors(edges, u).len() && successors(edges, u)[j] == v;
        assert(s.color[u as int] == DONE);
        assert(left.contains(u));
        let a = left.index_of(u);
        assert(left[a] == u);
        assert(succ[u as int] == successors(edges, u));
        let w = succ[left[a] as int][j];
        assert(left.take(a).contains(v));
        let b = choose|b: int| 0 <= b < left.take(a).len() && left.take(a)[b] == v;
        assert(left[b] == v);
        assert(left.contains(v));
        assert(left.index_of(v) == b);
    }
    lemma_ranked_is_acyclic(rest, rank);
}

/// Whether `e` is among `edges`.
pub fn contains_edge(edges: &Vec<(usize, usize)>, e: (usize, usize)) -> (r: bool)
    ensures
        r == edges@.contains(e),
{
    let mut i: usize = 0;
    while i < edges.len()
        invariant
            i <= edges.len(),
            forall|j: int| 0 <= j < i ==> edges@[j] != e,
        decreases edges.len() - i,
    {
        if edges[i].0 == e.0 && edges[i].1 == e.1 {
            assert(edges@[i as int] == e);
            return true;
        }
        i += 1;
    }
    false
}

/// Edges whose target is an ancestor on the path of a depth-first search: dropping them breaks
/// every cycle.
pub fn back_edges(n: usize, edges: &Vec<(usize, usize)>) -> (back: Vec<(usize, usize)>)
    requires
        edges_in_range(n as int, edges@),
    ensures
        back@.no_duplicates(),
        back@.to_set() == search_back_edges(n as nat, edges@),
        forall|u: usize, v: usize| #[trigger]
            back@.contains((u, v)) ==> edges@.contains((u, v)) && closes_cycle(edges@, u, v),
        acyclic(without(edges@, back@.to_set())),
        acyclic(edges@) ==> back@.len() == 0,
{
    let succ = successor_lists(n, edges);
    let ghost lists = all_successors(n as nat, edges@);
    let mut color: Vec<u8> = Vec::new();
    let mut filled: usize = 0;
    while filled < n
        invariant
            filled <= n,
            color.len() == filled,
            forall|v: int| 0 <= v < filled ==> #[trigger] color@[v] == UNVISITED,
        decreases n - filled,
    {
        color.push(UNVISITED);
        filled += 1;
    }
    let mut back: Vec<(usize, usize)> = Vec::new();
    let ghost mut left: Seq<usize> = Seq::empty();
    let mut root: usize = 0;
    proof {
        assert forall|u: int, j: int| 0 <= u < lists.len() && 0 <= j < lists[u].len() implies
            #[trigger] lists[u][j] < lists.len() by {
            lemma_successors(edges@, u as usize);
            assert(edges@.contains((u as usize, successors(edges@, u as usize)[j])));
        }
        assert forall|u: int| 0 <= u < lists.len() implies (#[trigger] lists[u]).len()
            <= usize::MAX by {
            assert(succ@[u]@ == successors(edges@, u as usize));
            assert(succ@[u]@.len() == succ@[u].len());
        }
        assert(back@.to_set() =~= Set::empty());
        assert(color@ =~= searched(lists, 0).color);
        let s0 = searched(lists, 0);
        assert(search_invariant(edges@, lists, s0, left));
    }
    while root < n
        invariant
            root <= n,
            succ.len() == n,
            lists == all_successors(n as nat, edges@),
            forall|u: usize| u < n ==> (#[trigger] succ@[u as int])@ == successors(edges@, u),
            back@.no_duplicates(),
            searched(lists, root as nat) == (Search {
                color: color@,
                stack: Seq::empty(),
                back: back@.to_set(),
            }),
            search_invariant(
                edges@,
                lists,
                (Search { color: color@, stack: Seq::empty(), back: back@.to_set() }),
                left,
            ),
            forall|v: int| 0 <= v < root ==> #[trigger] color@[v] == DONE,
        decreases n - root,
    {
        let ghost before = searched(lists, root as nat);
        let ghost color_before = color@;
        if color[root] == UNVISITED {
            color.set(root, ON_STACK);
            let mut stack: Vec<(usize, usize)> = Vec::new();
            stack.push((root, 0));
            let ghost start = rooted(before, root);
            proof {
                let s = Search { color: color@, stack: stack@, back: back@.to_set() };
                assert(s.color =~= start.color);
                assert(s.stack =~= start.stack);
                assert(s == start);
                lemma_root_step(edges@, lists, before, root, left);
            }
            while stack.len() > 0
                invariant
                    root < n,
                    succ.len() == n,
                    lists == all_successors(n as nat, edges@),
                    forall|u: usize|
                        u < n ==> (#[trigger] succ@[u as int])@ == successors(edges@, u),
                    back@.no_duplicates(),
                    search_invariant(
                        edges@,
                        lists,
                        (Search { color: color@, stack: stack@, back: back@.to_set() }),
                        left,
                    ),
                    finish(
                        lists,
                        (Search { color: color@, stack: stack@, back: back@.to_set() }),
                    ) == finish(lists, start),
                    color@[root as int] != UNVISITED,
                    forall|v: int| 0 <= v < root ==> #[trigger] color@[v] == DONE,
                decreases unvisited(color@), pending(lists, stack@),
            {
                let ghost s = Search { color: color@, stack: stack@, back: back@.to_set() };
                let ghost next = left_after(lists, s, left);
                let top: usize = stack.len() - 1;
                let (node, seen) = stack[top];
                proof {
                    lemma_invariant_step(edges@, lists, s, left);
                    lemma_step(lists, s);
                    assert(s.stack[top as int] == (node, seen));
                    assert(lists[node as int] == succ@[node as int]@);
                    assert(s.color[node as int] == ON_STACK);
                }
                if seen < succ[node].len() {
                    let v: usize = succ[node][seen];
                    assert(lists[node as int][seen as int] == v);
                    stack.set(top, (node, seen + 1));
                    if color[v] == UNVISITED {
                        color.set(v, ON_STACK);
                        stack.push((v, 0));
                        assert(stack@ =~= step(lists, s).stack);
                    } else if color[v] == ON_STACK {
                        if !contains_edge(&back, (node, v)) {
                            let ghost b = back@;
                            back.push((node, v));
                            assert(back@.to_set() =~= b.to_set().insert((node, v))) by {
                                broadcast use vstd::seq_lib::group_seq_properties;
                            }
                        } else {
                            assert(back@.to_set() =~= s.back.insert((node, v)));
                        }
                        assert(stack@ =~= step(lists, s).stack);
                    } else {
                        assert(stack@ =~= step(lists, s).stack);
                    }
                } else {
                    color.set(node, DONE);
                    stack.pop();
                    assert(stack@ =~= step(lists, s).stack);
                }
                proof {
                    left = next;
                    assert(color@ =~= step(lists, s).color);
                    assert(back@.to_set() =~= step(lists, s).back);
                    assert((Search { color: color@, stack: stack@, back: back@.to_set() }) == step(
                        lists,
                        s,
                    ));
                }
            }
            proof {
                assert(stack@ =~= Seq::empty());
                let s = Search { color: color@, stack: stack@, back: back@.to_set() };
                assert(!on_path(s.stack, root as int));
                assert(color@[root as int] <= DONE);
            }
        } else {
            assert(!on_path(Seq::empty(), root as int));
            assert(color@[root as int] <= DONE);
        }
        root += 1;
    }
    proof {
        let s = Search { color: color@, stack: Seq::empty(), back: back@.to_set() };
        lemma_rest_is_acyclic(n as nat, edges@, s, left);
        assert forall|u: usize, v: usize| #[trigger] back@.contains((u, v)) implies edges@.contains(
            (u, v),
        ) && closes_cycle(edges@, u, v) by {
            assert(s.back.contains((u, v)));
        }
        if acyclic(edges@) && back@.len() > 0 {
            let (u, v) = back@[0];
            assert(back@.contains((u, v)));
            lemma_closed_walk(edges@, u, v);
        }
    }
    back
}

/// An edge that closes a cycle shows that there is one.
proof fn lemma_closed_walk(edges: Seq<(usize, usize)>, u: usize, v: usize)
    requires
        edges.contains((u, v)),
        closes_cycle(edges, u, v),
    ensures
        !acyclic(edges),
{
    let walk = choose|walk: Seq<usize>|
        #[trigger] is_walk(edges, walk) && walk.first() == v && walk.last() == u;
    let closed = walk.push(v);
    assert forall|i: int| 0 <= i < closed.len() - 1 implies #[trigger] follows_edge(
        edges,
        closed,
        i,
    ) by {
        if i < walk.len() - 1 {
            assert(follows_edge(edges, walk, i));
        }
    }
    assert(is_walk(edges, closed));
    assert(closed.first() == closed.last());
}

/// Starting from an unvisited root keeps the invariant.
proof fn lemma_root_step(
    edges: Seq<(usize, usize)>,
    succ: Seq<Seq<usize>>,
    s: Search,
    root: usize,
    left: Seq<usize>,
)
    requires
        search_invariant(edges, succ, s, left),
        s.stack.len() == 0,
        root < s.color.len(),
        s.color[root as int] == UNVISITED,
    ensures
        search_invariant(edges, succ, rooted(s, root), left),
{
    let t = rooted(s, root);
    assert(t.stack[0] == (root, 0usize));
    assert forall|w: int| 0 <= w < t.color.len() && #[trigger] t.color[w] == ON_STACK implies on_path(
        t.stack,
        w,
    ) by {
        if w == root {
            assert(t.stack[0].0 == w);
        } else {
            assert(on_path(s.stack, w));
        }
    }
    assert(path_linked(succ, t));
    assert(seen_settled(succ, t));
    assert(left_ordered(succ, t, left));
}

proof fn lemma_successor_count(edges: Seq<(usize, usize)>, u: usize)
    ensures
        successors(edges, u).len() <= edges.len(),
    decreases edges.len(),
{
    if edges.len() > 0 {
        lemma_successor_count(edges.drop_last(), u);
    }
}

/// Carrying the search on until the path is empty keeps the invariant, and no node that was
/// reached is forgotten.
proof fn lemma_finish(
    edges: Seq<(usize, usize)>,
    succ: Seq<Seq<usize>>,
    s: Search,
    left: Seq<usize>,
) -> (then_left: Seq<usize>)
    requires
        succ.len() <= usize::MAX,
        succ == all_successors(succ.len(), edges),
        search_invariant(edges, succ, s, left),
    ensures
        search_invariant(edges, succ, finish(succ, s), then_left),
        finish(succ, s).stack.len() == 0,
        forall|v: int|
            0 <= v < s.color.len() && #[trigger] s.color[v] != UNVISITED ==> finish(
                succ,
                s,
            ).color[v] != UNVISITED,
    decreases unvisited(s.color), pending(succ, s.stack),
{
    if s.stack.len() == 0 {
        left
    } else {
        lemma_step(succ, s);
        lemma_invariant_step(edges, succ, s, left);
        let t = step(succ, s);
        assert(s.stack[s.stack.len() - 1] == s.stack.last());
        let then_left = lemma_finish(edges, succ, t, left_after(succ, s, left));
        assert forall|v: int|
            0 <= v < s.color.len() && #[trigger] s.color[v] != UNVISITED implies finish(
            succ,
            s,
        ).color[v] != UNVISITED by {
            assert(t.color[v] != UNVISITED);
        }
        then_left
    }
}

/// After the nodes `0..k` have been tried as roots, the invariant holds, the path is empty and
/// the search is through with them.
proof fn lemma_searched(n: nat, edges: Seq<(usize, usize)>, k: nat) -> (left: Seq<usize>)
    requires
        k <= n <= usize::MAX,
        edges.len() <= usize::MAX,
        edges_in_range(n as int, edges),
    ensures
        search_invariant(
            edges,
            all_successors(n, edges),
            searched(all_successors(n, edges), k),
            left,
        ),
        searched(all_successors(n, edges), k).stack.len() == 0,
        forall|v: int|
            0 <= v < k ==> #[trigger] searched(all_successors(n, edges), k).color[v] == DONE,
    decreases k,
{
    let succ = all_successors(n, edges);
    let s = searched(succ, k);
    let left = if k == 0 {
        assert forall|u: int, j: int| 0 <= u < succ.len() && 0 <= j < succ[u].len() implies
            #[trigger] succ[u][j] < succ.len() by {
            lemma_successors(edges, u as usize);
            assert(edges.contains((u as usize, successors(edges, u as usize)[j])));
        }
        assert forall|u: int| 0 <= u < succ.len() implies (#[trigger] succ[u]).len()
            <= usize::MAX by {
            lemma_successor_count(edges, u as usize);
        }
        assert(search_invariant(edges, succ, s, Seq::empty()));
        Seq::empty()
    } else {
        let left = lemma_searched(n, edges, (k - 1) as nat);
        let before = searched(succ, (k - 1) as nat);
        if before.color[k - 1] == UNVISITED {
            lemma_root_step(edges, succ, before, (k - 1) as usize, left);
            let start = rooted(before, (k - 1) as usize);
            assert(start.color[k - 1] != UNVISITED);
            assert forall|v: int| 0 <= v < k implies #[trigger] start.color[v] != UNVISITED by {
                if v < k - 1 {
                    assert(before.color[v] == DONE);
                }
            }
            lemma_finish(edges, succ, start, left)
        } else {
            left
        }
    };
    assert forall|v: int| 0 <= v < k implies #[trigger] s.color[v] == DONE by {
        assert(!on_path(s.stack, v));
        assert(s.color[v] <= DONE);
        if k > 0 {
            let before = searched(succ, (k - 1) as nat);
            if v < k - 1 {
                assert(before.color[v] == DONE);
            }
            if before.color[k - 1] == UNVISITED {
                let start = rooted(before, (k - 1) as usize);
                assert(start.color[v] != UNVISITED);
            }
        }
    }
    left
}

/// Dropping the back edges leaves no cycle. Each of them is an edge that closes a cycle, so a graph
/// without cycles keeps all its edges.
pub proof fn law_back_edges_break_cycles(n: nat, edges: Seq<(usize, usize)>)
    requires
        n <= usize::MAX,
        edges.len() <= usize::MAX,
        edges_in_range(n as int, edges),
    ensures
        acyclic(without(edges, search_back_edges(n, edges))),
        forall|u: usize, v: usize| #[trigger]
            search_back_edges(n, edges).contains((u, v)) ==> edges.contains((u, v))
                && closes_cycle(edges, u, v),
        acyclic(edges) ==> without(edges, search_back_edges(n, edges)) == edges,
{
    let left = lemma_searched(n, edges, n);
    let s = searched(all_successors(n, edges), n);
    lemma_rest_is_acyclic(n, edges, s, left);
    if acyclic(edges) {
        assert forall|e: (usize, usize)| !s.back.contains(e) by {
            if s.back.contains(e) {
                lemma_closed_walk(edges, e.0, e.1);
            }
        }
        lemma_filter_all(edges, |e: (usize, usize)| !s.back.contains(e));
    }
}

proof fn lemma_filter_all(edges: Seq<(usize, usize)>, keep: spec_fn((usize, usize)) -> bool)
    requires
        forall|e: (usize, usize)| #[trigger] keep(e),
    ensures
        edges.filter(keep) == edges,
    decreases edges.len(),
{
    reveal(Seq::filter);
    if edges.len() > 0 {
        lemma_filter_all(edges.drop_last(), keep);
        assert(edges.drop_last().push(edges.last()) =~= edges);
    }
}

} // verus!
