//! Longest-path layers of a directed graph without cycles.

use vstd::prelude::*;

use crate::dag::{
    acyclic, edges_in_range, follows_edge, is_walk, lemma_successors, successor_lists, successors,
};
use crate::topo::{lemma_distinct_below, lemma_long_walk_repeats, topological};

verus! {

/// Every edge leads to a higher layer, and every node above layer zero has an edge from the layer
/// just below it.
pub open spec fn is_layering(edges: Seq<(usize, usize)>, layer: Seq<usize>) -> bool {
    &&& forall|u: usize, v: usize| #[trigger]
        edges.contains((u, v)) ==> layer[u as int] < layer[v as int]
    &&& forall|v: usize|
        v < layer.len() && layer[v as int] > 0 ==> #[trigger] has_step_up(edges, layer, v)
}

/// An edge leads to `v` from the layer just below it.
pub open spec fn has_step_up(edges: Seq<(usize, usize)>, layer: Seq<usize>, v: usize) -> bool {
    exists|u: usize| #[trigger]
        edges.contains((u, v)) && u < layer.len() && layer[u as int] + 1 == layer[v as int]
}

/// The layer of a node is the number of edges on the longest walk that ends there: no walk to it
/// is longer, and one is as long.
pub proof fn law_layers_are_longest_walks(
    edges: Seq<(usize, usize)>,
    layer: Seq<usize>,
    v: usize,
)
    requires
        edges_in_range(layer.len() as int, edges),
        is_layering(edges, layer),
        v < layer.len(),
    ensures
        forall|walk: Seq<usize>| #[trigger]
            is_walk(edges, walk) && walk.last() == v ==> walk.len() - 1 <= layer[v as int],
        exists|walk: Seq<usize>| #[trigger]
            is_walk(edges, walk) && walk.last() == v && walk.len() - 1 == layer[v as int],
{
    assert forall|walk: Seq<usize>| #[trigger] is_walk(edges, walk) && walk.last() == v implies
        walk.len() - 1 <= layer[v as int] by {
        lemma_walk_climbs_layers(edges, layer, walk, walk.len() - 1);
    }
    let walk = lemma_walk_through_layers(edges, layer, v);
}

proof fn lemma_walk_climbs_layers(
    edges: Seq<(usize, usize)>,
    layer: Seq<usize>,
    walk: Seq<usize>,
    k: int,
)
    requires
        is_layering(edges, layer),
        is_walk(edges, walk),
        0 <= k < walk.len(),
    ensures
        k <= layer[walk[k] as int],
    decreases k,
{
    if k > 0 {
        lemma_walk_climbs_layers(edges, layer, walk, k - 1);
        assert(follows_edge(edges, walk, k - 1));
    }
}

proof fn lemma_walk_through_layers(
    edges: Seq<(usize, usize)>,
    layer: Seq<usize>,
    v: usize,
) -> (walk: Seq<usize>)
    requires
        is_layering(edges, layer),
        v < layer.len(),
    ensures
        is_walk(edges, walk),
        walk.last() == v,
        walk.len() - 1 == layer[v as int],
    decreases layer[v as int],
{
    if layer[v as int] == 0 {
        seq![v]
    } else {
        assert(has_step_up(edges, layer, v));
        let u = choose|u: usize| #[trigger]
            edges.contains((u, v)) && u < layer.len() && layer[u as int] + 1 == layer[v as int];
        let below = lemma_walk_through_layers(edges, layer, u);
        let walk = below.push(v);
        assert forall|i: int| 0 <= i < walk.len() - 1 implies #[trigger] follows_edge(
            edges,
            walk,
            i,
        ) by {
            if i < below.len() - 1 {
                assert(follows_edge(edges, below, i));
            }
        }
        walk
    }
}

/// Layers are unique: a graph has one layering.
pub proof fn law_layering_is_unique(
    edges: Seq<(usize, usize)>,
    a: Seq<usize>,
    b: Seq<usize>,
)
    requires
        a.len() == b.len(),
        edges_in_range(a.len() as int, edges),
        is_layering(edges, a),
        is_layering(edges, b),
        a.len() <= usize::MAX,
    ensures
        a == b,
{
    assert forall|i: int| 0 <= i < a.len() implies a[i] == b[i] by {
        let v = i as usize;
        let p = lemma_walk_through_layers(edges, a, v);
        let q = lemma_walk_through_layers(edges, b, v);
        lemma_walk_climbs_layers(edges, b, p, p.len() - 1);
        lemma_walk_climbs_layers(edges, a, q, q.len() - 1);
    }
    assert(a =~= b);
}

/// An edge leads to `v` from the layer just below it and from a node of `done`.
spec fn stepped_up(
    edges: Seq<(usize, usize)>,
    layer: Seq<usize>,
    done: Seq<usize>,
    v: usize,
) -> bool {
    exists|u: usize| #[trigger]
        edges.contains((u, v)) && done.contains(u) && u < layer.len() && layer[u as int] + 1
            == layer[v as int]
}

/// In a topological order, a successor comes later.
proof fn lemma_successor_later(
    edges: Seq<(usize, usize)>,
    order: Seq<usize>,
    k: int,
    v: usize,
)
    requires
        order.no_duplicates(),
        topological(edges, order),
        0 <= k < order.len(),
        edges.contains((order[k], v)),
    ensures
        !order.take(k + 1).contains(v),
{
    let t = order.take(k + 1);
    if t.contains(v) {
        let i = choose|i: int| 0 <= i < t.len() && t[i] == v;
        assert(order[i] == v);
        assert(order.take(i).contains(order[k]));
        let b = choose|b: int| 0 <= b < order.take(i).len() && order.take(i)[b] == order[k];
        assert(order[b] == order[k]);
    }
}

/// The longest-path layers of the nodes `0..n`, which `order` lists in topological order.
pub fn assign_layers(
    n: usize,
    edges: &Vec<(usize, usize)>,
    order: &Vec<usize>,
) -> (layer: Vec<usize>)
    requires
        edges_in_range(n as int, edges@),
        order@.no_duplicates(),
        forall|i: int| 0 <= i < order@.len() ==> #[trigger] order@[i] < n,
        forall|v: usize| v < n ==> #[trigger] order@.contains(v),
        topological(edges@, order@),
    ensures
        layer.len() == n,
        is_layering(edges@, layer@),
        forall|v: int| 0 <= v < n ==> #[trigger] layer@[v] <= n,
{
    let succ = successor_lists(n, edges);
    let mut layer: Vec<usize> = Vec::new();
    let mut i: usize = 0;
    while i < n
        invariant
            i <= n,
            layer.len() == i,
            forall|v: int| 0 <= v < i ==> #[trigger] layer@[v] == 0,
        decreases n - i,
    {
        layer.push(0);
        i += 1;
    }
    let mut k: usize = 0;
    while k < order.len()
        invariant
            k <= order.len(),
            edges_in_range(n as int, edges@),
            succ.len() == n,
            forall|u: usize| u < n ==> (#[trigger] succ@[u as int])@ == successors(edges@, u),
            order@.no_duplicates(),
            forall|i: int| 0 <= i < order@.len() ==> #[trigger] order@[i] < n,
            topological(edges@, order@),
            layer.len() == n,
            forall|v: int| 0 <= v < n ==> #[trigger] layer@[v] <= k,
            forall|u: usize, v: usize| #[trigger]
                edges@.contains((u, v)) && order@.take(k as int).contains(u) ==> layer@[u as int]
                    < layer@[v as int],
            forall|v: usize|
                v < n && #[trigger] layer@[v as int] > 0 ==> stepped_up(
                    edges@,
                    layer@,
                    order@.take(k as int),
                    v,
                ),
        decreases order.len() - k,
    {
        let u: usize = order[k];
        let ghost before = layer@;
        let ghost out = successors(edges@, u);
        let ghost done = order@.take(k + 1);
        proof {
            assert(succ@[u as int]@ == out);
            assert(done[k as int] == u);
            assert(done.contains(u));
            assert forall|v: usize| v < n && #[trigger] layer@[v as int] > 0 implies stepped_up(
                edges@,
                layer@,
                done,
                v,
            ) by {
                assert(stepped_up(edges@, layer@, order@.take(k as int), v));
                let t = choose|t: usize| #[trigger]
                    edges@.contains((t, v)) && order@.take(k as int).contains(t) && t < layer@.len()
                        && layer@[t as int] + 1 == layer@[v as int];
                let b = choose|b: int|
                    0 <= b < order@.take(k as int).len() && order@.take(k as int)[b] == t;
                assert(done[b] == t);
            }
        }
        let mut j: usize = 0;
        while j < succ[u].len()
            invariant
                k < order.len(),
                u < n,
                u == order@[k as int],
                j <= out.len(),
                out == successors(edges@, u),
                done == order@.take(k + 1),
                done.contains(u),
                edges_in_range(n as int, edges@),
                succ.len() == n,
                succ@[u as int]@ == out,
                order@.no_duplicates(),
                topological(edges@, order@),
                layer.len() == n,
                before.len() == n,
                forall|v: int| 0 <= v < n ==> #[trigger] layer@[v] <= k + 1,
                before[u as int] <= k,
                forall|v: int| 0 <= v < n ==> before[v] <= #[trigger] layer@[v],
                forall|v: usize|
                    v < n && done.contains(v) ==> before[v as int] == #[trigger] layer@[v as int],
                forall|l: int| 0 <= l < j ==> layer@[u as int] < layer@[#[trigger] out[l] as int],
                forall|v: usize|
                    v < n && #[trigger] layer@[v as int] > 0 ==> stepped_up(
                        edges@,
                        layer@,
                        done,
                        v,
                    ),
            decreases out.len() - j,
        {
            let v: usize = succ[u][j];
            proof {
                assert(out[j as int] == v);
                lemma_successors(edges@, u);
                assert(edges@.contains((u, out[j as int])));
                let e = choose|e: int| 0 <= e < edges@.len() && edges@[e] == (u, v);
                assert(edges@[e].1 < n);
                assert(layer@[u as int] == before[u as int]);
                lemma_successor_later(edges@, order@, k as int, v);
            }
            if layer[v] < layer[u] + 1 {
                let ghost now = layer@;
                let d: usize = layer[u] + 1;
                layer.set(v, d);
                proof {
                    assert(layer@[u as int] == now[u as int]);
                    assert forall|w: usize| w < n && #[trigger] layer@[w as int] > 0 implies stepped_up(
                        edges@,
                        layer@,
                        done,
                        w,
                    ) by {
                        if w == v {
                            assert(edges@.contains((u, v)));
                        } else {
                            assert(now[w as int] > 0);
                            assert(stepped_up(edges@, now, done, w));
                            let t = choose|t: usize| #[trigger]
                                edges@.contains((t, w)) && done.contains(t) && t < now.len()
                                    && now[t as int] + 1 == now[w as int];
                            assert(layer@[t as int] + 1 == layer@[w as int]);
                        }
                    }
                }
            }
            j += 1;
        }
        proof {
            assert forall|a: usize, v: usize| #[trigger]
                edges@.contains((a, v)) && done.contains(a) implies layer@[a as int]
                < layer@[v as int] by {
                let e = choose|e: int| 0 <= e < edges@.len() && edges@[e] == (a, v);
                assert(edges@[e].0 < n && edges@[e].1 < n);
                assert(layer@[a as int] == before[a as int]);
                if a == u {
                    lemma_successors(edges@, u);
                    assert(out.contains(v));
                    let l = choose|l: int| 0 <= l < out.len() && out[l] == v;
                    assert(layer@[u as int] < layer@[out[l] as int]);
                } else {
                    let b = choose|b: int| 0 <= b < done.len() && done[b] == a;
                    assert(order@.take(k as int)[b] == a);
                    assert(order@.take(k as int).contains(a));
                    assert(before[a as int] < before[v as int]);
                }
            }
        }
        k += 1;
    }
    proof {
        lemma_distinct_below(order@, n as nat);
        assert(order@.take(order@.len() as int) =~= order@);
        assert forall|u: usize, v: usize| #[trigger] edges@.contains((u, v)) implies layer@[u as int]
            < layer@[v as int] by {
            let e = choose|e: int| 0 <= e < edges@.len() && edges@[e] == (u, v);
            assert(edges@[e].0 < n);
            assert(order@.contains(u));
        }
        assert forall|v: usize| v < n && layer@[v as int] > 0 implies #[trigger] has_step_up(
            edges@,
            layer@,
            v,
        ) by {
            assert(stepped_up(edges@, layer@, order@, v));
        }
    }
    layer
}

/// A walk along `d` edges ends at `v`.
spec fn reached_in(edges: Seq<(usize, usize)>, v: usize, d: nat) -> bool {
    exists|walk: Seq<usize>| #[trigger]
        is_walk(edges, walk) && walk.last() == v && walk.len() == d + 1
}

/// The most edges, up to `bound`, on a walk that ends at `v`.
spec fn longest(edges: Seq<(usize, usize)>, v: usize, bound: nat) -> nat
    decreases bound,
{
    if bound == 0 || reached_in(edges, v, bound) {
        bound
    } else {
        longest(edges, v, (bound - 1) as nat)
    }
}

proof fn lemma_longest(edges: Seq<(usize, usize)>, v: usize, bound: nat)
    ensures
        longest(edges, v, bound) <= bound,
        reached_in(edges, v, longest(edges, v, bound)),
        forall|d: nat|
            d <= bound && #[trigger] reached_in(edges, v, d) ==> d <= longest(edges, v, bound),
    decreases bound,
{
    if bound == 0 {
        assert(is_walk(edges, seq![v]));
        assert(reached_in(edges, v, 0));
    } else if !reached_in(edges, v, bound) {
        lemma_longest(edges, v, (bound - 1) as nat);
    }
}

/// The nodes of a walk that ends in range are in range.
proof fn lemma_walk_in_range(n: nat, edges: Seq<(usize, usize)>, walk: Seq<usize>)
    requires
        edges_in_range(n as int, edges),
        is_walk(edges, walk),
        walk.last() < n,
    ensures
        forall|i: int| 0 <= i < walk.len() ==> #[trigger] walk[i] < n,
{
    assert forall|i: int| 0 <= i < walk.len() implies #[trigger] walk[i] < n by {
        if i < walk.len() - 1 {
            assert(follows_edge(edges, walk, i));
            let e = choose|e: int| 0 <= e < edges.len() && edges[e] == (walk[i], walk[i + 1]);
            assert(edges[e].0 < n);
        }
    }
}

/// In a graph without cycles, no walk has as many edges as there are nodes.
proof fn lemma_walks_are_short(n: nat, edges: Seq<(usize, usize)>, v: usize, d: nat)
    requires
        edges_in_range(n as int, edges),
        acyclic(edges),
        v < n,
        reached_in(edges, v, d),
    ensures
        d < n,
{
    let walk = choose|walk: Seq<usize>| #[trigger]
        is_walk(edges, walk) && walk.last() == v && walk.len() == d + 1;
    lemma_walk_in_range(n, edges, walk);
    if walk.len() > n {
        lemma_long_walk_repeats(n, edges, walk);
    }
}

/// The layers of the nodes `0..n`: for a graph without cycles, the only ones in which every edge
/// leads up and every node above layer zero has an edge from the layer just below it.
pub open spec fn layering(n: nat, edges: Seq<(usize, usize)>) -> Seq<usize> {
    choose|layer: Seq<usize>| #[trigger] is_layering(edges, layer) && layer.len() == n
}

/// A graph without cycles has layers, fewer than it has nodes.
pub proof fn law_layering_exists(n: nat, edges: Seq<(usize, usize)>)
    requires
        n <= usize::MAX,
        edges_in_range(n as int, edges),
        acyclic(edges),
    ensures
        layering(n, edges).len() == n,
        is_layering(edges, layering(n, edges)),
        forall|v: int| 0 <= v < n ==> #[trigger] layering(n, edges)[v] < n,
{
    let layer = Seq::new(n, |v: int| longest(edges, v as usize, n) as usize);
    assert forall|v: int| 0 <= v < n implies #[trigger] layer[v] < n && layer[v] == longest(
        edges,
        v as usize,
        n,
    ) by {
        lemma_longest(edges, v as usize, n);
        lemma_walks_are_short(n, edges, v as usize, longest(edges, v as usize, n));
    }
    assert forall|u: usize, v: usize| #[trigger] edges.contains((u, v)) implies layer[u as int]
        < layer[v as int] by {
        let e = choose|e: int| 0 <= e < edges.len() && edges[e] == (u, v);
        assert(edges[e].0 < n && edges[e].1 < n);
        lemma_longest(edges, u, n);
        lemma_longest(edges, v, n);
        let d = longest(edges, u, n);
        assert(layer[u as int] == d);
        let walk = choose|walk: Seq<usize>| #[trigger]
            is_walk(edges, walk) && walk.last() == u && walk.len() == d + 1;
        let on = walk.push(v);
        assert forall|i: int| 0 <= i < on.len() - 1 implies #[trigger] follows_edge(
            edges,
            on,
            i,
        ) by {
            if i < walk.len() - 1 {
                assert(follows_edge(edges, walk, i));
            }
        }
        assert(is_walk(edges, on));
        assert(reached_in(edges, v, d + 1));
    }
    assert forall|v: usize| v < layer.len() && layer[v as int] > 0 implies #[trigger] has_step_up(
        edges,
        layer,
        v,
    ) by {
        let d = longest(edges, v, n);
        lemma_longest(edges, v, n);
        let walk = choose|walk: Seq<usize>| #[trigger]
            is_walk(edges, walk) && walk.last() == v && walk.len() == d + 1;
        lemma_walk_in_range(n, edges, walk);
        let back = walk.drop_last();
        let u = back.last();
        assert(follows_edge(edges, walk, walk.len() - 2));
        assert(edges.contains((u, v)));
        assert forall|i: int| 0 <= i < back.len() - 1 implies #[trigger] follows_edge(
            edges,
            back,
            i,
        ) by {
            assert(follows_edge(edges, walk, i));
        }
        assert(is_walk(edges, back));
        assert(walk[walk.len() - 2] == u);
        assert(reached_in(edges, u, (d - 1) as nat));
        lemma_longest(edges, u, n);
        assert(layer[u as int] < layer[v as int]);
    }
    assert(is_layering(edges, layer) && layer.len() == n);
    law_layering_is_unique(edges, layer, layering(n, edges));
}

} // verus!
