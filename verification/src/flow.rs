//! The signal flow between the nodes of a patch, as a directed graph without cycles.

use vstd::prelude::*;

use crate::cycles::{
    back_edges, contains_edge, law_back_edges_break_cycles, search_back_edges, without,
};
use crate::dag::{acyclic, edges_in_range};
use crate::model::{Node, Wire};
use crate::text::same_text;

verus! {

/// The index of the last node with id `id`.
pub open spec fn node_index(nodes: Seq<Node>, id: Seq<char>) -> Option<int>
    decreases nodes.len(),
{
    if nodes.len() == 0 {
        None
    } else if nodes.last().id@ == id {
        Some(nodes.len() - 1)
    } else {
        node_index(nodes.drop_last(), id)
    }
}

/// The edge along a wire between two different nodes of the patch.
pub open spec fn edge_of(nodes: Seq<Node>, w: Wire) -> Option<(usize, usize)> {
    match (node_index(nodes, w.from@.0), node_index(nodes, w.to@.0)) {
        (Some(a), Some(b)) => if a != b {
            Some((a as usize, b as usize))
        } else {
            None
        },
        _ => None,
    }
}

/// The edges along the wires, each once, in the order in which they first occur.
pub open spec fn flow_edges(nodes: Seq<Node>, wires: Seq<Wire>) -> Seq<(usize, usize)>
    decreases wires.len(),
{
    if wires.len() == 0 {
        Seq::empty()
    } else {
        let before = flow_edges(nodes, wires.drop_last());
        match edge_of(nodes, wires.last()) {
            Some(e) => if before.contains(e) {
                before
            } else {
                before.push(e)
            },
            None => before,
        }
    }
}

/// The edges that stay when the back edges of a depth-first search are dropped.
pub open spec fn forward(n: nat, edges: Seq<(usize, usize)>) -> Seq<(usize, usize)> {
    without(edges, search_back_edges(n, edges))
}

/// The last node with id `id`.
fn find_node(nodes: &Vec<Node>, id: &str) -> (r: Option<usize>)
    ensures
        match r {
            Some(i) => i < nodes@.len() && node_index(nodes@, id@) == Some(i as int),
            None => node_index(nodes@, id@) is None,
        },
{
    let mut i: usize = nodes.len();
    assert(nodes@.take(i as int) =~= nodes@);
    while i > 0
        invariant
            i <= nodes@.len(),
            node_index(nodes@, id@) == node_index(nodes@.take(i as int), id@),
        decreases i,
    {
        assert(nodes@.take(i as int).drop_last() =~= nodes@.take(i - 1));
        i -= 1;
        if same_text(nodes[i].id.as_str(), id) {
            return Some(i);
        }
    }
    None
}

proof fn lemma_node_index(nodes: Seq<Node>, id: Seq<char>)
    ensures
        match node_index(nodes, id) {
            Some(i) => 0 <= i < nodes.len() && nodes[i].id@ == id,
            None => forall|i: int| 0 <= i < nodes.len() ==> (#[trigger] nodes[i]).id@ != id,
        },
    decreases nodes.len(),
{
    if nodes.len() > 0 {
        let rest = nodes.drop_last();
        lemma_node_index(rest, id);
        if node_index(nodes, id) is None {
            assert forall|i: int| 0 <= i < nodes.len() implies (#[trigger] nodes[i]).id@ != id by {
                if i < rest.len() {
                    assert(rest[i] == nodes[i]);
                }
            }
        }
    }
}

/// The edges along the wires join nodes of the patch, no node with itself, and none occurs twice.
pub proof fn law_flow_edges(nodes: Seq<Node>, wires: Seq<Wire>)
    requires
        nodes.len() <= usize::MAX,
    ensures
        flow_edges(nodes, wires).len() <= wires.len(),
        edges_in_range(nodes.len() as int, flow_edges(nodes, wires)),
        flow_edges(nodes, wires).no_duplicates(),
        forall|i: int|
            0 <= i < flow_edges(nodes, wires).len() ==> (#[trigger] flow_edges(nodes, wires)[i]).0
                != flow_edges(nodes, wires)[i].1,
    decreases wires.len(),
{
    if wires.len() > 0 {
        law_flow_edges(nodes, wires.drop_last());
        lemma_node_index(nodes, wires.last().from@.0);
        lemma_node_index(nodes, wires.last().to@.0);
    }
}

/// The edges along the wires, each once, in the order in which they first occur. Wires between a
/// node and itself, or from or to a node that is not there, give none.
pub fn edges_of_wires(nodes: &Vec<Node>, wires: &Vec<Wire>) -> (r: Vec<(usize, usize)>)
    ensures
        r@ == flow_edges(nodes@, wires@),
{
    let mut r: Vec<(usize, usize)> = Vec::new();
    let mut i: usize = 0;
    assert(wires@.take(0) =~= Seq::empty());
    while i < wires.len()
        invariant
            i <= wires@.len(),
            r@ == flow_edges(nodes@, wires@.take(i as int)),
        decreases wires.len() - i,
    {
        proof {
            assert(wires@.take(i + 1).drop_last() =~= wires@.take(i as int));
            assert(wires@.take(i + 1).last() == wires@[i as int]);
        }
        let w = &wires[i];
        if let (Some(a), Some(b)) = (
            find_node(nodes, w.from.node()),
            find_node(nodes, w.to.node()),
        ) {
            if a != b && !contains_edge(&r, (a, b)) {
                r.push((a, b));
            }
        }
        i += 1;
    }
    assert(wires@.take(i as int) =~= wires@);
    r
}

/// The edges that are left when those that close cycles are dropped.
pub fn forward_edges(n: usize, edges: &Vec<(usize, usize)>) -> (r: Vec<(usize, usize)>)
    requires
        edges_in_range(n as int, edges@),
    ensures
        r@ == forward(n as nat, edges@),
        acyclic(r@),
        edges_in_range(n as int, r@),
{
    let back = back_edges(n, edges);
    let ghost dropped = search_back_edges(n as nat, edges@);
    let ghost keep = |e: (usize, usize)| !dropped.contains(e);
    let mut r: Vec<(usize, usize)> = Vec::new();
    let mut i: usize = 0;
    proof {
        reveal(Seq::filter);
        assert(edges@.take(0) =~= Seq::empty());
    }
    while i < edges.len()
        invariant
            i <= edges@.len(),
            back@.to_set() == dropped,
            keep == (|e: (usize, usize)| !dropped.contains(e)),
            r@ == edges@.take(i as int).filter(keep),
        decreases edges.len() - i,
    {
        proof {
            reveal(Seq::filter);
            assert(edges@.take(i + 1).drop_last() =~= edges@.take(i as int));
            assert(edges@.take(i + 1).last() == edges@[i as int]);
            assert(dropped.contains(edges@[i as int]) == back@.contains(edges@[i as int]));
        }
        if !contains_edge(&back, edges[i]) {
            r.push(edges[i]);
        }
        i += 1;
    }
    proof {
        assert(edges@.take(i as int) =~= edges@);
        lemma_forward_in_range(n as nat, edges@);
    }
    r
}

proof fn lemma_forward_in_range(n: nat, edges: Seq<(usize, usize)>)
    requires
        edges_in_range(n as int, edges),
    ensures
        edges_in_range(n as int, forward(n, edges)),
        forall|e: (usize, usize)| #[trigger] forward(n, edges).contains(e) ==> edges.contains(e),
{
    let dropped = search_back_edges(n, edges);
    let keep = |e: (usize, usize)| !dropped.contains(e);
    let kept = forward(n, edges);
    assert forall|e: (usize, usize)| #[trigger] kept.contains(e) implies edges.contains(e) by {
        edges.lemma_filter_contains_rev(keep, e);
    }
    assert forall|i: int| 0 <= i < kept.len() implies (#[trigger] kept[i]).0 < n && kept[i].1
        < n by {
        assert(kept.contains(kept[i]));
        let j = choose|j: int| 0 <= j < edges.len() && edges[j] == kept[i];
        assert(edges[j].0 < n);
    }
}

/// What stays of the signal flow joins nodes of the patch and has no cycle. A signal flow without
/// cycles stays whole.
pub proof fn law_forward_flow(nodes: Seq<Node>, wires: Seq<Wire>)
    requires
        nodes.len() <= usize::MAX,
        wires.len() <= usize::MAX,
    ensures
        edges_in_range(
            nodes.len() as int,
            forward(nodes.len(), flow_edges(nodes, wires)),
        ),
        acyclic(forward(nodes.len(), flow_edges(nodes, wires))),
        acyclic(flow_edges(nodes, wires)) ==> forward(nodes.len(), flow_edges(nodes, wires))
            == flow_edges(nodes, wires),
{
    law_flow_edges(nodes, wires);
    law_back_edges_break_cycles(nodes.len(), flow_edges(nodes, wires));
    lemma_forward_in_range(nodes.len(), flow_edges(nodes, wires));
}

} // verus!
