//! Where the layout puts the nodes, in terms of the ids that the wires name.

use vstd::prelude::*;

use crate::barycenter::position_sum;
use crate::columns::{
    anchored, arranges, column_of, lemma_anchored, lemma_swept_left, lemma_swept_right,
    lemma_top_layer, lemma_unsorted, placed, swept_left, swept_right, top_layer, unsorted, Order,
};
use crate::cycles::{
    all_successors, closes_cycle, law_back_edges_break_cycles, search_back_edges,
};
use crate::dag::{
    follows_edge, is_walk, lemma_ranked_is_acyclic, lemma_successors, predecessors, successors,
};
use crate::flow::{edge_of, flow_edges, law_flow_edges, law_forward_flow, node_index};
use crate::graph::{node_drawn, port_rows, Center, GraphView, Microns, NodeGeom};
use crate::graph_laws::{law_node_is_drawn_with_its_ports, law_rows_fit_both_sides};
use crate::layout::{
    all_predecessors, arranged_x, arranged_y, arrangement, column_index, column_left, column_x,
    flow, half_heights, laid_out, law_columns_are_layers, law_flow_runs_left_to_right,
    law_half_heights_are_of_boxes, places_given, rearranged, stacked, stacked_y,
};
use crate::layers::layering;
use crate::model::{Node, Patch, Wire};
use crate::sort_laws::{
    law_columns_begin_in_node_order, law_left_sweep_follows_the_columns_to_the_right,
    law_sweeps_go_right_and_left_in_turn, leads_above,
};

verus! {

/// The wire leads from node `a` to node `b`: these are the last nodes with the ids that its ends
/// name, and the ids differ.
pub open spec fn leads(nodes: Seq<Node>, w: Wire, a: int, b: int) -> bool {
    &&& 0 <= a < nodes.len()
    &&& 0 <= b < nodes.len()
    &&& nodes[a].id@ == w.from.0@
    &&& nodes[b].id@ == w.to.0@
    &&& w.from.0@ != w.to.0@
    &&& forall|j: int| a < j < nodes.len() ==> (#[trigger] nodes[j]).id@ != w.from.0@
    &&& forall|j: int| b < j < nodes.len() ==> (#[trigger] nodes[j]).id@ != w.to.0@
}

/// Some wire leads from node `a` to node `b`.
pub open spec fn some_wire_leads(nodes: Seq<Node>, wires: Seq<Wire>, a: int, b: int) -> bool {
    exists|i: int| 0 <= i < wires.len() && leads(nodes, #[trigger] wires[i], a, b)
}

/// The index of a node is that of the last one with the id; there is none exactly if no node has
/// the id.
pub proof fn law_index_is_of_the_last_with_the_id(nodes: Seq<Node>, id: Seq<char>)
    ensures
        match node_index(nodes, id) {
            Some(i) => {
                &&& 0 <= i < nodes.len()
                &&& nodes[i].id@ == id
                &&& forall|j: int| i < j < nodes.len() ==> (#[trigger] nodes[j]).id@ != id
            },
            None => forall|j: int| 0 <= j < nodes.len() ==> (#[trigger] nodes[j]).id@ != id,
        },
    decreases nodes.len(),
{
    if nodes.len() > 0 {
        let rest = nodes.drop_last();
        law_index_is_of_the_last_with_the_id(rest, id);
        if nodes.last().id@ != id {
            let from = match node_index(rest, id) {
                Some(i) => {
                    assert(rest[i] == nodes[i]);
                    i
                },
                None => -1,
            };
            assert forall|j: int| from < j < nodes.len() implies (#[trigger] nodes[j]).id@
                != id by {
                if j < rest.len() {
                    assert(rest[j] == nodes[j]);
                }
            }
        }
    }
}

/// A wire gives an edge exactly if its ends name two different nodes, and it is the edge from the
/// one to the other.
pub proof fn law_edge_is_along_its_wire(nodes: Seq<Node>, w: Wire)
    requires
        nodes.len() <= usize::MAX,
    ensures
        edge_of(nodes, w) matches Some(e) ==> leads(nodes, w, e.0 as int, e.1 as int),
        forall|a: int, b: int| #[trigger]
            leads(nodes, w, a, b) ==> edge_of(nodes, w) == Some((a as usize, b as usize)),
{
    law_index_is_of_the_last_with_the_id(nodes, w.from.0@);
    law_index_is_of_the_last_with_the_id(nodes, w.to.0@);
    assert forall|a: int, b: int| #[trigger] leads(nodes, w, a, b) implies edge_of(nodes, w)
        == Some((a as usize, b as usize)) by {
        assert(nodes[a].id@ == w.from.0@);
        assert(nodes[b].id@ == w.to.0@);
        let i = node_index(nodes, w.from.0@)->0;
        let j = node_index(nodes, w.to.0@)->0;
        assert(i == a);
        assert(j == b);
    }
}

/// Every wire between two different nodes gives an edge of the signal flow, every edge comes from
/// such a wire, and the edges are in the order of the wires that first give them. The result says
/// which wires these are.
pub proof fn law_signal_flow_is_along_the_wires(nodes: Seq<Node>, wires: Seq<Wire>) -> (first: Seq<
    int,
>)
    requires
        nodes.len() <= usize::MAX,
    ensures
        first.len() == flow_edges(nodes, wires).len(),
        forall|i: int, a: int, b: int|
            0 <= i < wires.len() && #[trigger] leads(nodes, wires[i], a, b) ==> flow_edges(
                nodes,
                wires,
            ).contains((a as usize, b as usize)),
        forall|k: int|
            0 <= k < first.len() ==> 0 <= #[trigger] first[k] < wires.len() && leads(
                nodes,
                wires[first[k]],
                flow_edges(nodes, wires)[k].0 as int,
                flow_edges(nodes, wires)[k].1 as int,
            ),
        forall|k: int, i: int|
            #![trigger first[k], wires[i]]
            0 <= k < first.len() && 0 <= i < first[k] ==> !leads(
                nodes,
                wires[i],
                flow_edges(nodes, wires)[k].0 as int,
                flow_edges(nodes, wires)[k].1 as int,
            ),
        forall|j: int, k: int|
            0 <= j < k < first.len() ==> #[trigger] first[j] < #[trigger] first[k],
    decreases wires.len(),
{
    if wires.len() == 0 {
        Seq::empty()
    } else {
        let rest = wires.drop_last();
        let last = wires.len() - 1;
        let before = flow_edges(nodes, rest);
        let all = flow_edges(nodes, wires);
        let had = law_signal_flow_is_along_the_wires(nodes, rest);
        law_edge_is_along_its_wire(nodes, wires.last());
        assert forall|k: int| 0 <= k < before.len() implies all[k] == before[k] by {}
        let first = if all.len() > before.len() {
            had.push(last)
        } else {
            had
        };
        assert forall|k: int| 0 <= k < first.len() implies 0 <= #[trigger] first[k] < wires.len()
            && leads(nodes, wires[first[k]], all[k].0 as int, all[k].1 as int) by {
            if k < had.len() {
                assert(rest[had[k]] == wires[had[k]]);
            }
        }
        assert forall|i: int, a: int, b: int|
            0 <= i < wires.len() && #[trigger] leads(
                nodes,
                wires[i],
                a,
                b,
            ) implies all.contains((a as usize, b as usize)) by {
            let e = (a as usize, b as usize);
            if i < last {
                assert(rest[i] == wires[i]);
                assert(leads(nodes, rest[i], a, b));
                assert(before.contains(e));
            }
            if before.contains(e) {
                let k = choose|k: int| 0 <= k < before.len() && before[k] == e;
                assert(all[k] == e);
            } else {
                assert(all[before.len() as int] == e);
            }
        }
        assert forall|k: int, i: int|
            #![trigger first[k], wires[i]]
            0 <= k < first.len() && 0 <= i < first[k] implies !leads(
            nodes,
            wires[i],
            all[k].0 as int,
            all[k].1 as int,
        ) by {
            assert(rest[i] == wires[i]);
            if k < had.len() {
                assert(had[k] == first[k]);
            } else if leads(nodes, rest[i], all[k].0 as int, all[k].1 as int) {
                assert(before.contains(all[k]));
            }
        }
        first
    }
}

/// Without feedback, which `rank` shows by growing along every wire between two different nodes,
/// every such wire leads to a node further right, unless it leaves the output, which stands in the
/// last column whatever it leads to.
pub proof fn law_wire_leads_to_the_right(
    nodes: Seq<Node>,
    wires: Seq<Wire>,
    rank: spec_fn(Seq<char>) -> int,
    i: int,
    a: int,
    b: int,
)
    requires
        nodes.len() <= usize::MAX,
        wires.len() <= usize::MAX,
        forall|j: int, c: int, d: int|
            0 <= j < wires.len() && #[trigger] leads(nodes, wires[j], c, d) ==> rank(
                wires[j].from.0@,
            ) < rank(wires[j].to.0@),
        0 <= i < wires.len(),
        leads(nodes, wires[i], a, b),
        nodes[a].ty@ != "audio_output"@,
    ensures
        arranged_x(nodes, wires, a) < arranged_x(nodes, wires, b),
{
    let edges = flow_edges(nodes, wires);
    let first = law_signal_flow_is_along_the_wires(nodes, wires);
    let up = |u: usize| rank(nodes[u as int].id@);
    assert forall|u: usize, v: usize| #[trigger] edges.contains((u, v)) implies up(u) < up(v) by {
        let k = choose|k: int| 0 <= k < edges.len() && edges[k] == (u, v);
        assert(leads(nodes, wires[first[k]], u as int, v as int));
    }
    lemma_ranked_is_acyclic(edges, up);
    law_forward_flow(nodes, wires);
    assert(edges.contains((a as usize, b as usize)));
    law_flow_runs_left_to_right(nodes, wires, a as usize, b as usize);
}

/// A wire between two different nodes that leads to one that is not further right leaves the
/// output, or it is feedback: other wires lead back. The result are the nodes on the way back.
pub proof fn law_only_feedback_runs_to_the_left(
    nodes: Seq<Node>,
    wires: Seq<Wire>,
    i: int,
    a: int,
    b: int,
) -> (back: Seq<int>)
    requires
        nodes.len() <= usize::MAX,
        wires.len() <= usize::MAX,
        0 <= i < wires.len(),
        leads(nodes, wires[i], a, b),
        nodes[a].ty@ != "audio_output"@,
        arranged_x(nodes, wires, a) >= arranged_x(nodes, wires, b),
    ensures
        back.len() >= 2,
        back.first() == b,
        back.last() == a,
        forall|k: int|
            0 <= k < back.len() - 1 ==> some_wire_leads(
                nodes,
                wires,
                #[trigger] back[k],
                back[k + 1],
            ),
{
    let edges = flow_edges(nodes, wires);
    let first = law_signal_flow_is_along_the_wires(nodes, wires);
    let (u, v) = (a as usize, b as usize);
    assert(edges.contains((u, v)));
    law_flow_edges(nodes, wires);
    law_back_edges_break_cycles(nodes.len(), edges);
    if flow(nodes, wires).contains((u, v)) {
        law_flow_runs_left_to_right(nodes, wires, u, v);
    }
    let dropped = search_back_edges(nodes.len(), edges);
    let keep = |e: (usize, usize)| !dropped.contains(e);
    if !dropped.contains((u, v)) {
        let e = choose|e: int| 0 <= e < edges.len() && edges[e] == (u, v);
        edges.lemma_filter_contains(keep, e);
    }
    assert(closes_cycle(edges, u, v));
    let walk = choose|walk: Seq<usize>|
        #[trigger] is_walk(edges, walk) && walk.first() == v && walk.last() == u;
    let back = Seq::new(walk.len(), |k: int| walk[k] as int);
    assert(a != b);
    assert forall|k: int| 0 <= k < back.len() - 1 implies some_wire_leads(
        nodes,
        wires,
        #[trigger] back[k],
        back[k + 1],
    ) by {
        assert(follows_edge(edges, walk, k));
        let e = choose|e: int| 0 <= e < edges.len() && edges[e] == (walk[k], walk[k + 1]);
        assert(leads(nodes, wires[first[e]], back[k], back[k + 1]));
    }
    back
}

/// Every node gets its position: for the last one with its id, the layout has what `place` makes of
/// where the node goes, and it has no other positions. Only the layout changes, and this only if
/// there are nodes. The result says where the nodes go.
pub proof fn law_layout_has_the_places_of_the_nodes<P, F: Fn(Microns) -> P>(
    place: F,
    before: GraphView<P>,
    after: GraphView<P>,
) -> (spots: Seq<Microns>)
    requires
        rearranged(place, before, after),
    ensures
        after.patch.nodes == before.patch.nodes,
        after.patch.wires == before.patch.wires,
        after.registry == before.registry,
        before.patch.nodes@.len() == 0 ==> after.patch.layout == before.patch.layout,
        before.patch.nodes@.len() > 0 ==> {
            let nodes = before.patch.nodes@;
            let wires = before.patch.wires@;
            &&& spots.len() == nodes.len()
            &&& forall|v: int|
                0 <= v < nodes.len() ==> (#[trigger] spots[v]).x == arranged_x(nodes, wires, v)
                    && spots[v].y == arranged_y(nodes, wires, v)
            &&& forall|v: int|
                0 <= v < nodes.len() && (forall|j: int|
                    v < j < nodes.len() ==> (#[trigger] nodes[j]).id@ != nodes[v].id@)
                    ==> after.patch.layout@.contains_key(nodes[v].id@) && place.ensures(
                    (#[trigger] spots[v],),
                    after.patch.layout@[nodes[v].id@],
                )
            &&& forall|id: Seq<char>| #[trigger]
                after.patch.layout@.contains_key(id) ==> exists|v: int|
                    0 <= v < nodes.len() && (#[trigger] nodes[v]).id@ == id
        },
{
    let nodes = before.patch.nodes@;
    let wires = before.patch.wires@;
    if nodes.len() == 0 {
        Seq::empty()
    } else {
        let (spots, places) = choose|spots: Seq<Microns>, places: Seq<P>|
            {
                &&& #[trigger] places_given(place, nodes, wires, spots, places)
                &&& after.patch.layout@ == laid_out(nodes, places, nodes.len())
            };
        lemma_last_wins(nodes, places, nodes.len());
        spots
    }
}

/// In the layout of the first `n` nodes the last of each id has its position.
proof fn lemma_last_wins<P>(nodes: Seq<Node>, places: Seq<P>, n: nat)
    requires
        n <= nodes.len(),
    ensures
        forall|v: int|
            0 <= v < n && (forall|j: int|
                v < j < n ==> (#[trigger] nodes[j]).id@ != nodes[v].id@)
                ==> #[trigger] laid_out(nodes, places, n).contains_key(nodes[v].id@) && laid_out(
                nodes,
                places,
                n,
            )[nodes[v].id@] == places[v],
        forall|id: Seq<char>| #[trigger]
            laid_out(nodes, places, n).contains_key(id) ==> exists|v: int|
                0 <= v < n && (#[trigger] nodes[v]).id@ == id,
    decreases n,
{
    if n > 0 {
        let m = (n - 1) as nat;
        let before = laid_out(nodes, places, m);
        let all = laid_out(nodes, places, n);
        lemma_last_wins(nodes, places, m);
        assert forall|v: int|
            0 <= v < n && (forall|j: int|
                v < j < n ==> (
                #[trigger] nodes[j]).id@ != nodes[v].id@) implies #[trigger] all.contains_key(
            nodes[v].id@,
        ) && all[nodes[v].id@] == places[v] by {
            if v < m {
                assert(nodes[m as int].id@ != nodes[v].id@);
                assert(before.contains_key(nodes[v].id@));
            }
        }
        assert forall|id: Seq<char>| #[trigger] all.contains_key(id) implies exists|v: int|
            0 <= v < n && (#[trigger] nodes[v]).id@ == id by {
            if before.contains_key(id) {
                let v = choose|v: int| 0 <= v < m && (#[trigger] nodes[v]).id@ == id;
                assert(0 <= v < n && nodes[v].id@ == id);
            } else {
                assert(nodes[m as int].id@ == id);
            }
        }
    }
}

/// Half the width of a column, in quarters of a millimeter: 14 mm where it has nodes, and half a
/// millimeter where it has none.
pub open spec fn half_width(col: Seq<usize>) -> int {
    if col.len() > 0 {
        56
    } else {
        2
    }
}

/// Between the middles of neighboring columns are half of each and a gap of 18 mm.
pub proof fn law_columns_stand_side_by_side(columns: Seq<Seq<usize>>, l: nat)
    ensures
        column_x(columns, 0) == half_width(columns[0]),
        column_x(columns, l + 1) - column_x(columns, l) == half_width(columns[l as int])
            + half_width(columns[l as int + 1]) + 72,
{
    assert(column_left(columns, 0) == 0);
    assert(column_left(columns, l + 1) == column_left(columns, l) + 2 * half_width(
        columns[l as int],
    ) + 72);
}

/// The nodes of a column are stacked with gaps of 7 mm, and as far up as down from the middle.
pub proof fn law_columns_are_stacked_around_the_middle(halves: Seq<int>, col: Seq<usize>)
    ensures
        col.len() > 0 ==> stacked_y(halves, col, 0) - halves[col[0] as int] == -(stacked_y(
            halves,
            col,
            (col.len() - 1) as nat,
        ) + halves[col.last() as int]),
        forall|k: nat|
            k + 1 < col.len() ==> #[trigger] stacked_y(halves, col, k + 1) - stacked_y(
                halves,
                col,
                k,
            ) == halves[col[k as int] as int] + halves[col[k as int + 1] as int] + 28,
{
    if col.len() > 0 {
        let n = (col.len() - 1) as nat;
        assert(stacked(halves, col, col.len()) == stacked(halves, col, n)
            + halves[col[n as int] as int] + 14);
        assert(stacked(halves, col, 0) == 0);
    }
    assert forall|k: nat| k + 1 < col.len() implies #[trigger] stacked_y(halves, col, k + 1)
        - stacked_y(halves, col, k) == halves[col[k as int] as int] + halves[col[k as int + 1] as int]
        + 28 by {
        assert(stacked(halves, col, k + 1) == stacked(halves, col, k)
            + halves[col[k as int] as int] + 14);
    }
}

/// From one node to another it is as far as from the middle of the one's column to the middle of the
/// other's, and as far down as between their places in the stacks; a quarter of a millimeter is
/// 250 micrometers.
pub proof fn law_nodes_stand_in_their_columns(nodes: Seq<Node>, wires: Seq<Wire>, u: int, v: int)
    requires
        nodes.len() <= usize::MAX,
        wires.len() <= usize::MAX,
        0 <= u < nodes.len(),
        0 <= v < nodes.len(),
    ensures
        ({
            let o = arrangement(nodes, wires);
            let at = column_index(nodes, wires);
            let halves = half_heights(nodes, wires);
            let (cu, cv) = (o.columns[at[u] as int], o.columns[at[v] as int]);
            let (ku, kv) = (o.positions[u], o.positions[v]);
            &&& ku < cu.len() && cu[ku as int] == u
            &&& kv < cv.len() && cv[kv as int] == v
            &&& arranged_x(nodes, wires, v) - arranged_x(nodes, wires, u) == 250 * (column_x(
                o.columns,
                at[v] as nat,
            ) - column_x(o.columns, at[u] as nat))
            &&& arranged_y(nodes, wires, v) - arranged_y(nodes, wires, u) == 250 * (stacked_y(
                halves,
                cv,
                kv as nat,
            ) - stacked_y(halves, cu, ku as nat))
        }),
{
    law_columns_are_layers(nodes, wires);
    let o = arrangement(nodes, wires);
    let at = column_index(nodes, wires);
    assert(placed(o, at, u));
    assert(placed(o, at, v));
}

/// The heights that the layout reckons with are those of the boxes as they are drawn.
pub proof fn law_layout_measures_the_drawn_boxes<P, W, F: Fn(Center<P>, Microns) -> W>(
    at: F,
    patch: Patch<P>,
    i: int,
    geom: NodeGeom<W>,
)
    requires
        0 <= i < patch.nodes@.len(),
        node_drawn(at, patch, i, geom),
    ensures
        half_heights(patch.nodes@, patch.wires@).len() == patch.nodes@.len(),
        500 * half_heights(patch.nodes@, patch.wires@)[i] == geom.rect.size.y,
{
    law_node_is_drawn_with_its_ports(at, patch, i, geom);
    law_rows_fit_both_sides(patch.wires@, patch.nodes@[i]);
    assert(geom.inputs@.len() == geom.inputs.len());
    assert(geom.outputs@.len() == geom.outputs.len());
    law_half_heights_are_of_boxes(port_rows(patch.wires@, patch.nodes@[i]@));
}

/// The output goes to the last layer there is, and every other node stays in its own.
pub proof fn law_outputs_go_to_the_last_layer(nodes: Seq<Node>, layer: Seq<usize>, i: int)
    requires
        nodes.len() == layer.len(),
        0 <= i < layer.len(),
    ensures
        anchored(nodes, layer).len() == layer.len(),
        nodes[i].ty@ != "audio_output"@ ==> anchored(nodes, layer)[i] == layer[i],
        nodes[i].ty@ == "audio_output"@ ==> {
            &&& exists|j: int|
                0 <= j < layer.len() && #[trigger] layer[j] == anchored(nodes, layer)[i]
            &&& forall|j: int|
                0 <= j < layer.len() ==> #[trigger] layer[j] <= anchored(nodes, layer)[i]
        },
{
    lemma_top_layer(layer);
    assert(top_layer(layer) as usize == top_layer(layer));
}

/// The columns begin in the order of the nodes and are then swept four times: right, by what leads
/// to each node, and left, by what it leads to, and both once more. The result is how they begin.
pub proof fn law_columns_are_swept_from_node_order(nodes: Seq<Node>, wires: Seq<Wire>) -> (begin:
    Order)
    requires
        nodes.len() <= usize::MAX,
        wires.len() <= usize::MAX,
    ensures
        arranges(begin, column_index(nodes, wires)),
        forall|l: int, j: int, k: int|
            0 <= l < begin.columns.len() && 0 <= j < k < begin.columns[l].len()
                ==> #[trigger] begin.columns[l][j] < #[trigger] begin.columns[l][k],
        ({
            let edges = flow(nodes, wires);
            let preds = Seq::new(nodes.len(), |v: int| predecessors(edges, v as usize));
            let succ = Seq::new(nodes.len(), |v: int| successors(edges, v as usize));
            let n = begin.columns.len();
            let once = swept_left(swept_right(begin, preds, n), succ, 0);
            arrangement(nodes, wires) == swept_left(swept_right(once, preds, n), succ, 0)
        }),
{
    let edges = flow(nodes, wires);
    let at = column_index(nodes, wires);
    let preds = all_predecessors(nodes.len(), edges);
    let succ = all_successors(nodes.len(), edges);
    assert(preds =~= Seq::new(nodes.len(), |v: int| predecessors(edges, v as usize)));
    assert(succ =~= Seq::new(nodes.len(), |v: int| successors(edges, v as usize)));
    law_columns_are_layers(nodes, wires);
    let begin = unsorted(at);
    lemma_unsorted(at);
    law_sweeps_go_right_and_left_in_turn(begin, at, preds, succ);
    assert forall|l: int, j: int, k: int|
        0 <= l < begin.columns.len() && 0 <= j < k
            < begin.columns[l].len() implies #[trigger] begin.columns[l][j]
        < #[trigger] begin.columns[l][k] by {
        law_columns_begin_in_node_order(at, l, at.len());
        assert(begin.columns[l] == column_of(at, l, at.len()));
    }
    begin
}

/// Of two nodes of a column that both lead somewhere and are not outputs, the upper one leads to
/// nodes that on average stand no lower in their columns.
pub proof fn law_upper_nodes_lead_to_upper_nodes(
    nodes: Seq<Node>,
    wires: Seq<Wire>,
    u: usize,
    v: usize,
)
    requires
        nodes.len() <= usize::MAX,
        wires.len() <= usize::MAX,
        u < nodes.len(),
        v < nodes.len(),
        nodes[u as int].ty@ != "audio_output"@,
        nodes[v as int].ty@ != "audio_output"@,
        column_index(nodes, wires)[u as int] == column_index(nodes, wires)[v as int],
        arrangement(nodes, wires).positions[u as int] < arrangement(
            nodes,
            wires,
        ).positions[v as int],
        successors(flow(nodes, wires), u).len() > 0,
        successors(flow(nodes, wires), v).len() > 0,
    ensures
        ({
            let positions = arrangement(nodes, wires).positions;
            let su = successors(flow(nodes, wires), u);
            let sv = successors(flow(nodes, wires), v);
            position_sum(su, positions) * sv.len() <= position_sum(sv, positions) * su.len()
        }),
{
    let edges = flow(nodes, wires);
    let at = column_index(nodes, wires);
    let preds = all_predecessors(nodes.len(), edges);
    let succ = all_successors(nodes.len(), edges);
    law_columns_are_layers(nodes, wires);
    lemma_leads_above(nodes, wires, u);
    lemma_leads_above(nodes, wires, v);
    let o = unsorted(at);
    lemma_unsorted(at);
    law_sweeps_go_right_and_left_in_turn(o, at, preds, succ);
    let n = o.columns.len();
    let one = swept_right(o, preds, n);
    lemma_swept_right(o, at, preds, n);
    let two = swept_left(one, succ, 0);
    lemma_swept_left(one, at, succ, 0);
    let three = swept_right(two, preds, n);
    lemma_swept_right(two, at, preds, n);
    assert(arrangement(nodes, wires) == swept_left(three, succ, 0));
    law_left_sweep_follows_the_columns_to_the_right(three, at, succ, u, v);
}

/// A node that is no output leads only to columns further right.
proof fn lemma_leads_above(nodes: Seq<Node>, wires: Seq<Wire>, u: usize)
    requires
        nodes.len() <= usize::MAX,
        wires.len() <= usize::MAX,
        u < nodes.len(),
        nodes[u as int].ty@ != "audio_output"@,
        successors(flow(nodes, wires), u).len() > 0,
    ensures
        leads_above(
            column_index(nodes, wires),
            all_successors(nodes.len(), flow(nodes, wires)),
            u,
            column_index(nodes, wires)[u as int] as int,
        ),
{
    let edges = flow(nodes, wires);
    let layer = layering(nodes.len(), edges);
    let at = column_index(nodes, wires);
    let succ = all_successors(nodes.len(), edges);
    law_forward_flow(nodes, wires);
    law_columns_are_layers(nodes, wires);
    lemma_anchored(nodes, layer);
    lemma_successors(edges, u);
    assert(succ[u as int] == successors(edges, u));
    assert(at[u as int] == layer[u as int]);
    assert forall|j: int| 0 <= j < succ[u as int].len() implies #[trigger] succ[u as int][j]
        < at.len() && at[succ[u as int][j] as int] > at[u as int] by {
        let w = succ[u as int][j];
        assert(edges.contains((u, w)));
        let e = choose|e: int| 0 <= e < edges.len() && edges[e] == (u, w);
        assert(edges[e].1 < nodes.len());
        assert(layer[u as int] < layer[w as int]);
        assert(layer[w as int] <= at[w as int]);
    }
}

} // verus!
