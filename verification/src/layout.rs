//! Layered layout of a whole patch along its signal flow.
//!
//! Cycles are broken, nodes go into longest-path columns with the sinks in the last one, the
//! columns are sorted to reduce crossings, and the nodes get places from the sizes of their boxes.

use vstd::prelude::*;

use crate::barycenter::contents;
use crate::columns::{
    anchor_sinks, anchored, arranges, holds_layer, law_sweeps_keep_the_layers, lemma_anchored,
    lemma_column_fits, lemma_top_layer, lemma_unsorted, lists_nodes, placed, swept, top_layer,
    unsorted, Columns, Order, SWEEPS,
};
use crate::cycles::all_successors;
use crate::dag::{
    acyclic, edges_in_range, lemma_predecessors, lemma_successors, predecessor_lists, predecessors,
    successor_lists, successors,
};
use crate::edit::ids_distinct;
use crate::flow::{
    edge_of, edges_of_wires, flow_edges, forward, forward_edges, law_flow_edges, law_forward_flow,
};
use crate::graph::{box_size, port_rows, GraphView, Microns, NODE_W_UM};
use crate::layers::{
    assign_layers, is_layering, law_layering_exists, law_layering_is_unique, layering,
};
use crate::model::{audio_output, Node, Wire};
use crate::topo::topo;

verus! {

// Places are computed in quarters of a millimeter, in which half of every extent is whole.

/// Half the width of a node.
pub const HALF_W: i128 = 56;

/// Half the width of a column without nodes.
pub const HALF_EMPTY: i128 = 2;

/// Gap between columns.
pub const COL_GAP: i128 = 72;

/// Half the gap between nodes of a column.
pub const HALF_ROW_GAP: i128 = 14;

/// So many nodes can be laid out that no height exceeds what 128 bits hold.
pub open spec fn can_lay_out(n: nat) -> bool {
    n <= 0x1_0000_0000_0000
}

/// Half the height of a node with `rows` rows of ports.
pub open spec fn half_height(rows: nat) -> int {
    17 + 10 * if rows < 1 {
        1
    } else {
        rows as int
    }
}

/// Half the heights of the nodes.
pub open spec fn half_heights(nodes: Seq<Node>, wires: Seq<Wire>) -> Seq<int> {
    Seq::new(nodes.len(), |i: int| half_height(port_rows(wires, nodes[i]@)))
}

/// The sources of the edges that enter each of the nodes `0..n`.
pub open spec fn all_predecessors(n: nat, edges: Seq<(usize, usize)>) -> Seq<Seq<usize>> {
    Seq::new(n, |v: int| predecessors(edges, v as usize))
}

/// The signal flow without the edges that close cycles.
pub open spec fn flow(nodes: Seq<Node>, wires: Seq<Wire>) -> Seq<(usize, usize)> {
    forward(nodes.len(), flow_edges(nodes, wires))
}

/// The column of each node.
pub open spec fn column_index(nodes: Seq<Node>, wires: Seq<Wire>) -> Seq<usize> {
    anchored(nodes, layering(nodes.len(), flow(nodes, wires)))
}

/// The columns, sorted to reduce crossings.
pub open spec fn arrangement(nodes: Seq<Node>, wires: Seq<Wire>) -> Order {
    let edges = flow(nodes, wires);
    swept(
        unsorted(column_index(nodes, wires)),
        all_predecessors(nodes.len(), edges),
        all_successors(nodes.len(), edges),
        SWEEPS as nat,
    )
}

/// Half the width of a column.
pub open spec fn column_half(col: Seq<usize>) -> int {
    if col.len() == 0 {
        HALF_EMPTY as int
    } else {
        HALF_W as int
    }
}

/// The left edge of column `l`.
pub open spec fn column_left(columns: Seq<Seq<usize>>, l: nat) -> int
    decreases l,
{
    if l == 0 {
        0
    } else {
        column_left(columns, (l - 1) as nat) + 2 * column_half(columns[l - 1]) + COL_GAP
    }
}

/// The middle of column `l`.
pub open spec fn column_x(columns: Seq<Seq<usize>>, l: nat) -> int {
    column_left(columns, l) + column_half(columns[l as int])
}

/// Half of what the first `k` nodes of a column take up, with the gap below each.
pub open spec fn stacked(halves: Seq<int>, col: Seq<usize>, k: nat) -> int
    decreases k,
{
    if k == 0 {
        0
    } else {
        stacked(halves, col, (k - 1) as nat) + halves[col[k - 1] as int] + HALF_ROW_GAP
    }
}

/// The middle of the `k`-th node of a column that is stacked from top to bottom around zero.
pub open spec fn stacked_y(halves: Seq<int>, col: Seq<usize>, k: nat) -> int {
    let top = HALF_ROW_GAP - stacked(halves, col, col.len());
    top + 2 * stacked(halves, col, k) + halves[col[k as int] as int]
}

/// The middles of the nodes from left to right.
pub open spec fn xs(nodes: Seq<Node>, wires: Seq<Wire>) -> Seq<int> {
    let o = arrangement(nodes, wires);
    let layer = column_index(nodes, wires);
    Seq::new(nodes.len(), |v: int| column_x(o.columns, layer[v] as nat))
}

/// The middles of the nodes from top to bottom.
pub open spec fn ys(nodes: Seq<Node>, wires: Seq<Wire>) -> Seq<int> {
    let o = arrangement(nodes, wires);
    let layer = column_index(nodes, wires);
    let halves = half_heights(nodes, wires);
    Seq::new(
        nodes.len(),
        |v: int| stacked_y(halves, o.columns[layer[v] as int], o.positions[v] as nat),
    )
}

/// The least of some numbers.
pub open spec fn least(s: Seq<int>) -> int
    decreases s.len(),
{
    if s.len() <= 1 {
        s[0]
    } else {
        let rest = least(s.drop_last());
        if s.last() < rest {
            s.last()
        } else {
            rest
        }
    }
}

/// The greatest of some numbers.
pub open spec fn greatest(s: Seq<int>) -> int
    decreases s.len(),
{
    if s.len() <= 1 {
        s[0]
    } else {
        let rest = greatest(s.drop_last());
        if s.last() > rest {
            s.last()
        } else {
            rest
        }
    }
}

/// The `v`-th of some coordinates in micrometers, counted from the middle between the least and
/// the greatest.
pub open spec fn centered(s: Seq<int>, v: int) -> int {
    125 * (2 * s[v] - (least(s) + greatest(s)))
}

/// Where node `v` goes from left to right, in micrometers.
pub open spec fn arranged_x(nodes: Seq<Node>, wires: Seq<Wire>, v: int) -> int {
    centered(xs(nodes, wires), v)
}

/// Where node `v` goes from top to bottom, in micrometers.
pub open spec fn arranged_y(nodes: Seq<Node>, wires: Seq<Wire>, v: int) -> int {
    centered(ys(nodes, wires), v)
}

/// `places` are what `place` makes of where the nodes go.
pub open spec fn places_given<P, F: Fn(Microns) -> P>(
    place: F,
    nodes: Seq<Node>,
    wires: Seq<Wire>,
    spots: Seq<Microns>,
    places: Seq<P>,
) -> bool {
    &&& spots.len() == nodes.len()
    &&& places.len() == nodes.len()
    &&& forall|v: int|
        0 <= v < nodes.len() ==> {
            &&& (#[trigger] spots[v]).x == arranged_x(nodes, wires, v)
            &&& spots[v].y == arranged_y(nodes, wires, v)
            &&& place.ensures((spots[v],), places[v])
        }
}

/// The positions of the first `k` nodes, later ones of the same id winning.
pub open spec fn laid_out<P>(nodes: Seq<Node>, places: Seq<P>, k: nat) -> Map<Seq<char>, P>
    decreases k,
{
    if k == 0 {
        Map::empty()
    } else {
        laid_out(nodes, places, (k - 1) as nat).insert(nodes[k - 1].id@, places[k - 1])
    }
}

/// A bound on half the height of a node and half the gap below it.
spec fn half_bound() -> int {
    10int * 0x1_0000_0000_0000_0000int + 31
}

/// Half the heights of the nodes.
fn measure<P: Copy>(view: &GraphView<P>) -> (r: Vec<i128>)
    ensures
        r@.len() == view.patch.nodes@.len(),
        forall|i: int|
            0 <= i < r@.len() ==> #[trigger] r@[i] == half_heights(
                view.patch.nodes@,
                view.patch.wires@,
            )[i],
        forall|i: int| 0 <= i < r@.len() ==> 0 <= #[trigger] r@[i] <= half_bound() - HALF_ROW_GAP,
{
    let mut r: Vec<i128> = Vec::new();
    let mut i: usize = 0;
    while i < view.patch.nodes.len()
        invariant
            i <= view.patch.nodes@.len(),
            r@.len() == i,
            forall|j: int|
                0 <= j < i ==> #[trigger] r@[j] == half_heights(
                    view.patch.nodes@,
                    view.patch.wires@,
                )[j],
            forall|j: int|
                0 <= j < i ==> 0 <= #[trigger] r@[j] <= half_bound() - HALF_ROW_GAP,
        decreases view.patch.nodes.len() - i,
    {
        let rows: usize = view.node_rows(&view.patch.nodes[i]);
        let shown: i128 = if rows < 1 {
            1
        } else {
            rows as i128
        };
        r.push(17 + 10 * shown);
        i += 1;
    }
    r
}

/// The middles of the columns from left to right.
fn column_centers(columns: &Vec<Vec<usize>>) -> (r: Vec<i128>)
    requires
        columns@.len() <= 0x1_0000_0000_0000,
    ensures
        r@.len() == columns@.len(),
        forall|l: int|
            0 <= l < r@.len() ==> #[trigger] r@[l] == column_x(contents(columns@), l as nat),
        forall|l: int| 0 <= l < r@.len() ==> 0 <= #[trigger] r@[l] <= 184 * columns@.len(),
{
    let ghost all = contents(columns@);
    let mut r: Vec<i128> = Vec::new();
    let mut left: i128 = 0;
    let mut l: usize = 0;
    while l < columns.len()
        invariant
            l <= columns@.len() <= 0x1_0000_0000_0000,
            all == contents(columns@),
            r@.len() == l,
            left == column_left(all, l as nat),
            0 <= left <= 184 * l,
            forall|j: int| 0 <= j < l ==> #[trigger] r@[j] == column_x(all, j as nat),
            forall|j: int| 0 <= j < l ==> 0 <= #[trigger] r@[j] <= 184 * columns@.len(),
        decreases columns.len() - l,
    {
        let half: i128 = if columns[l].len() == 0 {
            HALF_EMPTY
        } else {
            HALF_W
        };
        assert(all[l as int] == columns@[l as int]@);
        assert(half == column_half(all[l as int]));
        r.push(left + half);
        left = left + 2 * half + COL_GAP;
        l += 1;
    }
    r
}

proof fn lemma_stacked(halves: Seq<int>, col: Seq<usize>, j: nat, k: nat)
    requires
        j <= k <= col.len(),
        forall|i: int| 0 <= i < col.len() ==> #[trigger] col[i] < halves.len(),
        forall|i: int| 0 <= i < halves.len() ==> #[trigger] halves[i] >= 0,
    ensures
        0 <= stacked(halves, col, j) <= stacked(halves, col, k),
    decreases k,
{
    if k > 0 {
        assert(halves[col[k - 1] as int] >= 0);
        if j < k {
            lemma_stacked(halves, col, j, (k - 1) as nat);
        } else {
            lemma_stacked(halves, col, (k - 1) as nat, (k - 1) as nat);
        }
    }
}

/// The middles of the nodes of a column, stacked from top to bottom around zero.
fn stack_column(halves: &Vec<i128>, col: &Vec<usize>, Ghost(hs): Ghost<Seq<int>>) -> (r: Vec<i128>)
    requires
        hs.len() == halves@.len(),
        forall|i: int| 0 <= i < hs.len() ==> #[trigger] halves@[i] == hs[i],
        forall|i: int|
            0 <= i < halves@.len() ==> 0 <= #[trigger] halves@[i] <= half_bound() - HALF_ROW_GAP,
        forall|i: int| 0 <= i < col@.len() ==> #[trigger] col@[i] < halves@.len(),
        col@.len() <= 0x1_0000_0000_0000,
    ensures
        r@.len() == col@.len(),
        forall|k: int| 0 <= k < r@.len() ==> #[trigger] r@[k] == stacked_y(hs, col@, k as nat),
        forall|k: int|
            0 <= k < r@.len() ==> -0x1_0000_0000_0000 * half_bound() <= #[trigger] r@[k]
                <= 0x1_0000_0000_0000 * half_bound(),
{
    let mut total: i128 = 0;
    let mut k: usize = 0;
    while k < col.len()
        invariant
            k <= col@.len() <= 0x1_0000_0000_0000,
            hs.len() == halves@.len(),
            forall|i: int| 0 <= i < hs.len() ==> #[trigger] halves@[i] == hs[i],
            forall|i: int|
                0 <= i < halves@.len() ==> 0 <= #[trigger] halves@[i] <= half_bound()
                    - HALF_ROW_GAP,
            forall|i: int| 0 <= i < col@.len() ==> #[trigger] col@[i] < halves@.len(),
            total == stacked(hs, col@, k as nat),
            0 <= total <= k * half_bound(),
        decreases col.len() - k,
    {
        assert(halves@[col@[k as int] as int] == hs[col@[k as int] as int]);
        assert((k + 1) * half_bound() == k * half_bound() + half_bound()) by (nonlinear_arith);
        assert((k + 1) * half_bound() <= 0x1_0000_0000_0000 * half_bound()) by (nonlinear_arith)
            requires
                k + 1 <= 0x1_0000_0000_0000,
                half_bound() >= 0,
        ;
        total = total + halves[col[k]] + HALF_ROW_GAP;
        k += 1;
    }
    let mut r: Vec<i128> = Vec::new();
    let mut above: i128 = 0;
    let mut j: usize = 0;
    assert(total <= 0x1_0000_0000_0000 * half_bound()) by (nonlinear_arith)
        requires
            total <= k * half_bound(),
            k <= 0x1_0000_0000_0000,
            half_bound() >= 0,
    ;
    while j < col.len()
        invariant
            j <= col@.len(),
            hs.len() == halves@.len(),
            forall|i: int| 0 <= i < hs.len() ==> #[trigger] halves@[i] == hs[i],
            forall|i: int|
                0 <= i < halves@.len() ==> 0 <= #[trigger] halves@[i] <= half_bound()
                    - HALF_ROW_GAP,
            forall|i: int| 0 <= i < col@.len() ==> #[trigger] col@[i] < halves@.len(),
            total == stacked(hs, col@, col@.len()),
            0 <= total <= 0x1_0000_0000_0000 * half_bound(),
            above == stacked(hs, col@, j as nat),
            0 <= above <= total,
            r@.len() == j,
            forall|i: int| 0 <= i < j ==> #[trigger] r@[i] == stacked_y(hs, col@, i as nat),
            forall|i: int|
                0 <= i < j ==> -0x1_0000_0000_0000 * half_bound() <= #[trigger] r@[i]
                    <= 0x1_0000_0000_0000 * half_bound(),
        decreases col.len() - j,
    {
        let half: i128 = halves[col[j]];
        proof {
            assert(half == hs[col@[j as int] as int]);
            assert forall|i: int| 0 <= i < hs.len() implies #[trigger] hs[i] >= 0 by {
                assert(halves@[i] == hs[i]);
            }
            lemma_stacked(hs, col@, j as nat + 1, col@.len());
        }
        r.push(HALF_ROW_GAP - total + 2 * above + half);
        above = above + half + HALF_ROW_GAP;
        j += 1;
    }
    r
}

/// The numbers as integers without bounds.
pub open spec fn ints(s: Seq<i128>) -> Seq<int> {
    s.map_values(|x: i128| x as int)
}

/// The least and the greatest of some numbers.
fn extremes(s: &Vec<i128>) -> (r: (i128, i128))
    requires
        s@.len() > 0,
    ensures
        r.0 == least(ints(s@)),
        r.1 == greatest(ints(s@)),
        exists|i: int| 0 <= i < s@.len() && #[trigger] s@[i] == r.0,
        exists|i: int| 0 <= i < s@.len() && #[trigger] s@[i] == r.1,
{
    let mut lo: i128 = s[0];
    let mut hi: i128 = s[0];
    let mut i: usize = 1;
    assert(ints(s@).take(1)[0] == s@[0]);
    while i < s.len()
        invariant
            1 <= i <= s@.len(),
            lo == least(ints(s@).take(i as int)),
            hi == greatest(ints(s@).take(i as int)),
            exists|j: int| 0 <= j < s@.len() && #[trigger] s@[j] == lo,
            exists|j: int| 0 <= j < s@.len() && #[trigger] s@[j] == hi,
        decreases s.len() - i,
    {
        proof {
            assert(ints(s@).take(i + 1).drop_last() =~= ints(s@).take(i as int));
            assert(ints(s@).take(i + 1).last() == s@[i as int]);
        }
        if s[i] < lo {
            lo = s[i];
        }
        if s[i] > hi {
            hi = s[i];
        }
        i += 1;
    }
    assert(ints(s@).take(i as int) =~= ints(s@));
    (lo, hi)
}

/// The signal flow has no cycle, the columns are its layers with the sinks moved to the last one,
/// and sorting them keeps their nodes.
pub proof fn law_columns_are_layers(nodes: Seq<Node>, wires: Seq<Wire>)
    requires
        nodes.len() <= usize::MAX,
        wires.len() <= usize::MAX,
    ensures
        layering(nodes.len(), flow(nodes, wires)).len() == nodes.len(),
        is_layering(flow(nodes, wires), layering(nodes.len(), flow(nodes, wires))),
        column_index(nodes, wires).len() == nodes.len(),
        nodes.len() > 0 ==> top_layer(column_index(nodes, wires)) < nodes.len(),
        arranges(arrangement(nodes, wires), column_index(nodes, wires)),
{
    let edges = flow(nodes, wires);
    let layer = layering(nodes.len(), edges);
    law_forward_flow(nodes, wires);
    law_layering_exists(nodes.len(), edges);
    lemma_anchored(nodes, layer);
    lemma_top_layer(layer);
    lemma_unsorted(column_index(nodes, wires));
    law_sweeps_keep_the_layers(
        unsorted(column_index(nodes, wires)),
        column_index(nodes, wires),
        all_predecessors(nodes.len(), edges),
        all_successors(nodes.len(), edges),
        SWEEPS as nat,
    );
}

/// The lists of successors and predecessors hold nodes.
proof fn lemma_neighbors(n: nat, edges: Seq<(usize, usize)>)
    requires
        n <= usize::MAX,
        edges_in_range(n as int, edges),
    ensures
        lists_nodes(all_successors(n, edges), n),
        lists_nodes(all_predecessors(n, edges), n),
{
    let succ = all_successors(n, edges);
    let preds = all_predecessors(n, edges);
    assert forall|u: int, j: int| 0 <= u < succ.len() && 0 <= j < succ[u].len() implies
        #[trigger] succ[u][j] < n by {
        lemma_successors(edges, u as usize);
        let e = (u as usize, successors(edges, u as usize)[j]);
        assert(edges.contains(e));
    }
    assert forall|u: int, j: int| 0 <= u < preds.len() && 0 <= j < preds[u].len() implies
        #[trigger] preds[u][j] < n by {
        lemma_predecessors(edges, u as usize);
        let e = (predecessors(edges, u as usize)[j], u as usize);
        assert(edges.contains(e));
    }
}

/// The columns of the nodes, sorted to reduce crossings, and the column of each node.
fn arrange<P: Copy>(view: &GraphView<P>) -> (r: (Columns, Vec<usize>))
    requires
        view.patch.nodes@.len() > 0,
    ensures
        r.0@ == arrangement(view.patch.nodes@, view.patch.wires@),
        r.1@ == column_index(view.patch.nodes@, view.patch.wires@),
{
    let n: usize = view.patch.nodes.len();
    let ghost nodes = view.patch.nodes@;
    let ghost wires = view.patch.wires@;
    proof {
        assert(nodes.len() == n);
        assert(wires.len() == view.patch.wires.len());
        law_flow_edges(nodes, wires);
        law_columns_are_layers(nodes, wires);
    }
    let edges = edges_of_wires(&view.patch.nodes, &view.patch.wires);
    let fwd = forward_edges(n, &edges);
    let succ = successor_lists(n, &fwd);
    let preds = predecessor_lists(n, &fwd);
    let order = topo(n, &fwd);
    let mut layer = assign_layers(n, &fwd, &order);
    proof {
        law_layering_is_unique(fwd@, layer@, layering(n as nat, fwd@));
        lemma_neighbors(n as nat, fwd@);
        assert(contents(succ@) =~= all_successors(n as nat, fwd@)) by {
            assert forall|u: int| 0 <= u < n implies contents(succ@)[u] == all_successors(
                n as nat,
                fwd@,
            )[u] by {
                assert(succ@[u as usize as int]@ == successors(fwd@, u as usize));
            }
        }
        assert(contents(preds@) =~= all_predecessors(n as nat, fwd@)) by {
            assert forall|u: int| 0 <= u < n implies contents(preds@)[u] == all_predecessors(
                n as nat,
                fwd@,
            )[u] by {
                assert(preds@[u as usize as int]@ == predecessors(fwd@, u as usize));
            }
        }
    }
    anchor_sinks(&view.patch.nodes, &mut layer);
    let mut columns = Columns::group(&layer);
    columns.reduce_crossings(&preds, &succ, Ghost(layer@));
    (columns, layer)
}

/// Where each node goes.
fn spots_of<P: Copy>(view: &GraphView<P>) -> (r: Vec<Microns>)
    requires
        view.patch.nodes@.len() > 0,
        can_lay_out(view.patch.nodes@.len()),
    ensures
        r@.len() == view.patch.nodes@.len(),
        forall|v: int|
            0 <= v < r@.len() ==> (#[trigger] r@[v]).x == arranged_x(
                view.patch.nodes@,
                view.patch.wires@,
                v,
            ) && r@[v].y == arranged_y(view.patch.nodes@, view.patch.wires@, v),
{
    let ghost nodes = view.patch.nodes@;
    let ghost wires = view.patch.wires@;
    let ghost hs = half_heights(nodes, wires);
    let n: usize = view.patch.nodes.len();
    let halves = measure(view);
    let (arranged, layer) = arrange(view);
    let ghost o = arranged@;
    proof {
        assert(nodes.len() == n);
        assert(wires.len() == view.patch.wires.len());
        law_columns_are_layers(nodes, wires);
        lemma_top_layer(layer@);
    }
    let col_x = column_centers(&arranged.columns);
    let mut col_y: Vec<Vec<i128>> = Vec::new();
    let mut l: usize = 0;
    while l < arranged.columns.len()
        invariant
            l <= arranged.columns@.len(),
            n <= 0x1_0000_0000_0000,
            layer@.len() == n,
            o == arranged@,
            arranges(o, layer@),
            hs.len() == n,
            halves@.len() == n,
            forall|i: int| 0 <= i < hs.len() ==> #[trigger] halves@[i] == hs[i],
            forall|i: int|
                0 <= i < halves@.len() ==> 0 <= #[trigger] halves@[i] <= half_bound()
                    - HALF_ROW_GAP,
            col_y@.len() == l,
            forall|m: int|
                0 <= m < l ==> column_stacked(hs, o.columns[m], #[trigger] col_y@[m]@),
        decreases arranged.columns.len() - l,
    {
        proof {
            assert(o.columns[l as int] == arranged.columns@[l as int]@);
            assert(holds_layer(o.columns[l as int], layer@, l as int));
            lemma_column_fits(o.columns[l as int], layer@, l as int);
        }
        let stack = stack_column(&halves, &arranged.columns[l], Ghost(hs));
        assert(column_stacked(hs, o.columns[l as int], stack@));
        col_y.push(stack);
        l += 1;
    }
    let ghost all_x = xs(nodes, wires);
    let ghost all_y = ys(nodes, wires);
    let mut x: Vec<i128> = Vec::new();
    let mut y: Vec<i128> = Vec::new();
    let mut v: usize = 0;
    while v < n
        invariant
            v <= n,
            0 < n <= 0x1_0000_0000_0000,
            nodes.len() == n,
            o == arranged@,
            o == arrangement(nodes, wires),
            layer@ == column_index(nodes, wires),
            layer@.len() == n,
            arranges(o, layer@),
            top_layer(layer@) < n,
            forall|i: int| 0 <= i < layer@.len() ==> #[trigger] layer@[i] <= top_layer(layer@),
            hs == half_heights(nodes, wires),
            all_x == xs(nodes, wires),
            all_y == ys(nodes, wires),
            col_x@.len() == o.columns.len(),
            forall|l: int|
                0 <= l < col_x@.len() ==> #[trigger] col_x@[l] == column_x(o.columns, l as nat),
            forall|l: int|
                0 <= l < col_x@.len() ==> 0 <= #[trigger] col_x@[l] <= 184 * o.columns.len(),
            col_y@.len() == o.columns.len(),
            forall|m: int|
                0 <= m < col_y@.len() ==> column_stacked(
                    hs,
                    o.columns[m],
                    #[trigger] col_y@[m]@,
                ),
            x@.len() == v,
            y@.len() == v,
            forall|i: int| 0 <= i < v ==> #[trigger] x@[i] == all_x[i],
            forall|i: int| 0 <= i < v ==> #[trigger] y@[i] == all_y[i],
            forall|i: int|
                0 <= i < v ==> 0 <= #[trigger] x@[i] <= 184 * 0x1_0000_0000_0000,
            forall|i: int|
                0 <= i < v ==> -0x1_0000_0000_0000 * half_bound() <= #[trigger] y@[i]
                    <= 0x1_0000_0000_0000 * half_bound(),
        decreases n - v,
    {
        proof {
            assert(placed(o, layer@, v as int));
            assert(layer@[v as int] < o.columns.len());
            assert(column_stacked(
                hs,
                o.columns[layer@[v as int] as int],
                col_y@[layer@[v as int] as int]@,
            ));
        }
        let l: usize = layer[v];
        let k: usize = arranged.positions[v];
        x.push(col_x[l]);
        y.push(col_y[l][k]);
        v += 1;
    }
    let (min_x, max_x) = extremes(&x);
    let (min_y, max_y) = extremes(&y);
    proof {
        assert(ints(x@) =~= all_x);
        assert(ints(y@) =~= all_y);
    }
    let mut r: Vec<Microns> = Vec::new();
    let mut i: usize = 0;
    while i < n
        invariant
            i <= n,
            x@.len() == n,
            y@.len() == n,
            nodes.len() == n,
            forall|j: int| 0 <= j < n ==> #[trigger] x@[j] == xs(nodes, wires)[j],
            forall|j: int| 0 <= j < n ==> #[trigger] y@[j] == ys(nodes, wires)[j],
            min_x == least(xs(nodes, wires)),
            max_x == greatest(xs(nodes, wires)),
            min_y == least(ys(nodes, wires)),
            max_y == greatest(ys(nodes, wires)),
            0 <= min_x <= 184 * 0x1_0000_0000_0000,
            0 <= max_x <= 184 * 0x1_0000_0000_0000,
            -0x1_0000_0000_0000 * half_bound() <= min_y <= 0x1_0000_0000_0000 * half_bound(),
            -0x1_0000_0000_0000 * half_bound() <= max_y <= 0x1_0000_0000_0000 * half_bound(),
            forall|j: int|
                0 <= j < n ==> 0 <= #[trigger] x@[j] <= 184 * 0x1_0000_0000_0000,
            forall|j: int|
                0 <= j < n ==> -0x1_0000_0000_0000 * half_bound() <= #[trigger] y@[j]
                    <= 0x1_0000_0000_0000 * half_bound(),
            r@.len() == i,
            forall|j: int|
                0 <= j < i ==> (#[trigger] r@[j]).x == arranged_x(nodes, wires, j) && r@[j].y
                    == arranged_y(nodes, wires, j),
        decreases n - i,
    {
        let cx: i128 = 125 * (2 * x[i] - (min_x + max_x));
        let cy: i128 = 125 * (2 * y[i] - (min_y + max_y));
        r.push(Microns { x: cx, y: cy });
        i += 1;
    }
    r
}

/// `stack` are the middles of the nodes of `col`.
spec fn column_stacked(halves: Seq<int>, col: Seq<usize>, stack: Seq<i128>) -> bool {
    &&& stack.len() == col.len()
    &&& forall|k: int| 0 <= k < stack.len() ==> #[trigger] stack[k] == stacked_y(halves, col, k as nat)
    &&& forall|k: int|
        0 <= k < stack.len() ==> -0x1_0000_0000_0000 * half_bound() <= #[trigger] stack[k]
            <= 0x1_0000_0000_0000 * half_bound()
}

/// `after` is `before` with every node where the layers along the signal flow put it; an empty
/// patch keeps its layout.
pub open spec fn rearranged<P, F: Fn(Microns) -> P>(
    place: F,
    before: GraphView<P>,
    after: GraphView<P>,
) -> bool {
    &&& after.patch.nodes == before.patch.nodes
    &&& after.patch.wires == before.patch.wires
    &&& after.registry == before.registry
    &&& if before.patch.nodes@.len() == 0 {
        after.patch.layout == before.patch.layout
    } else {
        exists|spots: Seq<Microns>, places: Seq<P>|
            {
                &&& #[trigger] places_given(
                    place,
                    before.patch.nodes@,
                    before.patch.wires@,
                    spots,
                    places,
                )
                &&& after.patch.layout@ == laid_out(
                    before.patch.nodes@,
                    places,
                    before.patch.nodes@.len(),
                )
            }
    }
}

/// Arranges every node of the patch in layers along the signal flow, and replaces the layout by
/// the positions that `place` gives for where the nodes go. An empty patch is left as it is.
pub fn autolayout_full<P: Copy, F: Fn(Microns) -> P>(view: &mut GraphView<P>, place: &F)
    requires
        old(view).wf(),
        can_lay_out(old(view).patch.nodes@.len()),
        forall|m: Microns| #[trigger] place.requires((m,)),
    ensures
        final(view).wf(),
        rearranged(*place, *old(view), *final(view)),
{
    if view.patch.nodes.len() == 0 {
        return;
    }
    let spots = spots_of(view);
    let ghost nodes = view.patch.nodes@;
    let ghost wires = view.patch.wires@;
    let ghost mut places: Seq<P> = Seq::empty();
    view.patch.layout.clear();
    let mut i: usize = 0;
    while i < view.patch.nodes.len()
        invariant
            i <= nodes.len(),
            forall|m: Microns| #[trigger] place.requires((m,)),
            nodes == view.patch.nodes@,
            view.wf(),
            view.patch.nodes == old(view).patch.nodes,
            view.patch.wires == old(view).patch.wires,
            view.registry == old(view).registry,
            spots@.len() == nodes.len(),
            places.len() == i,
            forall|v: int| 0 <= v < i ==> place.ensures((#[trigger] spots@[v],), places[v]),
            view.patch.layout@ == laid_out(nodes, places, i as nat),
        decreases view.patch.nodes.len() - i,
    {
        let position = place(spots[i]);
        let id: String = view.patch.nodes[i].id.clone();
        view.patch.layout.insert(id, position);
        proof {
            lemma_laid_out(nodes, places, places.push(position), i as nat);
            places = places.push(position);
        }
        i += 1;
    }
    assert(places_given(*place, nodes, wires, spots@, places));
}

proof fn lemma_laid_out<P>(nodes: Seq<Node>, a: Seq<P>, b: Seq<P>, k: nat)
    requires
        k <= a.len(),
        k <= b.len(),
        forall|i: int| 0 <= i < k ==> a[i] == b[i],
    ensures
        laid_out(nodes, a, k) == laid_out(nodes, b, k),
    decreases k,
{
    if k > 0 {
        lemma_laid_out(nodes, a, b, (k - 1) as nat);
    }
}

/// The layout has a position for every node, and for nothing else. Where no two nodes have the
/// same id, each has its own.
pub proof fn law_every_node_is_positioned<P>(nodes: Seq<Node>, places: Seq<P>, n: nat)
    requires
        n <= nodes.len(),
    ensures
        forall|id: Seq<char>| #[trigger]
            laid_out(nodes, places, n).contains_key(id) <==> exists|v: int|
                0 <= v < n && (#[trigger] nodes[v]).id@ == id,
        laid_out(nodes, places, n).dom().finite(),
        ids_distinct(nodes) ==> laid_out(nodes, places, n).len() == n,
        ids_distinct(nodes) ==> forall|v: int|
            0 <= v < n ==> laid_out(nodes, places, n)[(#[trigger] nodes[v]).id@] == places[v],
    decreases n,
{
    if n > 0 {
        let before = laid_out(nodes, places, (n - 1) as nat);
        let after = laid_out(nodes, places, n);
        let last = nodes[n - 1].id@;
        law_every_node_is_positioned(nodes, places, (n - 1) as nat);
        assert(after.dom() =~= before.dom().insert(last));
        assert forall|id: Seq<char>| #[trigger] after.contains_key(id) <==> exists|v: int|
            0 <= v < n && (#[trigger] nodes[v]).id@ == id by {
            if after.contains_key(id) && id != last {
                assert(before.contains_key(id));
                let v = choose|v: int| 0 <= v < n - 1 && (#[trigger] nodes[v]).id@ == id;
                assert(0 <= v < n && nodes[v].id@ == id);
            }
            if exists|v: int| 0 <= v < n && (#[trigger] nodes[v]).id@ == id {
                let v = choose|v: int| 0 <= v < n && (#[trigger] nodes[v]).id@ == id;
                if v < n - 1 {
                    assert(before.contains_key(id));
                }
            }
        }
        if ids_distinct(nodes) {
            if before.contains_key(last) {
                let v = choose|v: int| 0 <= v < n - 1 && (#[trigger] nodes[v]).id@ == last;
                assert(nodes[v].id@ != nodes[n - 1].id@);
            }
            assert forall|v: int| 0 <= v < n implies after[(#[trigger] nodes[v]).id@]
                == places[v] by {
                if v < n - 1 {
                    assert(nodes[v].id@ != nodes[n - 1].id@);
                }
            }
        }
    }
}

proof fn lemma_column_left(columns: Seq<Seq<usize>>, l: nat, m: nat)
    requires
        l <= m,
    ensures
        column_left(columns, l) <= column_left(columns, m),
    decreases m,
{
    if l < m {
        lemma_column_left(columns, l, (m - 1) as nat);
    }
}

/// Columns further right have their middles further right, by both halves and the gap.
proof fn lemma_column_gap(columns: Seq<Seq<usize>>, l: nat, m: nat)
    requires
        l < m,
    ensures
        column_x(columns, m) - column_x(columns, l) >= column_half(columns[l as int])
            + column_half(columns[m as int]) + COL_GAP,
{
    lemma_column_left(columns, l + 1, m);
}

/// The signal flows from left to right: an edge that closes no cycle leads to a node further right,
/// unless it leaves a sink, which stands in the last column whatever it leads to.
pub proof fn law_flow_runs_left_to_right(
    nodes: Seq<Node>,
    wires: Seq<Wire>,
    u: usize,
    v: usize,
)
    requires
        nodes.len() <= usize::MAX,
        wires.len() <= usize::MAX,
        flow(nodes, wires).contains((u, v)),
        nodes[u as int].ty@ != audio_output(),
    ensures
        u < nodes.len(),
        v < nodes.len(),
        arranged_x(nodes, wires, u as int) < arranged_x(nodes, wires, v as int),
{
    let edges = flow(nodes, wires);
    law_forward_flow(nodes, wires);
    law_columns_are_layers(nodes, wires);
    let e = choose|e: int| 0 <= e < edges.len() && edges[e] == (u, v);
    assert(edges[e].0 < nodes.len() && edges[e].1 < nodes.len());
    let layer = layering(nodes.len(), edges);
    assert(layer[u as int] < layer[v as int]);
    lemma_anchored(nodes, layer);
    let at = column_index(nodes, wires);
    assert(at[u as int] == layer[u as int]);
    assert(layer[v as int] <= at[v as int]);
    lemma_column_gap(arrangement(nodes, wires).columns, at[u as int] as nat, at[v as int] as nat);
}

proof fn lemma_wire_gives_edge(nodes: Seq<Node>, wires: Seq<Wire>, i: int)
    requires
        0 <= i < wires.len(),
        edge_of(nodes, wires[i]) is Some,
    ensures
        flow_edges(nodes, wires).contains(edge_of(nodes, wires[i])->0),
    decreases wires.len(),
{
    let rest = wires.drop_last();
    let before = flow_edges(nodes, rest);
    let all = flow_edges(nodes, wires);
    let e = edge_of(nodes, wires[i])->0;
    if i == wires.len() - 1 {
        if !before.contains(e) {
            assert(all[all.len() - 1] == e);
        }
    } else {
        assert(rest[i] == wires[i]);
        lemma_wire_gives_edge(nodes, rest, i);
        let k = choose|k: int| 0 <= k < before.len() && before[k] == e;
        assert(all[k] == e);
    }
}

/// In a patch without feedback every wire that does not leave a sink leads to a node further
/// right.
pub proof fn law_wires_run_left_to_right(nodes: Seq<Node>, wires: Seq<Wire>, i: int)
    requires
        nodes.len() <= usize::MAX,
        wires.len() <= usize::MAX,
        acyclic(flow_edges(nodes, wires)),
        0 <= i < wires.len(),
        edge_of(nodes, wires[i]) is Some,
        nodes[(edge_of(nodes, wires[i])->0).0 as int].ty@ != audio_output(),
    ensures
        arranged_x(nodes, wires, (edge_of(nodes, wires[i])->0).0 as int) < arranged_x(
            nodes,
            wires,
            (edge_of(nodes, wires[i])->0).1 as int,
        ),
{
    law_forward_flow(nodes, wires);
    lemma_wire_gives_edge(nodes, wires, i);
    let (u, v) = edge_of(nodes, wires[i])->0;
    law_flow_runs_left_to_right(nodes, wires, u, v);
}

/// No node stands further right than a sink.
pub proof fn law_sinks_are_rightmost(nodes: Seq<Node>, wires: Seq<Wire>, sink: int, v: int)
    requires
        nodes.len() <= usize::MAX,
        wires.len() <= usize::MAX,
        0 <= sink < nodes.len(),
        0 <= v < nodes.len(),
        nodes[sink].ty@ == audio_output(),
    ensures
        arranged_x(nodes, wires, v) <= arranged_x(nodes, wires, sink),
{
    law_columns_are_layers(nodes, wires);
    let layer = layering(nodes.len(), flow(nodes, wires));
    let at = column_index(nodes, wires);
    lemma_anchored(nodes, layer);
    lemma_top_layer(layer);
    assert(at[sink] == top_layer(layer));
    assert(at[v] <= top_layer(layer));
    if at[v] < at[sink] {
        lemma_column_gap(arrangement(nodes, wires).columns, at[v] as nat, at[sink] as nat);
    }
}

/// The box of a node is twice as high as half its height, and as wide as a column that has nodes.
pub proof fn law_half_heights_are_of_boxes(rows: nat)
    requires
        rows <= usize::MAX,
    ensures
        500 * half_height(rows) == box_size(rows).y,
        500 * HALF_W == box_size(rows).x == NODE_W_UM,
{
}

/// Lower in a column is further down, by both halves and the gap.
proof fn lemma_stack_gap(halves: Seq<int>, col: Seq<usize>, j: nat, k: nat)
    requires
        j < k < col.len(),
        forall|i: int| 0 <= i < col.len() ==> #[trigger] col[i] < halves.len(),
        forall|i: int| 0 <= i < halves.len() ==> #[trigger] halves[i] >= 0,
    ensures
        stacked_y(halves, col, k) - stacked_y(halves, col, j) >= halves[col[j as int] as int]
            + halves[col[k as int] as int] + 2 * HALF_ROW_GAP,
{
    lemma_stacked(halves, col, j + 1, k);
}

/// No two boxes overlap: boxes side by side have at least 18 mm between them, and those in one
/// column at least 7 mm.
pub proof fn law_boxes_do_not_overlap(nodes: Seq<Node>, wires: Seq<Wire>, u: int, v: int)
    requires
        nodes.len() <= usize::MAX,
        wires.len() <= usize::MAX,
        0 <= u < nodes.len(),
        0 <= v < nodes.len(),
        u != v,
    ensures
        ({
            let dx = arranged_x(nodes, wires, v) - arranged_x(nodes, wires, u);
            let dy = arranged_y(nodes, wires, v) - arranged_y(nodes, wires, u);
            let wide = NODE_W_UM + 18000;
            let high = 250 * (half_heights(nodes, wires)[u] + half_heights(nodes, wires)[v]) + 7000;
            if dx == 0 {
                dy >= high || -dy >= high
            } else {
                dx >= wide || -dx >= wide
            }
        }),
{
    law_columns_are_layers(nodes, wires);
    let o = arrangement(nodes, wires);
    let at = column_index(nodes, wires);
    let halves = half_heights(nodes, wires);
    lemma_top_layer(at);
    assert(placed(o, at, u));
    assert(placed(o, at, v));
    if at[u] < at[v] {
        lemma_column_gap(o.columns, at[u] as nat, at[v] as nat);
    } else if at[v] < at[u] {
        lemma_column_gap(o.columns, at[v] as nat, at[u] as nat);
    } else {
        let col = o.columns[at[u] as int];
        assert(holds_layer(col, at, at[u] as int));
        lemma_column_fits(col, at, at[u] as int);
        if o.positions[u] < o.positions[v] {
            lemma_stack_gap(halves, col, o.positions[u] as nat, o.positions[v] as nat);
        } else {
            lemma_stack_gap(halves, col, o.positions[v] as nat, o.positions[u] as nat);
        }
    }
}

proof fn lemma_extremes(s: Seq<int>) -> (r: (int, int))
    requires
        s.len() > 0,
    ensures
        0 <= r.0 < s.len() && s[r.0] == least(s),
        0 <= r.1 < s.len() && s[r.1] == greatest(s),
        forall|i: int| 0 <= i < s.len() ==> least(s) <= #[trigger] s[i] <= greatest(s),
    decreases s.len(),
{
    if s.len() == 1 {
        (0, 0)
    } else {
        let rest = s.drop_last();
        let (a, b) = lemma_extremes(rest);
        let last = s.len() - 1;
        assert forall|i: int| 0 <= i < s.len() implies least(s) <= #[trigger] s[i] <= greatest(
            s,
        ) by {
            if i < last {
                assert(rest[i] == s[i]);
            }
        }
        (
            if s.last() < least(rest) {
                last
            } else {
                a
            },
            if s.last() > greatest(rest) {
                last
            } else {
                b
            },
        )
    }
}

/// The layout is centered on the origin: the leftmost and the rightmost node are equally far from
/// it, and so are the topmost and the lowest.
pub proof fn law_layout_is_centered(nodes: Seq<Node>, wires: Seq<Wire>) -> (r: (int, int, int, int))
    requires
        nodes.len() > 0,
    ensures
        0 <= r.0 < nodes.len() && 0 <= r.1 < nodes.len(),
        0 <= r.2 < nodes.len() && 0 <= r.3 < nodes.len(),
        forall|v: int|
            0 <= v < nodes.len() ==> arranged_x(nodes, wires, r.0) <= #[trigger] arranged_x(
                nodes,
                wires,
                v,
            ) <= arranged_x(nodes, wires, r.1),
        forall|v: int|
            0 <= v < nodes.len() ==> arranged_y(nodes, wires, r.2) <= #[trigger] arranged_y(
                nodes,
                wires,
                v,
            ) <= arranged_y(nodes, wires, r.3),
        arranged_x(nodes, wires, r.0) == -arranged_x(nodes, wires, r.1),
        arranged_y(nodes, wires, r.2) == -arranged_y(nodes, wires, r.3),
{
    let (a, b) = lemma_extremes(xs(nodes, wires));
    let (c, d) = lemma_extremes(ys(nodes, wires));
    assert forall|v: int| 0 <= v < nodes.len() implies arranged_x(nodes, wires, a)
        <= #[trigger] arranged_x(nodes, wires, v) <= arranged_x(nodes, wires, b) by {
        assert(least(xs(nodes, wires)) <= xs(nodes, wires)[v]);
    }
    assert forall|v: int| 0 <= v < nodes.len() implies arranged_y(nodes, wires, c)
        <= #[trigger] arranged_y(nodes, wires, v) <= arranged_y(nodes, wires, d) by {
        assert(least(ys(nodes, wires)) <= ys(nodes, wires)[v]);
    }
    (a, b, c, d)
}

/// `place` is a function: it makes one position of each spot.
pub open spec fn is_function<P, F: Fn(Microns) -> P>(place: F) -> bool {
    forall|m: Microns, a: P, b: P| #[trigger]
        place.ensures((m,), a) && #[trigger] place.ensures((m,), b) ==> a == b
}

/// The layout depends on the nodes and wires alone: patches that have the same get the same,
/// whatever their layouts were.
pub proof fn law_layout_is_deterministic<P, F: Fn(Microns) -> P>(
    place: F,
    before_a: GraphView<P>,
    after_a: GraphView<P>,
    before_b: GraphView<P>,
    after_b: GraphView<P>,
)
    requires
        is_function(place),
        before_a.patch.nodes@ == before_b.patch.nodes@,
        before_a.patch.wires@ == before_b.patch.wires@,
        before_a.patch.nodes@.len() > 0,
        rearranged(place, before_a, after_a),
        rearranged(place, before_b, after_b),
    ensures
        after_a.patch.layout@ == after_b.patch.layout@,
{
    let nodes = before_a.patch.nodes@;
    let wires = before_a.patch.wires@;
    let (s, p) = choose|s: Seq<Microns>, p: Seq<P>|
        #[trigger] places_given(place, nodes, wires, s, p) && after_a.patch.layout@ == laid_out(
            nodes,
            p,
            nodes.len(),
        );
    let (t, q) = choose|t: Seq<Microns>, q: Seq<P>|
        #[trigger] places_given(place, nodes, wires, t, q) && after_b.patch.layout@ == laid_out(
            nodes,
            q,
            nodes.len(),
        );
    assert forall|v: int| 0 <= v < nodes.len() implies p[v] == q[v] by {
        assert(s[v] == t[v]);
        assert(place.ensures((s[v],), p[v]));
        assert(place.ensures((s[v],), q[v]));
    }
    lemma_laid_out(nodes, p, q, nodes.len());
}

/// Arranging the nodes a second time changes nothing.
pub proof fn law_layout_is_idempotent<P, F: Fn(Microns) -> P>(
    place: F,
    before: GraphView<P>,
    once: GraphView<P>,
    twice: GraphView<P>,
)
    requires
        is_function(place),
        rearranged(place, before, once),
        rearranged(place, once, twice),
    ensures
        twice.patch.nodes == once.patch.nodes,
        twice.patch.wires == once.patch.wires,
        twice.registry == once.registry,
        twice.patch.layout@ == once.patch.layout@,
{
    if before.patch.nodes@.len() > 0 {
        law_layout_is_deterministic(place, before, once, once, twice);
    }
}

} // verus!
