//! How the columns of the layout are sorted, in terms of the places of neighboring nodes.

use vstd::prelude::*;

use crate::barycenter::{
    in_stable_order, law_barycenter_sort_is_stable, position_sum, pulls_before, rightly_before,
    sorted_by_pull,
};
use crate::columns::{
    arranges, column_of, column_sorted, holds_layer, lemma_column_fits, lemma_column_sorted,
    lemma_swept_left, lemma_swept_right, lemma_top_layer, placed, renumbered, swept, swept_left,
    swept_right, Order,
};
use crate::dag::{predecessors, successors};

verus! {

/// The successors of a node are the targets of the edges that leave it, in the order of the edges.
/// The result says which edges these are.
pub proof fn law_successors_are_in_edge_order(edges: Seq<(usize, usize)>, u: usize) -> (from: Seq<
    int,
>)
    ensures
        from.len() == successors(edges, u).len(),
        forall|k: int|
            0 <= k < from.len() ==> 0 <= #[trigger] from[k] < edges.len() && edges[from[k]] == (
                u,
                successors(edges, u)[k],
            ),
        forall|j: int, k: int| 0 <= j < k < from.len() ==> #[trigger] from[j] < #[trigger] from[k],
        forall|i: int| 0 <= i < edges.len() && (#[trigger] edges[i]).0 == u ==> from.contains(i),
    decreases edges.len(),
{
    if edges.len() == 0 {
        Seq::empty()
    } else {
        let rest = edges.drop_last();
        let last = edges.len() - 1;
        let before = law_successors_are_in_edge_order(rest, u);
        let from = if edges.last().0 == u {
            before.push(last)
        } else {
            before
        };
        assert forall|k: int| 0 <= k < from.len() implies 0 <= #[trigger] from[k] < edges.len()
            && edges[from[k]] == (u, successors(edges, u)[k]) by {
            if k < before.len() {
                assert(rest[before[k]] == edges[before[k]]);
            }
        }
        assert forall|i: int|
            0 <= i < edges.len() && (#[trigger] edges[i]).0 == u implies from.contains(i) by {
            if i < last {
                assert(rest[i] == edges[i]);
                assert(before.contains(i));
                let k = choose|k: int| 0 <= k < before.len() && before[k] == i;
                assert(from[k] == i);
            } else {
                assert(from[before.len() as int] == i);
            }
        }
        from
    }
}

/// The predecessors of a node are the sources of the edges that enter it, in the order of the edges.
/// The result says which edges these are.
pub proof fn law_predecessors_are_in_edge_order(
    edges: Seq<(usize, usize)>,
    v: usize,
) -> (from: Seq<int>)
    ensures
        from.len() == predecessors(edges, v).len(),
        forall|k: int|
            0 <= k < from.len() ==> 0 <= #[trigger] from[k] < edges.len() && edges[from[k]] == (
                predecessors(edges, v)[k],
                v,
            ),
        forall|j: int, k: int| 0 <= j < k < from.len() ==> #[trigger] from[j] < #[trigger] from[k],
        forall|i: int| 0 <= i < edges.len() && (#[trigger] edges[i]).1 == v ==> from.contains(i),
    decreases edges.len(),
{
    if edges.len() == 0 {
        Seq::empty()
    } else {
        let rest = edges.drop_last();
        let last = edges.len() - 1;
        let before = law_predecessors_are_in_edge_order(rest, v);
        let from = if edges.last().1 == v {
            before.push(last)
        } else {
            before
        };
        assert forall|k: int| 0 <= k < from.len() implies 0 <= #[trigger] from[k] < edges.len()
            && edges[from[k]] == (predecessors(edges, v)[k], v) by {
            if k < before.len() {
                assert(rest[before[k]] == edges[before[k]]);
            }
        }
        assert forall|i: int|
            0 <= i < edges.len() && (#[trigger] edges[i]).1 == v implies from.contains(i) by {
            if i < last {
                assert(rest[i] == edges[i]);
                assert(before.contains(i));
                let k = choose|k: int| 0 <= k < before.len() && before[k] == i;
                assert(from[k] == i);
            } else {
                assert(from[before.len() as int] == i);
            }
        }
        from
    }
}

/// The sum of the positions of two lists of nodes is that of the one and that of the other; of one
/// node it is its position.
pub proof fn law_positions_add_up(a: Seq<usize>, b: Seq<usize>, v: usize, positions: Seq<usize>)
    ensures
        position_sum(Seq::empty(), positions) == 0,
        position_sum(seq![v], positions) == positions[v as int],
        position_sum(a + b, positions) == position_sum(a, positions) + position_sum(b, positions),
    decreases b.len(),
{
    let one = seq![v];
    assert(one.drop_last() =~= Seq::empty());
    assert(position_sum(one.drop_last(), positions) == 0);
    if b.len() == 0 {
        assert(a + b =~= a);
    } else {
        law_positions_add_up(a, b.drop_last(), v, positions);
        assert((a + b).drop_last() =~= a + b.drop_last());
        assert((a + b).last() == b.last());
    }
}

/// Of two nodes with neighbors, the one whose neighbors have the lesser average position is pulled
/// before the other; a node without neighbors is pulled to where it is.
pub proof fn law_lesser_average_pulls_before(
    neighbors: Seq<Seq<usize>>,
    positions: Seq<usize>,
    a: usize,
    b: usize,
)
    ensures
        ({
            let na = neighbors[a as int];
            let nb = neighbors[b as int];
            let before = pulls_before(neighbors, positions, a, b);
            &&& na.len() > 0 && nb.len() > 0 ==> before == (position_sum(na, positions) * nb.len()
                < position_sum(nb, positions) * na.len())
            &&& na.len() > 0 && nb.len() == 0 ==> before == (position_sum(na, positions)
                < positions[b as int] * na.len())
            &&& na.len() == 0 && nb.len() > 0 ==> before == (positions[a as int] * nb.len()
                < position_sum(nb, positions))
            &&& na.len() == 0 && nb.len() == 0 ==> before == (positions[a as int]
                < positions[b as int])
        }),
{
    let na = neighbors[a as int];
    let nb = neighbors[b as int];
    assert(position_sum(na, positions) * 1 == position_sum(na, positions));
    assert(position_sum(nb, positions) * 1 == position_sum(nb, positions));
    assert(positions[a as int] * 1 == positions[a as int]);
    assert(positions[b as int] * 1 == positions[b as int]);
}

/// A column has the nodes of its layer, and in the order of their numbers.
pub proof fn law_columns_begin_in_node_order(layer: Seq<usize>, l: int, n: nat)
    requires
        n <= layer.len() <= usize::MAX,
    ensures
        forall|j: int, k: int|
            0 <= j < k < column_of(layer, l, n).len() ==> #[trigger] column_of(layer, l, n)[j]
                < #[trigger] column_of(layer, l, n)[k],
        forall|v: usize| #[trigger]
            column_of(layer, l, n).contains(v) <==> v < n && layer[v as int] == l,
    decreases n,
{
    if n > 0 {
        let m = (n - 1) as nat;
        let before = column_of(layer, l, m);
        let all = column_of(layer, l, n);
        law_columns_begin_in_node_order(layer, l, m);
        assert forall|j: int| 0 <= j < before.len() implies #[trigger] before[j] < m by {
            assert(before.contains(before[j]));
        }
        assert forall|v: usize| #[trigger] all.contains(v) <==> v < n && layer[v as int] == l by {
            if all.contains(v) {
                let k = choose|k: int| 0 <= k < all.len() && all[k] == v;
                if k < before.len() {
                    assert(before.contains(v));
                }
            }
            if v < n && layer[v as int] == l {
                if v < m {
                    assert(before.contains(v));
                    let k = choose|k: int| 0 <= k < before.len() && before[k] == v;
                    assert(all[k] == v);
                } else {
                    assert(all[before.len() as int] == v);
                }
            }
        }
    }
}

/// The nodes of a column get their places in it as positions, and other nodes keep theirs.
pub proof fn law_positions_are_places_in_the_column(positions: Seq<usize>, col: Seq<usize>)
    requires
        col.no_duplicates(),
        forall|k: int| 0 <= k < col.len() ==> #[trigger] col[k] < positions.len(),
        col.len() <= usize::MAX,
    ensures
        renumbered(positions, col).len() == positions.len(),
        forall|k: int|
            0 <= k < col.len() ==> renumbered(positions, col)[#[trigger] col[k] as int] == k,
        forall|v: usize|
            v < positions.len() && !(#[trigger] col.contains(v)) ==> renumbered(
                positions,
                col,
            )[v as int] == positions[v as int],
    decreases col.len(),
{
    if col.len() > 0 {
        let rest = col.drop_last();
        assert forall|k: int| 0 <= k < rest.len() implies #[trigger] rest[k] < positions.len() by {
            assert(rest[k] == col[k]);
        }
        law_positions_are_places_in_the_column(positions, rest);
        assert forall|k: int| 0 <= k < col.len() implies renumbered(positions, col)[#[trigger] col[
        k] as int] == k by {
            if k < rest.len() {
                assert(rest[k] == col[k]);
                assert(col[k] != col[col.len() - 1]);
            }
        }
        assert forall|v: usize|
            v < positions.len() && !(#[trigger] col.contains(v)) implies renumbered(
            positions,
            col,
        )[v as int] == positions[v as int] by {
            if rest.contains(v) {
                let k = choose|k: int| 0 <= k < rest.len() && rest[k] == v;
                assert(col[k] == v);
            }
            assert(col[col.len() - 1] != v);
        }
    }
}

/// Only column `l` is sorted, by the average positions that the neighbors had before: it has the
/// nodes it had, one pulled before another stands before it, and others keep their order. Its nodes
/// get their new places as positions, and all other nodes keep theirs.
pub open spec fn is_resorted(
    before: Order,
    after: Order,
    neighbors: Seq<Seq<usize>>,
    l: int,
) -> bool {
    &&& after.columns.len() == before.columns.len()
    &&& forall|m: int|
        0 <= m < after.columns.len() && m != l ==> #[trigger] after.columns[m] == before.columns[m]
    &&& exists|origin: Seq<int>|
        in_stable_order(
            neighbors,
            before.positions,
            before.columns[l],
            after.columns[l],
            origin,
        )
    &&& after.positions.len() == before.positions.len()
    &&& forall|k: int|
        0 <= k < after.columns[l].len() ==> after.positions[#[trigger] after.columns[l][k] as int]
            == k
    &&& forall|v: usize|
        v < after.positions.len() && !(#[trigger] before.columns[l].contains(v))
            ==> after.positions[v as int] == before.positions[v as int]
}

/// Sorting a column sorts that column and no other.
pub proof fn law_one_column_is_sorted(
    o: Order,
    layer: Seq<usize>,
    neighbors: Seq<Seq<usize>>,
    l: int,
)
    requires
        arranges(o, layer),
        layer.len() <= usize::MAX,
        0 <= l < o.columns.len(),
    ensures
        is_resorted(o, column_sorted(o, neighbors, l), neighbors, l),
{
    let after = column_sorted(o, neighbors, l);
    let col = sorted_by_pull(neighbors, o.positions, o.columns[l]);
    let origin = law_barycenter_sort_is_stable(neighbors, o.positions, o.columns[l]);
    lemma_column_sorted(o, layer, neighbors, l);
    assert(after.columns[l] == col);
    assert(holds_layer(col, layer, l));
    assert(holds_layer(o.columns[l], layer, l));
    lemma_column_fits(col, layer, l);
    law_positions_are_places_in_the_column(o.positions, col);
    assert forall|v: usize|
        v < after.positions.len() && !(
        #[trigger] o.columns[l].contains(v)) implies after.positions[v as int]
        == o.positions[v as int] by {
        assert(!col.contains(v));
    }
}

/// A sweep to the right sorts all columns but the first, one after the other, each by what it is
/// connected to as it then stands. The result are the states in between.
pub proof fn law_right_sweep_sorts_every_column(
    o: Order,
    layer: Seq<usize>,
    neighbors: Seq<Seq<usize>>,
    end: nat,
) -> (states: Seq<Order>)
    requires
        arranges(o, layer),
        layer.len() <= usize::MAX,
        1 <= end <= o.columns.len(),
    ensures
        states.len() == end,
        states[0] == o,
        forall|l: int|
            1 <= l < end ==> is_resorted(states[l - 1], #[trigger] states[l], neighbors, l),
        states.last() == swept_right(o, neighbors, end),
    decreases end,
{
    if end == 1 {
        seq![o]
    } else {
        let m = (end - 1) as nat;
        let had = law_right_sweep_sorts_every_column(o, layer, neighbors, m);
        lemma_swept_right(o, layer, neighbors, m);
        law_one_column_is_sorted(swept_right(o, neighbors, m), layer, neighbors, end - 1);
        let states = had.push(swept_right(o, neighbors, end));
        assert forall|l: int| 1 <= l < end implies is_resorted(
            states[l - 1],
            #[trigger] states[l],
            neighbors,
            l,
        ) by {
            assert(states[l - 1] == had[l - 1]);
            if l < m {
                assert(states[l] == had[l]);
            } else {
                assert(had[l - 1] == had.last());
            }
        }
        states
    }
}

/// A sweep to the left sorts all columns but the last, from the right one after the other, each by
/// what it is connected to as it then stands. The result are the states in between: entry `l` is
/// the one after column `l` was sorted.
pub proof fn law_left_sweep_sorts_every_column(
    o: Order,
    layer: Seq<usize>,
    neighbors: Seq<Seq<usize>>,
    start: nat,
) -> (states: Seq<Order>)
    requires
        arranges(o, layer),
        layer.len() <= usize::MAX,
        start < o.columns.len(),
    ensures
        states.len() == o.columns.len(),
        states.last() == o,
        forall|l: int|
            start <= l < o.columns.len() - 1 ==> is_resorted(
                states[l + 1],
                #[trigger] states[l],
                neighbors,
                l,
            ),
        states[start as int] == swept_left(o, neighbors, start),
    decreases o.columns.len() - start,
{
    if start + 1 == o.columns.len() {
        Seq::new(o.columns.len(), |l: int| o)
    } else {
        let had = law_left_sweep_sorts_every_column(o, layer, neighbors, start + 1);
        lemma_swept_left(o, layer, neighbors, start + 1);
        let before = swept_left(o, neighbors, start + 1);
        assert(before.columns.len() == o.columns.len());
        law_one_column_is_sorted(before, layer, neighbors, start as int);
        let states = had.update(start as int, swept_left(o, neighbors, start));
        assert forall|l: int| start <= l < o.columns.len() - 1 implies is_resorted(
            states[l + 1],
            #[trigger] states[l],
            neighbors,
            l,
        ) by {
            assert(states[l + 1] == had[l + 1]);
            if l > start {
                assert(states[l] == had[l]);
            }
        }
        states
    }
}

/// Four sweeps go right, left, right and left; to the right columns are sorted by predecessors, to
/// the left by successors.
pub proof fn law_sweeps_go_right_and_left_in_turn(
    o: Order,
    layer: Seq<usize>,
    preds: Seq<Seq<usize>>,
    succ: Seq<Seq<usize>>,
)
    requires
        arranges(o, layer),
        layer.len() <= usize::MAX,
    ensures
        ({
            let n = o.columns.len();
            let one = swept_right(o, preds, n);
            let two = swept_left(one, succ, 0);
            let three = swept_right(two, preds, n);
            swept(o, preds, succ, 4) == swept_left(three, succ, 0)
        }),
{
    let n = o.columns.len();
    lemma_swept_right(o, layer, preds, n);
    let one = swept_right(o, preds, n);
    lemma_swept_left(one, layer, succ, 0);
    let two = swept_left(one, succ, 0);
    reveal_with_fuel(swept, 5);
    assert(swept(o, preds, succ, 0) == o);
    assert(swept(o, preds, succ, 1) == one);
    assert(swept(o, preds, succ, 2) == two);
    assert(two.columns.len() == n);
}

/// Sorting columns further left keeps the columns from `from` on and the positions of their nodes.
proof fn lemma_left_sweep_keeps(
    o: Order,
    layer: Seq<usize>,
    neighbors: Seq<Seq<usize>>,
    start: nat,
    from: nat,
)
    requires
        arranges(o, layer),
        layer.len() <= usize::MAX,
        start <= from < o.columns.len(),
    ensures
        arranges(swept_left(o, neighbors, start), layer),
        arranges(swept_left(o, neighbors, from), layer),
        forall|m: int|
            from <= m < o.columns.len() ==> #[trigger] swept_left(o, neighbors, start).columns[m]
                == swept_left(o, neighbors, from).columns[m],
        forall|v: int|
            0 <= v < layer.len() && layer[v] >= from ==> #[trigger] swept_left(
                o,
                neighbors,
                start,
            ).positions[v] == swept_left(o, neighbors, from).positions[v],
    decreases from - start,
{
    lemma_swept_left(o, layer, neighbors, start);
    lemma_swept_left(o, layer, neighbors, from);
    if start < from {
        lemma_left_sweep_keeps(o, layer, neighbors, start + 1, from);
        let before = swept_left(o, neighbors, start + 1);
        let after = swept_left(o, neighbors, start);
        assert(after == column_sorted(before, neighbors, start as int));
        law_one_column_is_sorted(before, layer, neighbors, start as int);
        assert forall|v: int| 0 <= v < layer.len() && layer[v] >= from implies #[trigger]
            after.positions[v] == swept_left(o, neighbors, from).positions[v] by {
            let w = v as usize;
            assert(holds_layer(before.columns[start as int], layer, start as int));
            assert(!before.columns[start as int].contains(w));
            assert(after.positions[w as int] == before.positions[w as int]);
        }
        assert forall|m: int| from <= m < o.columns.len() implies #[trigger] after.columns[m]
            == swept_left(o, neighbors, from).columns[m] by {
            assert(after.columns[m] == before.columns[m]);
        }
    }
}

/// Where the nodes have the same positions, the sums are the same.
proof fn lemma_same_sum(ns: Seq<usize>, a: Seq<usize>, b: Seq<usize>)
    requires
        forall|j: int| 0 <= j < ns.len() ==> a[#[trigger] ns[j] as int] == b[ns[j] as int],
    ensures
        position_sum(ns, a) == position_sum(ns, b),
    decreases ns.len(),
{
    if ns.len() > 0 {
        let rest = ns.drop_last();
        assert forall|j: int| 0 <= j < rest.len() implies a[#[trigger] rest[j] as int]
            == b[rest[j] as int] by {
            assert(rest[j] == ns[j]);
        }
        lemma_same_sum(rest, a, b);
        assert(ns[ns.len() - 1] == ns.last());
    }
}

/// All neighbors of the node, and there are some, are in layers above `l`.
pub open spec fn leads_above(
    layer: Seq<usize>,
    neighbors: Seq<Seq<usize>>,
    v: usize,
    l: int,
) -> bool {
    &&& neighbors[v as int].len() > 0
    &&& forall|j: int|
        0 <= j < neighbors[v as int].len() ==> #[trigger] neighbors[v as int][j] < layer.len()
            && layer[neighbors[v as int][j] as int] > l
}

/// After a sweep to the left, of two nodes of a column that only lead further right the upper one
/// leads to nodes that on average stand no lower.
pub proof fn law_left_sweep_follows_the_columns_to_the_right(
    o: Order,
    layer: Seq<usize>,
    neighbors: Seq<Seq<usize>>,
    a: usize,
    b: usize,
)
    requires
        arranges(o, layer),
        layer.len() <= usize::MAX,
        a < layer.len(),
        b < layer.len(),
        layer[a as int] == layer[b as int],
        leads_above(layer, neighbors, a, layer[a as int] as int),
        leads_above(layer, neighbors, b, layer[a as int] as int),
        swept_left(o, neighbors, 0).positions[a as int] < swept_left(
            o,
            neighbors,
            0,
        ).positions[b as int],
    ensures
        ({
            let positions = swept_left(o, neighbors, 0).positions;
            let (na, nb) = (neighbors[a as int], neighbors[b as int]);
            position_sum(na, positions) * nb.len() <= position_sum(nb, positions) * na.len()
        }),
{
    let l = layer[a as int] as nat;
    let (na, nb) = (neighbors[a as int], neighbors[b as int]);
    lemma_top_layer(layer);
    assert(layer[na[0] as int] > l);
    assert(l + 1 < o.columns.len());
    lemma_left_sweep_keeps(o, layer, neighbors, 0, l);
    lemma_left_sweep_keeps(o, layer, neighbors, 0, l + 1);
    let before = swept_left(o, neighbors, l + 1);
    let sorted = swept_left(o, neighbors, l);
    let last = swept_left(o, neighbors, 0);
    assert(sorted == column_sorted(before, neighbors, l as int));
    law_one_column_is_sorted(before, layer, neighbors, l as int);
    let origin = choose|origin: Seq<int>|
        in_stable_order(
            neighbors,
            before.positions,
            before.columns[l as int],
            sorted.columns[l as int],
            origin,
        );
    assert(placed(last, layer, a as int));
    assert(placed(last, layer, b as int));
    let (i, j) = (last.positions[a as int] as int, last.positions[b as int] as int);
    let col = sorted.columns[l as int];
    assert(last.columns[l as int] == col);
    assert(col[i] == a && col[j] == b);
    assert(rightly_before(neighbors, before.positions, col, origin, i, j));
    law_lesser_average_pulls_before(neighbors, before.positions, a, b);
    law_lesser_average_pulls_before(neighbors, before.positions, b, a);
    assert forall|k: int| 0 <= k < na.len() implies last.positions[#[trigger] na[k] as int]
        == before.positions[na[k] as int] by {
        assert(layer[na[k] as int] >= l + 1);
    }
    assert forall|k: int| 0 <= k < nb.len() implies last.positions[#[trigger] nb[k] as int]
        == before.positions[nb[k] as int] by {
        assert(layer[nb[k] as int] >= l + 1);
    }
    lemma_same_sum(na, last.positions, before.positions);
    lemma_same_sum(nb, last.positions, before.positions);
}

} // verus!
