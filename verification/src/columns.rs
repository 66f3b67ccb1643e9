//! Columns of nodes: one for each layer, ordered so that few wires cross.

use vstd::prelude::*;

use crate::barycenter::{
    barycenter_sort, contents, law_barycenter_sort_is_stable, sorted_by_pull,
};
use crate::model::{audio_output, Node};
use crate::text::same_text;

verus! {

/// How often the columns are sorted, alternately from left to right and from right to left.
pub const SWEEPS: usize = 4;

/// The highest layer.
pub open spec fn top_layer(layer: Seq<usize>) -> nat
    decreases layer.len(),
{
    if layer.len() == 0 {
        0
    } else {
        let below = top_layer(layer.drop_last());
        if below < layer.last() {
            layer.last() as nat
        } else {
            below
        }
    }
}

/// The layers with every sink put into the highest one.
pub open spec fn anchored(nodes: Seq<Node>, layer: Seq<usize>) -> Seq<usize> {
    Seq::new(
        layer.len(),
        |i: int|
            if nodes[i].ty@ == audio_output() {
                top_layer(layer) as usize
            } else {
                layer[i]
            },
    )
}

pub proof fn lemma_top_layer(layer: Seq<usize>)
    ensures
        forall|i: int| 0 <= i < layer.len() ==> #[trigger] layer[i] <= top_layer(layer),
        layer.len() > 0 ==> exists|i: int|
            0 <= i < layer.len() && #[trigger] layer[i] == top_layer(layer),
        top_layer(layer) <= usize::MAX,
    decreases layer.len(),
{
    if layer.len() > 0 {
        let below = layer.drop_last();
        lemma_top_layer(below);
        assert forall|i: int| 0 <= i < layer.len() implies #[trigger] layer[i] <= top_layer(
            layer,
        ) by {
            if i < below.len() {
                assert(below[i] == layer[i]);
            }
        }
        if top_layer(below) < layer.last() || below.len() == 0 {
            assert(layer[layer.len() - 1] == top_layer(layer));
        } else {
            let i = choose|i: int| 0 <= i < below.len() && #[trigger] below[i] == top_layer(below);
            assert(layer[i] == top_layer(layer));
        }
    }
}

/// Putting the sinks into the highest layer makes no layer higher.
pub proof fn lemma_anchored(nodes: Seq<Node>, layer: Seq<usize>)
    requires
        nodes.len() == layer.len(),
    ensures
        top_layer(anchored(nodes, layer)) == top_layer(layer),
        forall|i: int|
            0 <= i < layer.len() ==> layer[i] <= #[trigger] anchored(nodes, layer)[i]
                <= top_layer(layer),
{
    let raised = anchored(nodes, layer);
    lemma_top_layer(layer);
    lemma_top_layer(raised);
    if layer.len() > 0 {
        let i = choose|i: int| 0 <= i < layer.len() && #[trigger] layer[i] == top_layer(layer);
        assert(raised[i] == top_layer(layer));
        let j = choose|j: int| 0 <= j < raised.len() && #[trigger] raised[j] == top_layer(raised);
        assert(raised[j] <= top_layer(layer));
    }
}

/// The nodes of layer `l` among the first `n`, in index order.
pub open spec fn column_of(layer: Seq<usize>, l: int, n: nat) -> Seq<usize>
    decreases n,
{
    if n == 0 {
        Seq::empty()
    } else {
        let before = column_of(layer, l, (n - 1) as nat);
        if layer[n - 1] == l {
            before.push((n - 1) as usize)
        } else {
            before
        }
    }
}

/// `positions` with each node of `col` put at its place in `col`.
pub open spec fn renumbered(positions: Seq<usize>, col: Seq<usize>) -> Seq<usize>
    decreases col.len(),
{
    if col.len() == 0 {
        positions
    } else {
        renumbered(positions, col.drop_last()).update(
            col.last() as int,
            (col.len() - 1) as usize,
        )
    }
}

/// The places of the nodes of the first `m` columns.
pub open spec fn numbered(columns: Seq<Seq<usize>>, n: nat, m: nat) -> Seq<usize>
    decreases m,
{
    if m == 0 {
        Seq::new(n, |i: int| 0usize)
    } else {
        renumbered(numbered(columns, n, (m - 1) as nat), columns[m - 1])
    }
}

/// The nodes of each column from top to bottom, and the place of each node in its column.
pub struct Order {
    pub columns: Seq<Seq<usize>>,
    pub positions: Seq<usize>,
}

/// The columns of the layers, each in index order.
pub open spec fn unsorted(layer: Seq<usize>) -> Order {
    let columns = Seq::new(
        top_layer(layer) + 1,
        |l: int| column_of(layer, l, layer.len()),
    );
    Order { columns, positions: numbered(columns, layer.len(), columns.len()) }
}

/// Column `l` sorted by the places of each node's neighbors.
pub open spec fn column_sorted(o: Order, neighbors: Seq<Seq<usize>>, l: int) -> Order {
    let col = sorted_by_pull(neighbors, o.positions, o.columns[l]);
    Order { columns: o.columns.update(l, col), positions: renumbered(o.positions, col) }
}

/// The columns from the second to before the `end`-th sorted in this order.
pub open spec fn swept_right(o: Order, neighbors: Seq<Seq<usize>>, end: nat) -> Order
    decreases end,
{
    if end <= 1 {
        o
    } else {
        column_sorted(swept_right(o, neighbors, (end - 1) as nat), neighbors, end - 1)
    }
}

/// The columns from the last but one down to the `start`-th sorted in this order.
pub open spec fn swept_left(o: Order, neighbors: Seq<Seq<usize>>, start: nat) -> Order
    decreases o.columns.len() - start,
{
    if start + 1 >= o.columns.len() {
        o
    } else {
        column_sorted(swept_left(o, neighbors, start + 1), neighbors, start as int)
    }
}

/// The columns after `k` sweeps: to the right by what leads to each node, then to the left by what
/// leads away from it, and so on.
pub open spec fn swept(
    o: Order,
    preds: Seq<Seq<usize>>,
    succ: Seq<Seq<usize>>,
    k: nat,
) -> Order
    decreases k,
{
    if k == 0 {
        o
    } else {
        let before = swept(o, preds, succ, (k - 1) as nat);
        if (k - 1) % 2 == 0 {
            swept_right(before, preds, before.columns.len())
        } else {
            swept_left(before, succ, 0)
        }
    }
}

/// The columns hold the nodes of their layer, each once, and the places are those in the columns.
pub open spec fn arranges(o: Order, layer: Seq<usize>) -> bool {
    &&& o.columns.len() == top_layer(layer) + 1
    &&& o.positions.len() == layer.len()
    &&& forall|l: int| 0 <= l < o.columns.len() ==> holds_layer(#[trigger] o.columns[l], layer, l)
    &&& forall|v: int| 0 <= v < layer.len() ==> #[trigger] placed(o, layer, v)
}

/// The column holds the nodes of layer `l`, each once.
pub open spec fn holds_layer(col: Seq<usize>, layer: Seq<usize>, l: int) -> bool {
    &&& col.no_duplicates()
    &&& forall|v: usize| #[trigger] col.contains(v) <==> v < layer.len() && layer[v as int] == l
}

/// Node `v` stands at its place in the column of its layer.
pub open spec fn placed(o: Order, layer: Seq<usize>, v: int) -> bool {
    let col = o.columns[layer[v] as int];
    o.positions[v] < col.len() && col[o.positions[v] as int] == v
}

proof fn lemma_column_of(layer: Seq<usize>, l: int, n: nat)
    requires
        n <= layer.len() <= usize::MAX,
    ensures
        column_of(layer, l, n).no_duplicates(),
        forall|v: usize| #[trigger]
            column_of(layer, l, n).contains(v) <==> v < n && layer[v as int] == l,
    decreases n,
{
    if n > 0 {
        let before = column_of(layer, l, (n - 1) as nat);
        lemma_column_of(layer, l, (n - 1) as nat);
        let col = column_of(layer, l, n);
        let last = (n - 1) as usize;
        if layer[n - 1] == l {
            assert(!before.contains(last));
            assert forall|i: int, j: int| 0 <= i < j < col.len() implies col[i] != col[j] by {
                if j == before.len() {
                    assert(before.contains(before[i]));
                }
            }
            assert forall|v: usize| #[trigger] col.contains(v) <==> v < n && layer[v as int]
                == l by {
                if v == last {
                    assert(col[before.len() as int] == v);
                } else if before.contains(v) {
                    let i = choose|i: int| 0 <= i < before.len() && before[i] == v;
                    assert(col[i] == v);
                } else if col.contains(v) {
                    let i = choose|i: int| 0 <= i < col.len() && col[i] == v;
                    assert(before[i] == v);
                }
            }
        }
    }
}

proof fn lemma_renumbered(positions: Seq<usize>, col: Seq<usize>)
    requires
        col.no_duplicates(),
        col.len() <= usize::MAX,
        forall|i: int| 0 <= i < col.len() ==> #[trigger] col[i] < positions.len(),
    ensures
        renumbered(positions, col).len() == positions.len(),
        forall|i: int|
            0 <= i < col.len() ==> renumbered(positions, col)[#[trigger] col[i] as int] == i,
        forall|v: usize|
            v < positions.len() && !#[trigger] col.contains(v) ==> renumbered(
                positions,
                col,
            )[v as int] == positions[v as int],
    decreases col.len(),
{
    if col.len() > 0 {
        let rest = col.drop_last();
        assert forall|i: int| 0 <= i < rest.len() implies #[trigger] rest[i] < positions.len() by {
            assert(rest[i] == col[i]);
        }
        lemma_renumbered(positions, rest);
        assert forall|i: int| 0 <= i < col.len() implies renumbered(
            positions,
            col,
        )[#[trigger] col[i] as int] == i by {
            if i < rest.len() {
                assert(rest[i] == col[i]);
                assert(col[i] != col[col.len() - 1]);
            }
        }
        assert forall|v: usize| v < positions.len() && !#[trigger] col.contains(v) implies renumbered(
            positions,
            col,
        )[v as int] == positions[v as int] by {
            if rest.contains(v) {
                let i = choose|i: int| 0 <= i < rest.len() && rest[i] == v;
                assert(col[i] == v);
            }
            assert(col[col.len() - 1] != v) by {
                assert(col.contains(col[col.len() - 1]));
            }
        }
    }
}

proof fn lemma_numbered(columns: Seq<Seq<usize>>, layer: Seq<usize>, m: nat)
    requires
        m <= columns.len(),
        layer.len() <= usize::MAX,
        forall|l: int| 0 <= l < columns.len() ==> holds_layer(#[trigger] columns[l], layer, l),
    ensures
        numbered(columns, layer.len(), m).len() == layer.len(),
        forall|l: int, k: int|
            0 <= l < m && 0 <= k < columns[l].len() ==> numbered(
                columns,
                layer.len(),
                m,
            )[#[trigger] columns[l][k] as int] == k,
    decreases m,
{
    if m > 0 {
        lemma_numbered(columns, layer, (m - 1) as nat);
        let before = numbered(columns, layer.len(), (m - 1) as nat);
        let after = numbered(columns, layer.len(), m);
        let col = columns[m - 1];
        lemma_column_fits(col, layer, m - 1);
        lemma_renumbered(before, col);
        assert forall|l: int, k: int|
            0 <= l < m && 0 <= k < columns[l].len() implies after[#[trigger] columns[l][k] as int]
            == k by {
            if l < m - 1 {
                let v = columns[l][k];
                assert(holds_layer(columns[l], layer, l));
                assert(columns[l].contains(v));
                assert(!col.contains(v));
                assert(before[v as int] == k);
            }
        }
    }
}

/// A column is no longer than there are nodes, and its nodes are in range.
pub proof fn lemma_column_fits(col: Seq<usize>, layer: Seq<usize>, l: int)
    requires
        holds_layer(col, layer, l),
        layer.len() <= usize::MAX,
    ensures
        col.len() <= layer.len(),
        forall|i: int| 0 <= i < col.len() ==> #[trigger] col[i] < layer.len(),
{
    assert forall|i: int| 0 <= i < col.len() implies #[trigger] col[i] < layer.len() by {
        assert(col.contains(col[i]));
    }
    crate::topo::lemma_distinct_below(col, layer.len());
}

/// The columns of the layers arrange them.
pub proof fn lemma_unsorted(layer: Seq<usize>)
    requires
        layer.len() <= usize::MAX,
    ensures
        arranges(unsorted(layer), layer),
{
    let o = unsorted(layer);
    assert forall|l: int| 0 <= l < o.columns.len() implies holds_layer(
        #[trigger] o.columns[l],
        layer,
        l,
    ) by {
        lemma_column_of(layer, l, layer.len());
    }
    lemma_numbered(o.columns, layer, o.columns.len());
    lemma_top_layer(layer);
    assert forall|v: int| 0 <= v < layer.len() implies #[trigger] placed(o, layer, v) by {
        let l = layer[v] as int;
        assert(0 <= l < o.columns.len());
        assert(holds_layer(o.columns[l], layer, l));
        assert(o.columns[l].contains(v as usize));
        let k = choose|k: int| 0 <= k < o.columns[l].len() && o.columns[l][k] == v as usize;
        assert(o.positions[o.columns[l][k] as int] == k);
        lemma_column_fits(o.columns[l], layer, l);
    }
}

/// Sorting a column keeps the columns an arrangement of the layers.
pub proof fn lemma_column_sorted(
    o: Order,
    layer: Seq<usize>,
    neighbors: Seq<Seq<usize>>,
    l: int,
)
    requires
        arranges(o, layer),
        layer.len() <= usize::MAX,
        0 <= l < o.columns.len(),
    ensures
        arranges(column_sorted(o, neighbors, l), layer),
{
    let t = column_sorted(o, neighbors, l);
    let col = o.columns[l];
    let sorted = sorted_by_pull(neighbors, o.positions, col);
    assert(holds_layer(col, layer, l));
    let origin = law_barycenter_sort_is_stable(neighbors, o.positions, col);
    lemma_reordered(col, sorted, origin);
    assert(holds_layer(sorted, layer, l)) by {
        assert forall|v: usize| #[trigger] sorted.contains(v) <==> v < layer.len()
            && layer[v as int] == l by {
            assert(sorted.contains(v) <==> col.contains(v));
        }
    }
    assert forall|m: int| 0 <= m < t.columns.len() implies holds_layer(
        #[trigger] t.columns[m],
        layer,
        m,
    ) by {
        if m != l {
            assert(t.columns[m] == o.columns[m]);
            assert(holds_layer(o.columns[m], layer, m));
        }
    }
    lemma_column_fits(sorted, layer, l);
    lemma_renumbered(o.positions, sorted);
    lemma_top_layer(layer);
    assert forall|v: int| 0 <= v < layer.len() implies #[trigger] placed(t, layer, v) by {
        assert(placed(o, layer, v));
        let u = v as usize;
        if layer[v] == l {
            assert(sorted.contains(u));
            let k = choose|k: int| 0 <= k < sorted.len() && sorted[k] == u;
            assert(t.positions[sorted[k] as int] == k);
        } else {
            assert(!sorted.contains(u));
            assert(t.positions[v] == o.positions[v]);
        }
    }
}

/// A list without duplicates keeps its members when it is reordered.
proof fn lemma_reordered(col: Seq<usize>, sorted: Seq<usize>, origin: Seq<int>)
    requires
        col.no_duplicates(),
        sorted.len() == col.len(),
        origin.len() == col.len(),
        origin.no_duplicates(),
        forall|i: int|
            0 <= i < origin.len() ==> 0 <= #[trigger] origin[i] < col.len() && sorted[i]
                == col[origin[i]],
    ensures
        sorted.no_duplicates(),
        forall|v: usize| #[trigger] sorted.contains(v) <==> col.contains(v),
{
    assert forall|i: int, j: int| 0 <= i < j < sorted.len() implies sorted[i] != sorted[j] by {
        assert(origin[i] != origin[j]);
    }
    assert forall|v: usize| #[trigger] sorted.contains(v) <==> col.contains(v) by {
        if sorted.contains(v) {
            let i = choose|i: int| 0 <= i < sorted.len() && sorted[i] == v;
            assert(col[origin[i]] == v);
        }
        if col.contains(v) {
            let k = choose|k: int| 0 <= k < col.len() && col[k] == v;
            lemma_onto(origin, col.len(), k);
            let i = choose|i: int| 0 <= i < origin.len() && origin[i] == k;
            assert(sorted[i] == v);
        }
    }
}

/// As many different indices as there are hit every one.
proof fn lemma_onto(origin: Seq<int>, n: nat, k: int)
    requires
        origin.len() == n,
        origin.no_duplicates(),
        forall|i: int| 0 <= i < origin.len() ==> 0 <= #[trigger] origin[i] < n,
        0 <= k < n,
    ensures
        origin.contains(k),
{
    let all = vstd::set_lib::set_int_range(0, n as int);
    vstd::set_lib::lemma_int_range(0, n as int);
    origin.unique_seq_to_set();
    let hit = origin.to_set();
    assert(hit.subset_of(all)) by {
        assert forall|x: int| hit.contains(x) implies all.contains(x) by {
            let i = choose|i: int| 0 <= i < origin.len() && origin[i] == x;
            assert(0 <= origin[i] < n);
        }
    }
    vstd::set_lib::lemma_subset_equality(hit, all);
    assert(hit.contains(k));
}

/// Sweeping to the right keeps the columns an arrangement of the layers.
pub proof fn lemma_swept_right(
    o: Order,
    layer: Seq<usize>,
    neighbors: Seq<Seq<usize>>,
    end: nat,
)
    requires
        arranges(o, layer),
        layer.len() <= usize::MAX,
        end <= o.columns.len(),
    ensures
        arranges(swept_right(o, neighbors, end), layer),
    decreases end,
{
    if end > 1 {
        lemma_swept_right(o, layer, neighbors, (end - 1) as nat);
        lemma_column_sorted(
            swept_right(o, neighbors, (end - 1) as nat),
            layer,
            neighbors,
            end - 1,
        );
    }
}

/// Sweeping to the left keeps the columns an arrangement of the layers.
pub proof fn lemma_swept_left(
    o: Order,
    layer: Seq<usize>,
    neighbors: Seq<Seq<usize>>,
    start: nat,
)
    requires
        arranges(o, layer),
        layer.len() <= usize::MAX,
    ensures
        arranges(swept_left(o, neighbors, start), layer),
    decreases o.columns.len() - start,
{
    if start + 1 < o.columns.len() {
        lemma_swept_left(o, layer, neighbors, start + 1);
        lemma_column_sorted(
            swept_left(o, neighbors, start + 1),
            layer,
            neighbors,
            start as int,
        );
    }
}

/// However often the columns are sorted, they hold the nodes of their layers, each once.
pub proof fn law_sweeps_keep_the_layers(
    o: Order,
    layer: Seq<usize>,
    preds: Seq<Seq<usize>>,
    succ: Seq<Seq<usize>>,
    k: nat,
)
    requires
        arranges(o, layer),
        layer.len() <= usize::MAX,
    ensures
        arranges(swept(o, preds, succ, k), layer),
    decreases k,
{
    if k > 0 {
        let before = swept(o, preds, succ, (k - 1) as nat);
        law_sweeps_keep_the_layers(o, layer, preds, succ, (k - 1) as nat);
        if (k - 1) % 2 == 0 {
            lemma_swept_right(before, layer, preds, before.columns.len());
        } else {
            lemma_swept_left(before, layer, succ, 0);
        }
    }
}

/// The nodes of each column from top to bottom, and the place of each node in its column.
pub struct Columns {
    pub columns: Vec<Vec<usize>>,
    pub positions: Vec<usize>,
}

impl View for Columns {
    type V = Order;

    open spec fn view(&self) -> Order {
        Order { columns: contents(self.columns@), positions: self.positions@ }
    }
}

/// Every node has a list of neighbors, which are nodes.
pub open spec fn lists_nodes(neighbors: Seq<Seq<usize>>, n: nat) -> bool {
    &&& neighbors.len() == n
    &&& forall|u: int, j: int|
        0 <= u < neighbors.len() && 0 <= j < neighbors[u].len() ==> #[trigger] neighbors[u][j] < n
}

/// The highest layer.
pub fn highest(layer: &Vec<usize>) -> (r: usize)
    ensures
        r == top_layer(layer@),
{
    let mut r: usize = 0;
    let mut i: usize = 0;
    assert(layer@.take(0) =~= Seq::empty());
    while i < layer.len()
        invariant
            i <= layer@.len(),
            r == top_layer(layer@.take(i as int)),
        decreases layer.len() - i,
    {
        proof {
            assert(layer@.take(i + 1).drop_last() =~= layer@.take(i as int));
            assert(layer@.take(i + 1).last() == layer@[i as int]);
        }
        if r < layer[i] {
            r = layer[i];
        }
        i += 1;
    }
    assert(layer@.take(i as int) =~= layer@);
    r
}

/// Puts every sink into the highest layer.
pub fn anchor_sinks(nodes: &Vec<Node>, layer: &mut Vec<usize>)
    requires
        nodes@.len() == old(layer)@.len(),
    ensures
        final(layer)@ == anchored(nodes@, old(layer)@),
{
    let ghost given = layer@;
    let top: usize = highest(layer);
    let mut i: usize = 0;
    while i < layer.len()
        invariant
            i <= layer@.len(),
            nodes@.len() == layer@.len(),
            given.len() == layer@.len(),
            top == top_layer(given),
            forall|j: int| 0 <= j < i ==> #[trigger] layer@[j] == anchored(nodes@, given)[j],
            forall|j: int| i <= j < given.len() ==> #[trigger] layer@[j] == given[j],
        decreases layer.len() - i,
    {
        if same_text(nodes[i].ty.as_str(), "audio_output") {
            layer.set(i, top);
        }
        i += 1;
    }
    assert(layer@ =~= anchored(nodes@, given));
}

/// Puts each node of `col` at its place in `col`.
fn renumber(positions: &mut Vec<usize>, col: &Vec<usize>)
    requires
        forall|i: int| 0 <= i < col@.len() ==> #[trigger] col@[i] < old(positions)@.len(),
    ensures
        final(positions)@ == renumbered(old(positions)@, col@),
        final(positions)@.len() == old(positions)@.len(),
{
    let ghost given = positions@;
    let mut k: usize = 0;
    assert(col@.take(0) =~= Seq::empty());
    while k < col.len()
        invariant
            k <= col@.len(),
            positions@.len() == given.len(),
            forall|i: int| 0 <= i < col@.len() ==> #[trigger] col@[i] < given.len(),
            positions@ == renumbered(given, col@.take(k as int)),
        decreases col.len() - k,
    {
        proof {
            assert(col@.take(k + 1).drop_last() =~= col@.take(k as int));
            assert(col@.take(k + 1).last() == col@[k as int]);
        }
        positions.set(col[k], k);
        k += 1;
    }
    assert(col@.take(k as int) =~= col@);
}

/// The nodes of layer `l`, in index order.
fn layer_column(layer: &Vec<usize>, l: usize) -> (r: Vec<usize>)
    ensures
        r@ == column_of(layer@, l as int, layer@.len()),
{
    let mut r: Vec<usize> = Vec::new();
    let mut i: usize = 0;
    while i < layer.len()
        invariant
            i <= layer@.len(),
            r@ == column_of(layer@, l as int, i as nat),
        decreases layer.len() - i,
    {
        if layer[i] == l {
            r.push(i);
        }
        i += 1;
    }
    r
}

impl Columns {
    /// The columns of the layers, each in index order.
    pub fn group(layer: &Vec<usize>) -> (r: Self)
        requires
            top_layer(layer@) < usize::MAX,
        ensures
            r@ == unsorted(layer@),
            arranges(r@, layer@),
    {
        let top: usize = highest(layer);
        let mut columns: Vec<Vec<usize>> = Vec::new();
        let mut positions: Vec<usize> = Vec::new();
        let mut i: usize = 0;
        while i < layer.len()
            invariant
                i <= layer@.len(),
                positions@ == Seq::new(i as nat, |j: int| 0usize),
            decreases layer.len() - i,
        {
            positions.push(0);
            i += 1;
            assert(positions@ =~= Seq::new(i as nat, |j: int| 0usize));
        }
        let ghost all = unsorted(layer@).columns;
        proof {
            assert(layer@.len() == layer.len());
            lemma_unsorted(layer@);
        }
        let mut l: usize = 0;
        while l < top + 1
            invariant
                l <= top + 1,
                top < usize::MAX,
                top == top_layer(layer@),
                layer@.len() <= usize::MAX,
                all == unsorted(layer@).columns,
                arranges(unsorted(layer@), layer@),
                contents(columns@) == all.take(l as int),
                positions@.len() == layer@.len(),
                positions@ == numbered(all, layer@.len(), l as nat),
            decreases top + 1 - l,
        {
            let col = layer_column(layer, l);
            proof {
                assert(col@ == all[l as int]);
                assert(holds_layer(all[l as int], layer@, l as int));
                lemma_column_fits(col@, layer@, l as int);
            }
            renumber(&mut positions, &col);
            let ghost before = columns@;
            columns.push(col);
            l += 1;
            proof {
                assert(contents(columns@) =~= contents(before).push(all[l - 1]));
                assert(contents(columns@) =~= all.take(l as int));
            }
        }
        assert(all.take(l as int) =~= all);
        Columns { columns, positions }
    }

    /// Sorts column `l` by the places of each node's neighbors.
    fn sort_column(&mut self, neighbors: &Vec<Vec<usize>>, l: usize, Ghost(layer): Ghost<Seq<usize>>)
        requires
            arranges(old(self)@, layer),
            layer.len() <= usize::MAX,
            lists_nodes(contents(neighbors@), layer.len()),
            l < old(self)@.columns.len(),
        ensures
            final(self)@ == column_sorted(old(self)@, contents(neighbors@), l as int),
            arranges(final(self)@, layer),
    {
        let ghost given = self@;
        proof {
            assert(self@.columns[l as int] == self.columns@[l as int]@);
            assert(holds_layer(given.columns[l as int], layer, l as int));
            lemma_column_fits(given.columns[l as int], layer, l as int);
            lemma_column_sorted(given, layer, contents(neighbors@), l as int);
        }
        let mut col: Vec<usize> = Vec::new();
        std::mem::swap(&mut col, &mut self.columns[l]);
        barycenter_sort(&mut col, neighbors, &self.positions);
        proof {
            let t = column_sorted(given, contents(neighbors@), l as int);
            assert(t.columns[l as int] == col@);
            assert(holds_layer(t.columns[l as int], layer, l as int));
            lemma_column_fits(col@, layer, l as int);
        }
        renumber(&mut self.positions, &col);
        self.columns.set(l, col);
        assert(contents(self.columns@) =~= given.columns.update(l as int, col@));
    }

    /// Sorts the columns from the second to the last.
    fn sweep_right(&mut self, preds: &Vec<Vec<usize>>, Ghost(layer): Ghost<Seq<usize>>)
        requires
            arranges(old(self)@, layer),
            layer.len() <= usize::MAX,
            lists_nodes(contents(preds@), layer.len()),
        ensures
            final(self)@ == swept_right(
                old(self)@,
                contents(preds@),
                old(self)@.columns.len(),
            ),
            arranges(final(self)@, layer),
    {
        let ghost given = self@;
        let mut l: usize = 1;
        let count: usize = self.columns.len();
        while l < count
            invariant
                1 <= l <= count,
                count == given.columns.len(),
                layer.len() <= usize::MAX,
                lists_nodes(contents(preds@), layer.len()),
                arranges(self@, layer),
                self@ == swept_right(given, contents(preds@), l as nat),
                given.columns.len() == top_layer(layer) + 1,
            decreases count - l,
        {
            self.sort_column(preds, l, Ghost(layer));
            l += 1;
        }
    }

    /// Sorts the columns from the last but one to the first.
    fn sweep_left(&mut self, succ: &Vec<Vec<usize>>, Ghost(layer): Ghost<Seq<usize>>)
        requires
            arranges(old(self)@, layer),
            layer.len() <= usize::MAX,
            lists_nodes(contents(succ@), layer.len()),
        ensures
            final(self)@ == swept_left(old(self)@, contents(succ@), 0),
            arranges(final(self)@, layer),
    {
        let ghost given = self@;
        let mut l: usize = self.columns.len() - 1;
        while l > 0
            invariant
                l < given.columns.len(),
                layer.len() <= usize::MAX,
                lists_nodes(contents(succ@), layer.len()),
                arranges(self@, layer),
                self@ == swept_left(given, contents(succ@), l as nat),
                given.columns.len() == top_layer(layer) + 1,
            decreases l,
        {
            l -= 1;
            self.sort_column(succ, l, Ghost(layer));
        }
    }

    /// Sorts the columns to reduce crossings: alternating sweeps, to the right by the nodes that
    /// lead to each node, and to the left by those that it leads to.
    pub(crate) fn reduce_crossings(
        &mut self,
        preds: &Vec<Vec<usize>>,
        succ: &Vec<Vec<usize>>,
        Ghost(layer): Ghost<Seq<usize>>,
    )
        requires
            arranges(old(self)@, layer),
            layer.len() <= usize::MAX,
            lists_nodes(contents(preds@), layer.len()),
            lists_nodes(contents(succ@), layer.len()),
        ensures
            final(self)@ == swept(
                old(self)@,
                contents(preds@),
                contents(succ@),
                SWEEPS as nat,
            ),
            arranges(final(self)@, layer),
    {
        let ghost given = self@;
        let mut sweep: usize = 0;
        while sweep < SWEEPS
            invariant
                sweep <= SWEEPS,
                layer.len() <= usize::MAX,
                lists_nodes(contents(preds@), layer.len()),
                lists_nodes(contents(succ@), layer.len()),
                arranges(self@, layer),
                self@ == swept(given, contents(preds@), contents(succ@), sweep as nat),
            decreases SWEEPS - sweep,
        {
            if sweep % 2 == 0 {
                self.sweep_right(preds, Ghost(layer));
            } else {
                self.sweep_left(succ, Ghost(layer));
            }
            sweep += 1;
        }
    }
}

} // verus!
