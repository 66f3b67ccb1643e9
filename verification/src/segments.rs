//! The points between which the wires are drawn.

use vstd::prelude::*;

use crate::graph::{
    input_names, node_drawn, wires_into, Center, GraphView, Microns, NodeGeom, PortGeom, WireSeg,
};
use crate::edit::variadic_port;
use crate::model::{Patch, Wire};
use crate::text::same_text;

verus! {

/// The index of the last drawn node with id `id`.
pub open spec fn geom_with_id<W>(geoms: Seq<NodeGeom<W>>, id: Seq<char>) -> Option<int>
    decreases geoms.len(),
{
    if geoms.len() == 0 {
        None
    } else if geoms.last().id@ == id {
        Some(geoms.len() - 1)
    } else {
        geom_with_id(geoms.drop_last(), id)
    }
}

/// Both nodes of the wire are drawn.
pub open spec fn ends_drawn<W>(geoms: Seq<NodeGeom<W>>, w: Wire) -> bool {
    geom_with_id(geoms, w.from@.0) is Some && geom_with_id(geoms, w.to@.0) is Some
}

/// How many of the wires before the `i`-th lead to the same input and have both nodes drawn.
pub open spec fn placed_before<W>(geoms: Seq<NodeGeom<W>>, wires: Seq<Wire>, i: int) -> nat {
    wires.take(i).filter(|w: Wire| w.to@ == wires[i].to@ && ends_drawn(geoms, w)).len()
}

/// An index counted from `by` places further left.
pub open spec fn shifted(k: Option<int>, by: int) -> Option<int> {
    match k {
        Some(i) => Some(i + by),
        None => None,
    }
}

/// The index of the port that follows `n` others of the same name `name`.
pub open spec fn nth_named<W>(ports: Seq<PortGeom<W>>, name: Seq<char>, n: nat) -> Option<int>
    decreases ports.len(),
{
    if ports.len() == 0 {
        None
    } else if ports[0].name@ != name {
        shifted(nth_named(ports.drop_first(), name, n), 1)
    } else if n == 0 {
        Some(0)
    } else {
        shifted(nth_named(ports.drop_first(), name, (n - 1) as nat), 1)
    }
}

/// The inlet that the `i`-th wire is drawn to: of those of its name, the one that follows as many
/// others as there are wires placed before it.
pub open spec fn inlet_of<W>(geoms: Seq<NodeGeom<W>>, wires: Seq<Wire>, i: int) -> Option<int> {
    if ends_drawn(geoms, wires[i]) {
        let node = geoms[geom_with_id(geoms, wires[i].to@.0)->0];
        nth_named(node.inputs@, wires[i].to@.1, placed_before(geoms, wires, i))
    } else {
        None
    }
}

/// The outlet that the `i`-th wire is drawn from: the first of its name.
pub open spec fn outlet_of<W>(geoms: Seq<NodeGeom<W>>, wires: Seq<Wire>, i: int) -> Option<int> {
    if ends_drawn(geoms, wires[i]) {
        let node = geoms[geom_with_id(geoms, wires[i].from@.0)->0];
        nth_named(node.outputs@, wires[i].from@.1, 0)
    } else {
        None
    }
}

/// The `i`-th wire between its outlet and its inlet, if it has both.
pub open spec fn segment_of<W>(geoms: Seq<NodeGeom<W>>, wires: Seq<Wire>, i: int) -> Option<
    WireSeg<W>,
> {
    match (outlet_of(geoms, wires, i), inlet_of(geoms, wires, i)) {
        (Some(o), Some(k)) => Some(
            WireSeg {
                index: i as usize,
                a: geoms[geom_with_id(geoms, wires[i].from@.0)->0].outputs@[o].pos,
                b: geoms[geom_with_id(geoms, wires[i].to@.0)->0].inputs@[k].pos,
            },
        ),
        _ => None,
    }
}

/// The segments of those of the first `n` wires that have one, in order.
pub open spec fn segments<W>(geoms: Seq<NodeGeom<W>>, wires: Seq<Wire>, n: nat) -> Seq<WireSeg<W>>
    decreases n,
{
    if n == 0 {
        Seq::empty()
    } else {
        let before = segments(geoms, wires, (n - 1) as nat);
        match segment_of(geoms, wires, n - 1) {
            Some(s) => before.push(s),
            None => before,
        }
    }
}

/// The segments of all wires that have one.
pub open spec fn all_segments<W>(geoms: Seq<NodeGeom<W>>, wires: Seq<Wire>) -> Seq<WireSeg<W>> {
    segments(geoms, wires, wires.len())
}

/// The last drawn node with id `id`.
fn find_geom<W>(geoms: &Vec<NodeGeom<W>>, id: &str) -> (r: Option<usize>)
    ensures
        match r {
            Some(i) => geom_with_id(geoms@, id@) == Some(i as int) && i < geoms@.len(),
            None => geom_with_id(geoms@, id@) is None,
        },
{
    let mut i: usize = geoms.len();
    assert(geoms@.take(i as int) =~= geoms@);
    while i > 0
        invariant
            i <= geoms@.len(),
            geom_with_id(geoms@, id@) == geom_with_id(geoms@.take(i as int), id@),
        decreases i,
    {
        assert(geoms@.take(i as int).drop_last() =~= geoms@.take(i - 1));
        i -= 1;
        if same_text(geoms[i].id.as_str(), id) {
            return Some(i);
        }
    }
    None
}

/// The port that follows `n` others of the same name `name`.
fn find_port<W>(ports: &Vec<PortGeom<W>>, name: &str, n: usize) -> (r: Option<usize>)
    ensures
        match r {
            Some(k) => nth_named(ports@, name@, n as nat) == Some(k as int) && k < ports@.len(),
            None => nth_named(ports@, name@, n as nat) is None,
        },
{
    let mut left: usize = n;
    let mut k: usize = 0;
    assert(ports@.skip(0) =~= ports@);
    while k < ports.len()
        invariant
            k <= ports@.len(),
            nth_named(ports@, name@, n as nat) == shifted(
                nth_named(ports@.skip(k as int), name@, left as nat),
                k as int,
            ),
        decreases ports.len() - k,
    {
        assert(ports@.skip(k as int).drop_first() =~= ports@.skip(k + 1));
        if same_text(ports[k].name.as_str(), name) {
            if left == 0 {
                return Some(k);
            }
            left -= 1;
        }
        k += 1;
    }
    None
}

/// How many of the wires before the `i`-th lead to the same input and have both nodes drawn.
fn count_placed<W>(geoms: &Vec<NodeGeom<W>>, wires: &Vec<Wire>, drawn: &Vec<bool>, i: usize) -> (r:
    usize)
    requires
        i < wires@.len(),
        drawn@.len() >= i,
        forall|j: int| 0 <= j < i ==> #[trigger] drawn@[j] == ends_drawn(geoms@, wires@[j]),
    ensures
        r == placed_before(geoms@, wires@, i as int),
        r <= i,
{
    let ghost placed = |w: Wire| w.to@ == wires@[i as int].to@ && ends_drawn(geoms@, w);
    let mut r: usize = 0;
    let mut j: usize = 0;
    proof {
        reveal(Seq::filter);
        assert(wires@.take(0) =~= Seq::empty());
    }
    while j < i
        invariant
            j <= i < wires@.len(),
            drawn@.len() >= i,
            r <= j,
            placed == (|w: Wire| w.to@ == wires@[i as int].to@ && ends_drawn(geoms@, w)),
            forall|j: int| 0 <= j < i ==> #[trigger] drawn@[j] == ends_drawn(geoms@, wires@[j]),
            r == wires@.take(j as int).filter(placed).len(),
        decreases i - j,
    {
        proof {
            reveal(Seq::filter);
            assert(wires@.take(j + 1).drop_last() =~= wires@.take(j as int));
            assert(wires@.take(j + 1).last() == wires@[j as int]);
        }
        if drawn[j] && wires[j].to.same(&wires[i].to) {
            r += 1;
        }
        j += 1;
    }
    r
}

impl<P: Copy> GraphView<P> {
    /// Each wire between the points it is drawn between, with its index. Wires of which a node or
    /// a port is missing are skipped.
    pub fn wire_segments<W: Copy>(&self, geoms: &Vec<NodeGeom<W>>) -> (r: Vec<WireSeg<W>>)
        ensures
            r@ == all_segments(geoms@, self.patch.wires@),
    {
        let ghost wires = self.patch.wires@;
        let mut segs: Vec<WireSeg<W>> = Vec::new();
        let mut drawn: Vec<bool> = Vec::new();
        let mut i: usize = 0;
        while i < self.patch.wires.len()
            invariant
                wires == self.patch.wires@,
                i <= wires.len(),
                drawn@.len() == i,
                forall|j: int| 0 <= j < i ==> #[trigger] drawn@[j] == ends_drawn(geoms@, wires[j]),
                segs@ == segments(geoms@, wires, i as nat),
            decreases self.patch.wires.len() - i,
        {
            let w = &self.patch.wires[i];
            let mut seg: Option<WireSeg<W>> = None;
            let mut both = false;
            if let (Some(f), Some(t)) = (
                find_geom(geoms, w.from.node()),
                find_geom(geoms, w.to.node()),
            ) {
                both = true;
                let nth: usize = count_placed(geoms, &self.patch.wires, &drawn, i);
                if let (Some(o), Some(k)) = (
                    find_port(&geoms[f].outputs, w.from.port(), 0),
                    find_port(&geoms[t].inputs, w.to.port(), nth),
                ) {
                    seg = Some(
                        WireSeg { index: i, a: geoms[f].outputs[o].pos, b: geoms[t].inputs[k].pos },
                    );
                }
            }
            assert(both == ends_drawn(geoms@, wires[i as int]));
            assert(seg == segment_of(geoms@, wires, i as int));
            drawn.push(both);
            if let Some(s) = seg {
                segs.push(s);
            }
            i += 1;
        }
        segs
    }
}

/// The segments are those of the wires that have one, in the order of the wires.
pub proof fn law_segments_are_in_wire_order<W>(geoms: Seq<NodeGeom<W>>, wires: Seq<Wire>, n: nat)
    requires
        n <= wires.len() <= usize::MAX,
    ensures
        forall|k: int|
            0 <= k < segments(geoms, wires, n).len() ==> {
                let s = #[trigger] segments(geoms, wires, n)[k];
                s.index < n && segment_of(geoms, wires, s.index as int) == Some(s)
            },
        forall|j: int, k: int|
            0 <= j < k < segments(geoms, wires, n).len() ==> (#[trigger] segments(
                geoms,
                wires,
                n,
            )[j]).index < (#[trigger] segments(geoms, wires, n)[k]).index,
        forall|i: int|
            0 <= i < n && (#[trigger] segment_of(geoms, wires, i)) is Some ==> segments(
                geoms,
                wires,
                n,
            ).contains(segment_of(geoms, wires, i)->0),
    decreases n,
{
    if n > 0 {
        let before = segments(geoms, wires, (n - 1) as nat);
        let all = segments(geoms, wires, n);
        law_segments_are_in_wire_order(geoms, wires, (n - 1) as nat);
        assert forall|i: int| 0 <= i < n && (
        #[trigger] segment_of(geoms, wires, i)) is Some implies all.contains(
            segment_of(geoms, wires, i)->0,
        ) by {
            let s = segment_of(geoms, wires, i)->0;
            if i == n - 1 {
                assert(all[all.len() - 1] == s);
            } else {
                let k = choose|k: int| 0 <= k < before.len() && before[k] == s;
                assert(all[k] == s);
            }
        }
    }
}

/// Of two indices, the later one counts more ports of the name before it.
proof fn lemma_nth_named<W>(ports: Seq<PortGeom<W>>, name: Seq<char>, m: nat, n: nat)
    requires
        m < n,
        nth_named(ports, name, n) is Some,
    ensures
        nth_named(ports, name, m) is Some,
        0 <= nth_named(ports, name, m)->0 < nth_named(ports, name, n)->0 < ports.len(),
    decreases ports.len(),
{
    let rest = ports.drop_first();
    if ports[0].name@ != name {
        lemma_nth_named(rest, name, m, n);
    } else if m > 0 {
        lemma_nth_named(rest, name, (m - 1) as nat, (n - 1) as nat);
    } else {
        lemma_nth_named_in_range(rest, name, (n - 1) as nat);
    }
}

proof fn lemma_nth_named_in_range<W>(ports: Seq<PortGeom<W>>, name: Seq<char>, n: nat)
    ensures
        match nth_named(ports, name, n) {
            Some(k) => 0 <= k < ports.len() && ports[k].name@ == name,
            None => true,
        },
    decreases ports.len(),
{
    if ports.len() > 0 {
        lemma_nth_named_in_range(ports.drop_first(), name, n);
        if n > 0 {
            lemma_nth_named_in_range(ports.drop_first(), name, (n - 1) as nat);
        }
    }
}

/// In a list whose ports all have the name, the `n`-th of the name is the `n`-th of all.
proof fn lemma_nth_of_all<W>(ports: Seq<PortGeom<W>>, name: Seq<char>, n: nat)
    requires
        forall|k: int| 0 <= k < ports.len() ==> (#[trigger] ports[k]).name@ == name,
        n < ports.len(),
    ensures
        nth_named(ports, name, n) == Some(n as int),
    decreases ports.len(),
{
    if n > 0 {
        let rest = ports.drop_first();
        assert forall|k: int| 0 <= k < rest.len() implies (#[trigger] rest[k]).name@ == name by {
            assert(rest[k] == ports[k + 1]);
        }
        lemma_nth_of_all(rest, name, (n - 1) as nat);
    }
}

/// More wires, more of them kept by a filter; the next one counts if it is kept.
proof fn lemma_filter_grows(wires: Seq<Wire>, keep: spec_fn(Wire) -> bool, i: int, j: int)
    requires
        0 <= i < j <= wires.len(),
    ensures
        wires.take(j).filter(keep).len() >= wires.take(i).filter(keep).len() + if keep(wires[i]) {
            1int
        } else {
            0
        },
    decreases j - i,
{
    reveal(Seq::filter);
    assert(wires.take(j).drop_last() =~= wires.take(j - 1));
    if i < j - 1 {
        lemma_filter_grows(wires, keep, i, j - 1);
    }
}

/// Two wires to the same input are drawn to different inlets, in the order of the wires.
pub proof fn law_wires_take_inlets_in_order<W>(
    geoms: Seq<NodeGeom<W>>,
    wires: Seq<Wire>,
    i: int,
    j: int,
)
    requires
        0 <= i < j < wires.len(),
        wires[i].to@ == wires[j].to@,
        inlet_of(geoms, wires, i) is Some,
        inlet_of(geoms, wires, j) is Some,
    ensures
        inlet_of(geoms, wires, i)->0 < inlet_of(geoms, wires, j)->0,
{
    let keep = |w: Wire| w.to@ == wires[i].to@ && ends_drawn(geoms, w);
    lemma_filter_grows(wires, keep, i, j);
    let node = geoms[geom_with_id(geoms, wires[i].to@.0)->0];
    lemma_nth_named(
        node.inputs@,
        wires[i].to@.1,
        placed_before(geoms, wires, i),
        placed_before(geoms, wires, j),
    );
}

/// Each wire with both nodes drawn into a variadic input has its own inlet, and the last inlet
/// stays free for the next wire.
pub proof fn law_variadic_input_keeps_a_spare_inlet<P, W, F: Fn(Center<P>, Microns) -> W>(
    at: F,
    patch: Patch<P>,
    geoms: Seq<NodeGeom<W>>,
    i: int,
)
    requires
        geoms.len() == patch.nodes@.len(),
        forall|k: int| 0 <= k < geoms.len() ==> node_drawn(at, patch, k, #[trigger] geoms[k]),
        0 <= i < patch.wires@.len(),
        ends_drawn(geoms, patch.wires@[i]),
        variadic_port(
            Some(patch.nodes@[geom_with_id(geoms, patch.wires@[i].to@.0)->0]@),
            patch.wires@[i].to@.1,
        ),
    ensures
        inlet_of(geoms, patch.wires@, i) == Some(
            placed_before(geoms, patch.wires@, i) as int,
        ),
        inlet_of(geoms, patch.wires@, i)->0 < geoms[geom_with_id(
            geoms,
            patch.wires@[i].to@.0,
        )->0].inputs@.len() - 1,
{
    let wires = patch.wires@;
    let to = wires[i].to@;
    lemma_geom_with_id(geoms, to.0);
    let g = geom_with_id(geoms, to.0)->0;
    let node = patch.nodes@[g]@;
    assert(node_drawn(at, patch, g, geoms[g]));
    let list = input_names(wires, node);
    let ports = geoms[g].inputs@;
    assert(list.len() == wires_into(wires, to.0, to.1) + 1);
    assert(ports.len() == list.len());
    assert forall|k: int| 0 <= k < ports.len() implies (#[trigger] ports[k]).name@ == to.1 by {
        assert(list[k] == to.1);
    }
    let any = |w: Wire| w.to@ == (to.0, to.1);
    let placed = |w: Wire| w.to@ == wires[i].to@ && ends_drawn(geoms, w);
    lemma_filter_shrinks(wires.take(i), placed, any);
    lemma_filter_grows(wires, any, i, wires.len() as int);
    assert(wires.take(wires.len() as int) =~= wires);
    lemma_nth_of_all(ports, to.1, placed_before(geoms, wires, i));
}

proof fn lemma_geom_with_id<W>(geoms: Seq<NodeGeom<W>>, id: Seq<char>)
    ensures
        match geom_with_id(geoms, id) {
            Some(g) => 0 <= g < geoms.len() && geoms[g].id@ == id,
            None => true,
        },
    decreases geoms.len(),
{
    if geoms.len() > 0 {
        lemma_geom_with_id(geoms.drop_last(), id);
    }
}

/// A stricter filter keeps no more.
proof fn lemma_filter_shrinks(
    wires: Seq<Wire>,
    strict: spec_fn(Wire) -> bool,
    loose: spec_fn(Wire) -> bool,
)
    requires
        forall|w: Wire| #[trigger] strict(w) ==> loose(w),
    ensures
        wires.filter(strict).len() <= wires.filter(loose).len(),
    decreases wires.len(),
{
    reveal(Seq::filter);
    if wires.len() > 0 {
        lemma_filter_shrinks(wires.drop_last(), strict, loose);
    }
}

} // verus!
