//! Between which ports the wires are drawn.

use vstd::prelude::*;

use crate::graph::{NodeGeom, PortGeom};
use crate::graph_laws::lemma_filter_counts;
use crate::model::Wire;
use crate::segments::{
    all_segments, ends_drawn, geom_with_id, inlet_of, law_segments_are_in_wire_order, nth_named,
    outlet_of, placed_before, segment_of,
};

verus! {

/// A drawn node has this id.
pub open spec fn is_drawn<W>(geoms: Seq<NodeGeom<W>>, id: Seq<char>) -> bool {
    exists|g: int| 0 <= g < geoms.len() && (#[trigger] geoms[g]).id@ == id
}

/// The `g`-th drawn node has this id, and no later one has.
pub open spec fn is_topmost_with_id<W>(geoms: Seq<NodeGeom<W>>, id: Seq<char>, g: int) -> bool {
    &&& 0 <= g < geoms.len()
    &&& geoms[g].id@ == id
    &&& forall|h: int| g < h < geoms.len() ==> (#[trigger] geoms[h]).id@ != id
}

/// The places before `k` of ports called `name`.
pub open spec fn named_before<W>(ports: Seq<PortGeom<W>>, name: Seq<char>, k: int) -> Set<int> {
    Set::new(|q: int| 0 <= q < k && ports[q].name@ == name)
}

/// The wires before the `i`-th that lead to the same input and have both nodes drawn.
pub open spec fn rivals_before<W>(geoms: Seq<NodeGeom<W>>, wires: Seq<Wire>, i: int) -> Set<int> {
    Set::new(
        |j: int|
            {
                &&& 0 <= j < i
                &&& wires[j].to.0@ == wires[i].to.0@
                &&& wires[j].to.1@ == wires[i].to.1@
                &&& is_drawn(geoms, wires[j].from.0@)
                &&& is_drawn(geoms, wires[j].to.0@)
            },
    )
}

proof fn lemma_geom_with_id<W>(geoms: Seq<NodeGeom<W>>, id: Seq<char>)
    ensures
        match geom_with_id(geoms, id) {
            Some(g) => is_topmost_with_id(geoms, id, g),
            None => forall|h: int| 0 <= h < geoms.len() ==> (#[trigger] geoms[h]).id@ != id,
        },
        geom_with_id(geoms, id) is Some <==> is_drawn(geoms, id),
    decreases geoms.len(),
{
    if geoms.len() > 0 {
        let rest = geoms.drop_last();
        lemma_geom_with_id(rest, id);
        assert(geoms[geoms.len() - 1] == geoms.last());
        assert forall|h: int| 0 <= h < rest.len() implies #[trigger] geoms[h] == rest[h] by {}
        if geoms.last().id@ != id {
            if is_drawn(geoms, id) {
                let g = choose|g: int| 0 <= g < geoms.len() && (#[trigger] geoms[g]).id@ == id;
                assert(rest[g].id@ == id);
            }
        }
    }
}

proof fn lemma_geom_is_unique<W>(geoms: Seq<NodeGeom<W>>, id: Seq<char>, g: int)
    requires
        is_topmost_with_id(geoms, id, g),
    ensures
        geom_with_id(geoms, id) == Some(g),
{
    lemma_geom_with_id(geoms, id);
    assert(is_drawn(geoms, id));
    let h = geom_with_id(geoms, id)->0;
    if h < g {
        assert(geoms[g].id@ != id);
    } else if g < h {
        assert(geoms[h].id@ != id);
    }
}

proof fn lemma_named_before<W>(ports: Seq<PortGeom<W>>, name: Seq<char>, k: int)
    requires
        0 <= k <= ports.len(),
    ensures
        named_before(ports, name, k).finite(),
        named_before(ports, name, 0) == Set::<int>::empty(),
        k > 0 ==> named_before(ports, name, k).len() == named_before(
            ports.drop_first(),
            name,
            k - 1,
        ).len() + if ports[0].name@ == name {
            1int
        } else {
            0
        },
    decreases k,
{
    let all = named_before(ports, name, k);
    assert(named_before(ports, name, 0) =~= Set::empty());
    if k == 0 {
        assert(all =~= Set::empty());
    } else {
        lemma_named_before(ports, name, k - 1);
        let shorter = named_before(ports, name, k - 1);
        let rest = ports.drop_first();
        lemma_named_before(rest, name, k - 1);
        if ports[k - 1].name@ == name {
            assert(all =~= shorter.insert(k - 1));
        } else {
            assert(all =~= shorter);
        }
        if k == 1 {
            assert(named_before(rest, name, 0) =~= Set::empty());
        } else {
            lemma_named_before(rest, name, k - 2);
            let a = named_before(rest, name, k - 1);
            let b = named_before(rest, name, k - 2);
            assert(rest[k - 2] == ports[k - 1]);
            if ports[k - 1].name@ == name {
                assert(a =~= b.insert(k - 2));
            } else {
                assert(a =~= b);
            }
        }
    }
}

/// The port found after `n` others of its name has that name, and so many of them before it.
proof fn lemma_nth_named<W>(ports: Seq<PortGeom<W>>, name: Seq<char>, n: nat)
    ensures
        match nth_named(ports, name, n) {
            Some(k) => {
                &&& 0 <= k < ports.len()
                &&& ports[k].name@ == name
                &&& named_before(ports, name, k).len() == n
            },
            None => forall|k: int|
                0 <= k < ports.len() && (#[trigger] ports[k]).name@ == name ==> named_before(
                    ports,
                    name,
                    k,
                ).len() != n,
        },
    decreases ports.len(),
{
    if ports.len() > 0 {
        let rest = ports.drop_first();
        let hit = ports[0].name@ == name;
        if hit && n == 0 {
            lemma_named_before(ports, name, 0);
        } else {
            let m = if hit {
                (n - 1) as nat
            } else {
                n
            };
            lemma_nth_named(rest, name, m);
            if let Some(k) = nth_named(rest, name, m) {
                lemma_named_before(ports, name, k + 1);
                assert(rest[k] == ports[k + 1]);
            } else {
                assert forall|k: int|
                    0 <= k < ports.len() && (#[trigger] ports[k]).name@ == name implies named_before(
                    ports,
                    name,
                    k,
                ).len() != n by {
                    lemma_named_before(ports, name, k);
                    if k > 0 {
                        assert(rest[k - 1] == ports[k]);
                        assert(named_before(rest, name, k - 1).len() != m);
                    }
                }
            }
        }
    }
}

proof fn lemma_rivals<W>(geoms: Seq<NodeGeom<W>>, wires: Seq<Wire>, i: int)
    requires
        0 <= i < wires.len(),
    ensures
        rivals_before(geoms, wires, i).finite(),
        placed_before(geoms, wires, i) == rivals_before(geoms, wires, i).len(),
{
    let placed = |w: Wire| w.to@ == wires[i].to@ && ends_drawn(geoms, w);
    let head = wires.take(i);
    lemma_filter_counts(head, placed);
    let places = Set::new(|j: int| 0 <= j < head.len() && placed(head[j]));
    assert forall|j: int| places.contains(j) <==> #[trigger] rivals_before(
        geoms,
        wires,
        i,
    ).contains(j) by {
        if 0 <= j < i {
            assert(head[j] == wires[j]);
            lemma_geom_with_id(geoms, wires[j].from.0@);
            lemma_geom_with_id(geoms, wires[j].to.0@);
        }
    }
    assert(places =~= rivals_before(geoms, wires, i));
}

/// Every segment is that of one wire. It begins at the first output of its name, of the topmost node
/// that has the id where the wire begins; it ends at an input of its name, of the topmost node that
/// has the id where the wire ends: the one that comes after as many inputs of that name as earlier
/// wires lead there. The result are the two nodes, the output and the input.
pub proof fn law_segment_joins_the_ports_of_its_wire<W>(
    geoms: Seq<NodeGeom<W>>,
    wires: Seq<Wire>,
    k: int,
) -> (r: (int, int, int, int))
    requires
        wires.len() <= usize::MAX,
        0 <= k < all_segments(geoms, wires).len(),
    ensures
        ({
            let s = all_segments(geoms, wires)[k];
            let w = wires[s.index as int];
            let (f, t, o, n) = r;
            &&& s.index < wires.len()
            &&& is_topmost_with_id(geoms, w.from.0@, f)
            &&& is_topmost_with_id(geoms, w.to.0@, t)
            &&& 0 <= o < geoms[f].outputs@.len()
            &&& geoms[f].outputs@[o].name@ == w.from.1@
            &&& forall|q: int| 0 <= q < o ==> (#[trigger] geoms[f].outputs@[q]).name@ != w.from.1@
            &&& s.a == geoms[f].outputs@[o].pos
            &&& 0 <= n < geoms[t].inputs@.len()
            &&& geoms[t].inputs@[n].name@ == w.to.1@
            &&& named_before(geoms[t].inputs@, w.to.1@, n).len() == rivals_before(
                geoms,
                wires,
                s.index as int,
            ).len()
            &&& s.b == geoms[t].inputs@[n].pos
        }),
{
    law_segments_are_in_wire_order(geoms, wires, wires.len());
    let s = all_segments(geoms, wires)[k];
    let i = s.index as int;
    let w = wires[i];
    assert(segment_of(geoms, wires, i) == Some(s));
    lemma_geom_with_id(geoms, w.from.0@);
    lemma_geom_with_id(geoms, w.to.0@);
    let f = geom_with_id(geoms, w.from.0@)->0;
    let t = geom_with_id(geoms, w.to.0@)->0;
    let o = outlet_of(geoms, wires, i)->0;
    let n = inlet_of(geoms, wires, i)->0;
    lemma_nth_named(geoms[f].outputs@, w.from.1@, 0);
    lemma_nth_named(geoms[t].inputs@, w.to.1@, placed_before(geoms, wires, i));
    lemma_rivals(geoms, wires, i);
    assert forall|q: int| 0 <= q < o implies (#[trigger] geoms[f].outputs@[q]).name@
        != w.from.1@ by {
        if geoms[f].outputs@[q].name@ == w.from.1@ {
            lemma_named_before(geoms[f].outputs@, w.from.1@, o);
            assert(named_before(geoms[f].outputs@, w.from.1@, o).contains(q));
            assert(named_before(geoms[f].outputs@, w.from.1@, o).len() > 0);
        }
    }
    (f, t, o, n)
}

/// A wire is drawn if it has an output to begin at and an inlet to end at; there is one segment for
/// it then, and the segments come in the order of the wires.
pub proof fn law_every_wire_with_ports_is_drawn<W>(
    geoms: Seq<NodeGeom<W>>,
    wires: Seq<Wire>,
    i: int,
    f: int,
    t: int,
    o: int,
    n: int,
) -> (k: int)
    requires
        0 <= i < wires.len() <= usize::MAX,
        is_topmost_with_id(geoms, wires[i].from.0@, f),
        is_topmost_with_id(geoms, wires[i].to.0@, t),
        0 <= o < geoms[f].outputs@.len(),
        geoms[f].outputs@[o].name@ == wires[i].from.1@,
        0 <= n < geoms[t].inputs@.len(),
        geoms[t].inputs@[n].name@ == wires[i].to.1@,
        named_before(geoms[t].inputs@, wires[i].to.1@, n).len() == rivals_before(
            geoms,
            wires,
            i,
        ).len(),
    ensures
        0 <= k < all_segments(geoms, wires).len(),
        all_segments(geoms, wires)[k].index == i,
        forall|a: int, b: int|
            0 <= a < b < all_segments(geoms, wires).len() ==> (#[trigger] all_segments(
                geoms,
                wires,
            )[a]).index < (#[trigger] all_segments(geoms, wires)[b]).index,
{
    let w = wires[i];
    lemma_geom_is_unique(geoms, w.from.0@, f);
    lemma_geom_is_unique(geoms, w.to.0@, t);
    lemma_rivals(geoms, wires, i);
    lemma_nth_named(geoms[f].outputs@, w.from.1@, 0);
    lemma_nth_named(geoms[t].inputs@, w.to.1@, placed_before(geoms, wires, i));
    if nth_named(geoms[f].outputs@, w.from.1@, 0) is None {
        let first = lemma_first_named(geoms[f].outputs@, w.from.1@, o);
        assert(geoms[f].outputs@[first].name@ == w.from.1@);
    }
    assert(segment_of(geoms, wires, i) is Some);
    law_segments_are_in_wire_order(geoms, wires, wires.len());
    let s = segment_of(geoms, wires, i)->0;
    let k = choose|k: int|
        0 <= k < all_segments(geoms, wires).len() && all_segments(geoms, wires)[k] == s;
    k
}

/// If a port has the name, one is the first to have it.
proof fn lemma_first_named<W>(ports: Seq<PortGeom<W>>, name: Seq<char>, o: int) -> (first: int)
    requires
        0 <= o < ports.len(),
        ports[o].name@ == name,
    ensures
        0 <= first <= o,
        ports[first].name@ == name,
        named_before(ports, name, first).len() == 0,
    decreases o,
{
    if exists|q: int| 0 <= q < o && (#[trigger] ports[q]).name@ == name {
        let q = choose|q: int| 0 <= q < o && (#[trigger] ports[q]).name@ == name;
        lemma_first_named(ports, name, q)
    } else {
        assert(named_before(ports, name, o) =~= Set::empty());
        o
    }
}

} // verus!
