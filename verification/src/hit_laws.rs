//! What hit-testing finds, in terms of the drawn nodes, ports and wires.

use vstd::prelude::*;

use crate::graph::{
    node_drawn, Center, Gap, Microns, NodeGeom, PortGeom, PortRef, Rect, WireSeg,
};
use crate::hit::{
    all_ports, band_keys, boxes_tested, centers, ends, geoms_drawn, inlet_hit, is_first_least,
    last_set, marker_keys, measured, node_hit, pair_view, picks, port_hit, ports_of, spanned, text,
    wire_hit,
};
use crate::model::{Endpoint, Patch};
use crate::segments::{all_segments, law_segments_are_in_wire_order};

verus! {

/// The last flag that is set is set, and no later one is; if there is none, none is set.
pub proof fn law_last_set_is_set(flags: Seq<bool>)
    ensures
        match last_set(flags) {
            Some(i) => {
                &&& 0 <= i < flags.len()
                &&& flags[i]
                &&& forall|j: int| i < j < flags.len() ==> !#[trigger] flags[j]
            },
            None => forall|j: int| 0 <= j < flags.len() ==> !#[trigger] flags[j],
        },
    decreases flags.len(),
{
    if flags.len() > 0 {
        let rest = flags.drop_last();
        law_last_set_is_set(rest);
        assert(flags[flags.len() - 1] == flags.last());
        if !flags.last() {
            assert forall|j: int|
                (match last_set(rest) {
                    Some(i) => i,
                    None => -1,
                }) < j < flags.len() implies !#[trigger] flags[j] by {
                if j < rest.len() {
                    assert(rest[j] == flags[j]);
                }
            }
        }
    }
}

/// The node that is hit has the point inside its box, and no node drawn after it has; if no node is
/// hit, none has. The result are the drawn nodes, and whether each has the point inside.
pub proof fn law_topmost_node_is_hit<
    P,
    W,
    A: Fn(Center<P>, Microns) -> W,
    I: Fn(W, Rect<W>) -> bool,
>(at: A, inside: I, patch: Patch<P>, point: W, hit: Option<String>) -> (r: (
    Seq<NodeGeom<W>>,
    Seq<bool>,
))
    requires
        node_hit(at, inside, patch, point, text(hit)),
    ensures
        r.0.len() == patch.nodes@.len(),
        forall|i: int| 0 <= i < r.0.len() ==> node_drawn(at, patch, i, #[trigger] r.0[i]),
        r.1.len() == r.0.len(),
        forall|i: int|
            0 <= i < r.0.len() ==> inside.ensures((point, r.0[i].rect), #[trigger] r.1[i]),
        match hit {
            Some(id) => exists|i: int|
                {
                    &&& 0 <= i < r.1.len()
                    &&& #[trigger] r.1[i]
                    &&& patch.nodes@[i].id@ == id@
                    &&& forall|j: int| i < j < r.1.len() ==> !#[trigger] r.1[j]
                },
            None => forall|j: int| 0 <= j < r.1.len() ==> !#[trigger] r.1[j],
        },
{
    let (geoms, flags) = choose|geoms: Seq<NodeGeom<W>>, flags: Seq<bool>|
        {
            &&& geoms_drawn(at, patch, geoms)
            &&& #[trigger] boxes_tested(inside, point, geoms, flags)
            &&& text(hit) == match last_set(flags) {
                Some(i) => Some(patch.nodes@[i].id@),
                None => None,
            }
        };
    law_last_set_is_set(flags);
    (geoms, flags)
}

/// The `k`-th port of a drawn node, counting its inputs and then its outputs.
pub open spec fn port_at<W>(g: NodeGeom<W>, k: int) -> PortGeom<W> {
    if k < g.inputs@.len() {
        g.inputs@[k]
    } else {
        g.outputs@[k - g.inputs@.len()]
    }
}

/// The ports are those of the drawn nodes, each once, in the order of the nodes, inputs before
/// outputs. The result says of each of which node it is, and the how manieth.
pub proof fn law_ports_are_listed_in_order<W>(geoms: Seq<NodeGeom<W>>) -> (from: Seq<(int, int)>)
    ensures
        from.len() == all_ports(geoms).len(),
        forall|m: int|
            0 <= m < from.len() ==> {
                let (i, k) = #[trigger] from[m];
                &&& 0 <= i < geoms.len()
                &&& 0 <= k < geoms[i].inputs@.len() + geoms[i].outputs@.len()
                &&& all_ports(geoms)[m].node@ == geoms[i].id@
                &&& all_ports(geoms)[m].port@ == port_at(geoms[i], k).name@
                &&& all_ports(geoms)[m].is_output == port_at(geoms[i], k).is_output
                &&& all_ports(geoms)[m].pos == port_at(geoms[i], k).pos
            },
        forall|l: int, m: int|
            0 <= l < m < from.len() ==> (#[trigger] from[l]).0 < (#[trigger] from[m]).0
                || from[l].0 == from[m].0 && from[l].1 < from[m].1,
        forall|i: int, k: int|
            0 <= i < geoms.len() && 0 <= k < geoms[i].inputs@.len() + geoms[i].outputs@.len()
                ==> #[trigger] from.contains((i, k)),
    decreases geoms.len(),
{
    if geoms.len() == 0 {
        Seq::empty()
    } else {
        let rest = geoms.drop_last();
        let last = geoms.len() - 1;
        let g = geoms.last();
        let before = law_ports_are_listed_in_order(rest);
        let count = g.inputs@.len() + g.outputs@.len();
        let own = Seq::new(count, |k: int| (last, k));
        let from = before + own;
        let ports = all_ports(geoms);
        assert(ports_of(g).len() == count);
        assert forall|m: int| 0 <= m < from.len() implies {
            let (i, k) = #[trigger] from[m];
            &&& 0 <= i < geoms.len()
            &&& 0 <= k < geoms[i].inputs@.len() + geoms[i].outputs@.len()
            &&& ports[m].node@ == geoms[i].id@
            &&& ports[m].port@ == port_at(geoms[i], k).name@
            &&& ports[m].is_output == port_at(geoms[i], k).is_output
            &&& ports[m].pos == port_at(geoms[i], k).pos
        } by {
            if m < before.len() {
                assert(from[m] == before[m]);
                assert(ports[m] == all_ports(rest)[m]);
                assert(rest[before[m].0] == geoms[before[m].0]);
            } else {
                let k = m - before.len();
                assert(from[m] == (last, k));
                assert(ports[m] == ports_of(g)[k]);
            }
        }
        assert forall|l: int, m: int| 0 <= l < m < from.len() implies (#[trigger] from[l]).0 < (
        #[trigger] from[m]).0 || from[l].0 == from[m].0 && from[l].1 < from[m].1 by {
            if m < before.len() {
                assert(from[l] == before[l] && from[m] == before[m]);
            } else if l < before.len() {
                assert(from[l] == before[l]);
            }
        }
        assert forall|i: int, k: int|
            0 <= i < geoms.len() && 0 <= k < geoms[i].inputs@.len()
                + geoms[i].outputs@.len() implies #[trigger] from.contains((i, k)) by {
            if i < last {
                assert(rest[i] == geoms[i]);
                assert(before.contains((i, k)));
                let m = choose|m: int| 0 <= m < before.len() && before[m] == (i, k);
                assert(from[m] == (i, k));
            } else {
                assert(from[before.len() + k] == (i, k));
            }
        }
        from
    }
}

/// The `m`-th of the gaps is one at which the point is on the marker, and of these it is the first
/// of those that are nearest.
pub open spec fn is_nearest_on_marker(gaps: Seq<Gap>, reach: u32, m: int) -> bool {
    &&& 0 <= m < gaps.len()
    &&& gaps[m].dx <= reach
    &&& gaps[m].dy <= reach
    &&& forall|q: int|
        0 <= q < gaps.len() && (#[trigger] gaps[q]).dx <= reach && gaps[q].dy <= reach
            ==> gaps[m].d2 <= gaps[q].d2 && (q < m ==> gaps[m].d2 < gaps[q].d2)
}

/// The port that is hit is one on whose marker the point is, and the nearest of these, the first
/// listed of equally near ones; if no port is hit, the point is on no marker. The result are the
/// drawn nodes, which port of which node each listed one is, and how far the point is from it.
pub proof fn law_nearest_port_is_hit<
    P,
    W,
    A: Fn(Center<P>, Microns) -> W,
    G: Fn(W, W) -> Gap,
>(at: A, gap: G, patch: Patch<P>, point: W, reach: u32, hit: Option<PortRef<W>>) -> (r: (
    Seq<NodeGeom<W>>,
    Seq<(int, int)>,
    Seq<Gap>,
))
    requires
        port_hit(at, gap, patch, point, reach, hit),
    ensures
        r.0.len() == patch.nodes@.len(),
        forall|i: int| 0 <= i < r.0.len() ==> node_drawn(at, patch, i, #[trigger] r.0[i]),
        r.1.len() == r.2.len(),
        forall|m: int|
            0 <= m < r.1.len() ==> 0 <= (#[trigger] r.1[m]).0 < r.0.len() && 0 <= r.1[m].1
                < r.0[r.1[m].0].inputs@.len() + r.0[r.1[m].0].outputs@.len(),
        forall|l: int, m: int|
            0 <= l < m < r.1.len() ==> (#[trigger] r.1[l]).0 < (#[trigger] r.1[m]).0 || r.1[l].0
                == r.1[m].0 && r.1[l].1 < r.1[m].1,
        forall|i: int, k: int|
            0 <= i < r.0.len() && 0 <= k < r.0[i].inputs@.len() + r.0[i].outputs@.len()
                ==> #[trigger] r.1.contains((i, k)),
        forall|m: int|
            0 <= m < r.2.len() ==> gap.ensures(
                (point, port_at(r.0[r.1[m].0], r.1[m].1).pos),
                #[trigger] r.2[m],
            ),
        match hit {
            Some(p) => exists|m: int|
                {
                    &&& #[trigger] is_nearest_on_marker(r.2, reach, m)
                    &&& p.node@ == patch.nodes@[r.1[m].0].id@
                    &&& p.port@ == port_at(r.0[r.1[m].0], r.1[m].1).name@
                    &&& p.is_output == port_at(r.0[r.1[m].0], r.1[m].1).is_output
                    &&& p.pos == port_at(r.0[r.1[m].0], r.1[m].1).pos
                },
            None => forall|q: int|
                0 <= q < r.2.len() ==> (#[trigger] r.2[q]).dx > reach || r.2[q].dy > reach,
        },
{
    let (geoms, gaps) = choose|geoms: Seq<NodeGeom<W>>, gaps: Seq<Gap>|
        {
            &&& geoms_drawn(at, patch, geoms)
            &&& #[trigger] measured(gap, point, centers(all_ports(geoms)), gaps)
            &&& picks(all_ports(geoms), marker_keys(gaps, reach), hit)
        };
    let from = law_ports_are_listed_in_order(geoms);
    let ports = all_ports(geoms);
    let keys = marker_keys(gaps, reach);
    assert forall|m: int| 0 <= m < gaps.len() implies gap.ensures(
        (point, port_at(geoms[from[m].0], from[m].1).pos),
        #[trigger] gaps[m],
    ) by {
        assert(centers(ports)[m] == ports[m].pos);
    }
    lemma_least_on_marker(gaps, reach);
    if let Some(p) = hit {
        let m = choose|m: int|
            #[trigger] is_first_least(keys, Some(m)) && 0 <= m < ports.len() && p == ports[m];
        assert(keys[m] is Some);
        assert(gaps[m].dx <= reach);
        assert(is_nearest_on_marker(gaps, reach, m));
        assert(node_drawn(at, patch, from[m].0, geoms[from[m].0]));
    }
    (geoms, from, gaps)
}

/// Keys are given exactly for the gaps at which the point is on the marker.
proof fn lemma_least_on_marker(gaps: Seq<Gap>, reach: u32)
    ensures
        marker_keys(gaps, reach).len() == gaps.len(),
        forall|q: int|
            0 <= q < gaps.len() ==> (#[trigger] marker_keys(gaps, reach)[q] is Some) == (gaps[q].dx
                <= reach && gaps[q].dy <= reach),
        forall|q: int|
            0 <= q < gaps.len() && (#[trigger] gaps[q]).dx <= reach && gaps[q].dy <= reach
                ==> marker_keys(gaps, reach)[q] == Some(gaps[q].d2),
        forall|q: int|
            0 <= q < gaps.len() && !((#[trigger] gaps[q]).dx <= reach && gaps[q].dy <= reach)
                ==> marker_keys(gaps, reach)[q] is None,
{
}

/// The wire found at an inlet is the very wire whose segment ends there: the point is on the marker
/// of that end, and no other end with the point on its marker is nearer, nor equally near and
/// before it. If no wire is found, the point is on the marker of no end. The result are the drawn
/// nodes, how far the point is from the end of each segment, and which segment is the one found.
pub proof fn law_wire_at_an_inlet_ends_there<
    P,
    W,
    A: Fn(Center<P>, Microns) -> W,
    G: Fn(W, W) -> Gap,
>(
    at: A,
    gap: G,
    patch: Patch<P>,
    point: W,
    reach: u32,
    hit: Option<(Endpoint, Endpoint)>,
) -> (r: (Seq<NodeGeom<W>>, Seq<Gap>, int))
    requires
        inlet_hit(at, gap, patch, point, reach, pair_view(hit)),
    ensures
        r.0.len() == patch.nodes@.len(),
        forall|i: int| 0 <= i < r.0.len() ==> node_drawn(at, patch, i, #[trigger] r.0[i]),
        r.1.len() == all_segments(r.0, patch.wires@).len(),
        forall|m: int|
            0 <= m < r.1.len() ==> gap.ensures(
                (point, all_segments(r.0, patch.wires@)[m].b),
                #[trigger] r.1[m],
            ),
        match hit {
            Some((from, to)) => {
                let i = all_segments(r.0, patch.wires@)[r.2].index as int;
                &&& is_nearest_on_marker(r.1, reach, r.2)
                &&& 0 <= i < patch.wires@.len()
                &&& patch.wires@[i].from.0@ == from.0@
                &&& patch.wires@[i].from.1@ == from.1@
                &&& patch.wires@[i].to.0@ == to.0@
                &&& patch.wires@[i].to.1@ == to.1@
            },
            None => forall|q: int|
                0 <= q < r.1.len() ==> (#[trigger] r.1[q]).dx > reach || r.1[q].dy > reach,
        },
{
    let (geoms, gaps, seg) = choose|
        geoms: Seq<NodeGeom<W>>,
        gaps: Seq<Gap>,
        seg: Option<WireSeg<W>>,
    |
        {
            &&& geoms_drawn(at, patch, geoms)
            &&& #[trigger] measured(gap, point, ends(all_segments(geoms, patch.wires@)), gaps)
            &&& #[trigger] picks(
                all_segments(geoms, patch.wires@),
                marker_keys(gaps, reach),
                seg,
            )
            &&& pair_view(hit) == crate::hit::seg_ends(patch.wires@, seg)
        };
    let segs = all_segments(geoms, patch.wires@);
    let keys = marker_keys(gaps, reach);
    assert(patch.wires@.len() == patch.wires.len());
    law_segments_are_in_wire_order(geoms, patch.wires@, patch.wires@.len());
    assert forall|m: int| 0 <= m < gaps.len() implies gap.ensures(
        (point, segs[m].b),
        #[trigger] gaps[m],
    ) by {
        assert(ends(segs)[m] == segs[m].b);
    }
    lemma_least_on_marker(gaps, reach);
    if let Some(s) = seg {
        let m = choose|m: int|
            #[trigger] is_first_least(keys, Some(m)) && 0 <= m < segs.len() && s == segs[m];
        assert(keys[m] is Some);
        assert(gaps[m].dx <= reach);
        let i = segs[m].index as int;
        assert(0 <= i < patch.wires@.len());
        let (from, to) = hit->0;
        assert(pair_view(hit) == Some((from@, to@)));
        assert((from@, to@) == patch.wires@[i]@);
        let wire = patch.wires@[i];
        assert(from@ == wire.from@ && to@ == wire.to@);
        assert(wire.from.0@ == from.0@ && wire.from.1@ == from.1@);
        assert(wire.to.0@ == to.0@ && wire.to.1@ == to.1@);
        assert(is_nearest_on_marker(gaps, reach, m));
        (geoms, gaps, m)
    } else {
        (geoms, gaps, 0)
    }
}

/// The wire that is hit is one whose segment is no further from the point than the bound, and no
/// other is nearer, nor equally near and before it. If no wire is hit, all are further. The result
/// are the drawn nodes, how far each segment is, and which segment is the one that is hit.
pub proof fn law_nearest_wire_is_hit<
    P,
    W,
    A: Fn(Center<P>, Microns) -> W,
    D: Fn(W, WireSeg<W>) -> u32,
>(at: A, dist: D, patch: Patch<P>, point: W, max: u32, hit: Option<usize>) -> (r: (
    Seq<NodeGeom<W>>,
    Seq<u32>,
    int,
))
    requires
        wire_hit(at, dist, patch, point, max, hit),
    ensures
        r.0.len() == patch.nodes@.len(),
        forall|i: int| 0 <= i < r.0.len() ==> node_drawn(at, patch, i, #[trigger] r.0[i]),
        r.1.len() == all_segments(r.0, patch.wires@).len(),
        forall|m: int|
            0 <= m < r.1.len() ==> dist.ensures(
                (point, all_segments(r.0, patch.wires@)[m]),
                #[trigger] r.1[m],
            ),
        match hit {
            Some(i) => {
                &&& 0 <= r.2 < r.1.len()
                &&& r.1[r.2] <= max
                &&& all_segments(r.0, patch.wires@)[r.2].index == i
                &&& forall|q: int|
                    0 <= q < r.1.len() ==> r.1[r.2] <= #[trigger] r.1[q] && (q < r.2 ==> r.1[r.2]
                        < r.1[q])
            },
            None => forall|q: int| 0 <= q < r.1.len() ==> #[trigger] r.1[q] > max,
        },
{
    let (geoms, dists, seg) = choose|
        geoms: Seq<NodeGeom<W>>,
        dists: Seq<u32>,
        seg: Option<WireSeg<W>>,
    |
        {
            &&& geoms_drawn(at, patch, geoms)
            &&& #[trigger] spanned(dist, point, all_segments(geoms, patch.wires@), dists)
            &&& #[trigger] picks(
                all_segments(geoms, patch.wires@),
                band_keys(dists, max),
                seg,
            )
            &&& hit == crate::hit::seg_index(seg)
        };
    let segs = all_segments(geoms, patch.wires@);
    let keys = band_keys(dists, max);
    assert forall|q: int| 0 <= q < dists.len() implies (#[trigger] dists[q] <= max) == (
    keys[q] is Some) && (keys[q] matches Some(d) ==> d == dists[q]) by {}
    if let Some(s) = seg {
        let m = choose|m: int|
            #[trigger] is_first_least(keys, Some(m)) && 0 <= m < segs.len() && s == segs[m];
        assert(keys[m] is Some);
        assert forall|q: int| 0 <= q < dists.len() implies dists[m] <= #[trigger] dists[q] && (q < m
            ==> dists[m] < dists[q]) by {
            if dists[q] <= max {
                assert(keys[q] is Some);
            }
        }
        assert(dists[m] <= max);
        (geoms, dists, m)
    } else {
        assert forall|q: int| 0 <= q < dists.len() implies #[trigger] dists[q] > max by {
            assert(keys[q] is None);
        }
        (geoms, dists, 0)
    }
}

} // verus!
