//! Hit-testing: what is under a point of the world plane.
//!
//! What only the plane can say (where a point is, whether it is in a box, how far it is from
//! another) comes from functions of the caller.

use vstd::prelude::*;

use crate::graph::{
    node_drawn, on_marker, Center, Gap, GraphView, Microns, NodeGeom, PortGeom, PortRef, Rect,
    WireSeg,
};
use crate::model::{Endpoint, Patch, Wire};
use crate::segments::{all_segments, law_segments_are_in_wire_order};

verus! {

/// `geoms` are the nodes of the patch as they are drawn, with points that `at` gives.
pub open spec fn geoms_drawn<P, W, A: Fn(Center<P>, Microns) -> W>(
    at: A,
    patch: Patch<P>,
    geoms: Seq<NodeGeom<W>>,
) -> bool {
    &&& geoms.len() == patch.nodes@.len()
    &&& forall|i: int| 0 <= i < geoms.len() ==> node_drawn(at, patch, i, #[trigger] geoms[i])
}

/// The characters of an optional string.
pub open spec fn text(s: Option<String>) -> Option<Seq<char>> {
    match s {
        Some(t) => Some(t@),
        None => None,
    }
}

/// The index of the last flag that is set.
pub open spec fn last_set(flags: Seq<bool>) -> Option<int>
    decreases flags.len(),
{
    if flags.len() == 0 {
        None
    } else if flags.last() {
        Some(flags.len() - 1)
    } else {
        last_set(flags.drop_last())
    }
}

/// The index of the last flag that is set.
pub fn find_last_set(flags: &Vec<bool>) -> (r: Option<usize>)
    ensures
        match r {
            Some(i) => i < flags@.len() && last_set(flags@) == Some(i as int),
            None => last_set(flags@) is None,
        },
{
    let mut i: usize = flags.len();
    assert(flags@.take(i as int) =~= flags@);
    while i > 0
        invariant
            i <= flags@.len(),
            last_set(flags@) == last_set(flags@.take(i as int)),
        decreases i,
    {
        assert(flags@.take(i as int).drop_last() =~= flags@.take(i - 1));
        i -= 1;
        if flags[i] {
            return Some(i);
        }
    }
    None
}

/// `flags` say of each node whether `inside` finds `point` in its box.
pub open spec fn boxes_tested<W, I: Fn(W, Rect<W>) -> bool>(
    inside: I,
    point: W,
    geoms: Seq<NodeGeom<W>>,
    flags: Seq<bool>,
) -> bool {
    &&& flags.len() == geoms.len()
    &&& forall|i: int|
        0 <= i < geoms.len() ==> inside.ensures((point, geoms[i].rect), #[trigger] flags[i])
}

/// `hit` is the id of the topmost node whose box has `point` inside: the last one drawn.
pub open spec fn node_hit<
    P,
    W,
    A: Fn(Center<P>, Microns) -> W,
    I: Fn(W, Rect<W>) -> bool,
>(at: A, inside: I, patch: Patch<P>, point: W, hit: Option<Seq<char>>) -> bool {
    exists|geoms: Seq<NodeGeom<W>>, flags: Seq<bool>|
        {
            &&& geoms_drawn(at, patch, geoms)
            &&& #[trigger] boxes_tested(inside, point, geoms, flags)
            &&& hit == match last_set(flags) {
                Some(i) => Some(patch.nodes@[i].id@),
                None => None,
            }
        }
}

/// `r` is the place of the least key, the first of equal ones; there is none if no key is given.
pub open spec fn is_first_least(keys: Seq<Option<u32>>, r: Option<int>) -> bool {
    match r {
        Some(k) => {
            &&& 0 <= k < keys.len()
            &&& keys[k] is Some
            &&& forall|j: int|
                0 <= j < keys.len() && (#[trigger] keys[j]) is Some ==> {
                    &&& keys[k]->0 <= keys[j]->0
                    &&& j < k ==> keys[k]->0 < keys[j]->0
                }
        },
        None => forall|j: int| 0 <= j < keys.len() ==> (#[trigger] keys[j]) is None,
    }
}

/// The place of the least key, the first of equal ones.
pub fn first_least(keys: &Vec<Option<u32>>) -> (r: Option<usize>)
    ensures
        match r {
            Some(k) => is_first_least(keys@, Some(k as int)),
            None => is_first_least(keys@, None),
        },
{
    let mut best: Option<(u32, usize)> = None;
    let mut i: usize = 0;
    while i < keys.len()
        invariant
            i <= keys@.len(),
            match best {
                Some((least, k)) => {
                    &&& k < i
                    &&& keys@[k as int] == Some(least)
                    &&& is_first_least(keys@.take(i as int), Some(k as int))
                },
                None => is_first_least(keys@.take(i as int), None),
            },
        decreases keys.len() - i,
    {
        let ghost before = keys@.take(i as int);
        let ghost after = keys@.take(i + 1);
        assert forall|j: int| 0 <= j < before.len() implies #[trigger] after[j] == before[j] by {}
        if let Some(key) = keys[i] {
            let nearer = match best {
                Some((least, _)) => key < least,
                None => true,
            };
            if nearer {
                best = Some((key, i));
            }
        }
        i += 1;
    }
    assert(keys@.take(i as int) =~= keys@);
    match best {
        Some((_, k)) => Some(k),
        None => None,
    }
}

/// `hit` is the item with the least key, the first of equal ones.
pub open spec fn picks<T>(items: Seq<T>, keys: Seq<Option<u32>>, hit: Option<T>) -> bool {
    &&& keys.len() == items.len()
    &&& match hit {
        Some(t) => exists|k: int|
            #[trigger] is_first_least(keys, Some(k)) && 0 <= k < items.len() && t == items[k],
        None => is_first_least(keys, None),
    }
}

/// The ports of a drawn node, inputs before outputs.
pub open spec fn ports_of<W>(g: NodeGeom<W>) -> Seq<PortRef<W>> {
    (g.inputs@ + g.outputs@).map_values(
        |p: PortGeom<W>|
            PortRef { node: g.id, port: p.name, is_output: p.is_output, pos: p.pos },
    )
}

/// The ports of all drawn nodes.
pub open spec fn all_ports<W>(geoms: Seq<NodeGeom<W>>) -> Seq<PortRef<W>>
    decreases geoms.len(),
{
    if geoms.len() == 0 {
        Seq::empty()
    } else {
        all_ports(geoms.drop_last()) + ports_of(geoms.last())
    }
}

/// The points at the centers of the markers of the ports.
pub open spec fn centers<W>(ports: Seq<PortRef<W>>) -> Seq<W> {
    ports.map_values(|p: PortRef<W>| p.pos)
}

/// The points at which the segments end.
pub open spec fn ends<W>(segs: Seq<WireSeg<W>>) -> Seq<W> {
    segs.map_values(|s: WireSeg<W>| s.b)
}

/// `gaps` are how far `gap` finds `point` from each of `centers`.
pub open spec fn measured<W, G: Fn(W, W) -> Gap>(
    gap: G,
    point: W,
    centers: Seq<W>,
    gaps: Seq<Gap>,
) -> bool {
    &&& gaps.len() == centers.len()
    &&& forall|i: int|
        0 <= i < centers.len() ==> gap.ensures((point, centers[i]), #[trigger] gaps[i])
}

/// The squared distance, if the point is on the marker.
pub open spec fn marker_key(gap: Gap, reach: u32) -> Option<u32> {
    if on_marker(gap, reach) {
        Some(gap.d2)
    } else {
        None
    }
}

/// The squared distances of those gaps at which the point is on the marker.
pub open spec fn marker_keys(gaps: Seq<Gap>, reach: u32) -> Seq<Option<u32>> {
    gaps.map_values(|g: Gap| marker_key(g, reach))
}

/// `hit` is the port on whose marker `point` is; of several, the one with the nearest center.
pub open spec fn port_hit<P, W, A: Fn(Center<P>, Microns) -> W, G: Fn(W, W) -> Gap>(
    at: A,
    gap: G,
    patch: Patch<P>,
    point: W,
    reach: u32,
    hit: Option<PortRef<W>>,
) -> bool {
    exists|geoms: Seq<NodeGeom<W>>, gaps: Seq<Gap>|
        {
            &&& geoms_drawn(at, patch, geoms)
            &&& #[trigger] measured(gap, point, centers(all_ports(geoms)), gaps)
            &&& picks(all_ports(geoms), marker_keys(gaps, reach), hit)
        }
}

/// The ends of the `i`-th wire.
pub open spec fn wire_ends(wires: Seq<Wire>, i: int) -> (
    (Seq<char>, Seq<char>),
    (Seq<char>, Seq<char>),
) {
    wires[i]@
}

/// The ends of a pair of endpoints.
pub open spec fn pair_view(pair: Option<(Endpoint, Endpoint)>) -> Option<
    ((Seq<char>, Seq<char>), (Seq<char>, Seq<char>)),
> {
    match pair {
        Some((from, to)) => Some((from@, to@)),
        None => None,
    }
}

/// The ends of the wire of a segment.
pub open spec fn seg_ends<W>(wires: Seq<Wire>, seg: Option<WireSeg<W>>) -> Option<
    ((Seq<char>, Seq<char>), (Seq<char>, Seq<char>)),
> {
    match seg {
        Some(s) => Some(wire_ends(wires, s.index as int)),
        None => None,
    }
}

/// `hit` are the ends of the wire drawn to the inlet on whose marker `point` is; of several, the
/// one with the nearest center.
pub open spec fn inlet_hit<P, W, A: Fn(Center<P>, Microns) -> W, G: Fn(W, W) -> Gap>(
    at: A,
    gap: G,
    patch: Patch<P>,
    point: W,
    reach: u32,
    hit: Option<((Seq<char>, Seq<char>), (Seq<char>, Seq<char>))>,
) -> bool {
    exists|geoms: Seq<NodeGeom<W>>, gaps: Seq<Gap>, seg: Option<WireSeg<W>>|
        {
            &&& geoms_drawn(at, patch, geoms)
            &&& #[trigger] measured(gap, point, ends(all_segments(geoms, patch.wires@)), gaps)
            &&& #[trigger] picks(
                all_segments(geoms, patch.wires@),
                marker_keys(gaps, reach),
                seg,
            )
            &&& hit == seg_ends(patch.wires@, seg)
        }
}

/// `dists` are how far `dist` finds `point` from each of `segs`.
pub open spec fn spanned<W, D: Fn(W, WireSeg<W>) -> u32>(
    dist: D,
    point: W,
    segs: Seq<WireSeg<W>>,
    dists: Seq<u32>,
) -> bool {
    &&& dists.len() == segs.len()
    &&& forall|i: int|
        0 <= i < segs.len() ==> dist.ensures((point, segs[i]), #[trigger] dists[i])
}

/// The distances that are no greater than `max`.
pub open spec fn band_keys(dists: Seq<u32>, max: u32) -> Seq<Option<u32>> {
    dists.map_values(
        |d: u32|
            if d <= max {
                Some(d)
            } else {
                None
            },
    )
}

/// The index of the wire of a segment.
pub open spec fn seg_index<W>(seg: Option<WireSeg<W>>) -> Option<usize> {
    match seg {
        Some(s) => Some(s.index),
        None => None,
    }
}

/// `hit` is the index of the wire whose segment is nearest to `point`, if it is no further than
/// `max`.
pub open spec fn wire_hit<P, W, A: Fn(Center<P>, Microns) -> W, D: Fn(W, WireSeg<W>) -> u32>(
    at: A,
    dist: D,
    patch: Patch<P>,
    point: W,
    max: u32,
    hit: Option<usize>,
) -> bool {
    exists|geoms: Seq<NodeGeom<W>>, dists: Seq<u32>, seg: Option<WireSeg<W>>|
        {
            &&& geoms_drawn(at, patch, geoms)
            &&& #[trigger] spanned(dist, point, all_segments(geoms, patch.wires@), dists)
            &&& #[trigger] picks(
                all_segments(geoms, patch.wires@),
                band_keys(dists, max),
                seg,
            )
            &&& hit == seg_index(seg)
        }
}

/// Adds the ports of one side of a drawn node to a list.
fn push_ports<W: Copy>(refs: &mut Vec<PortRef<W>>, id: &String, ports: &Vec<PortGeom<W>>)
    ensures
        final(refs)@ == old(refs)@ + ports@.map_values(
            |p: PortGeom<W>|
                PortRef { node: *id, port: p.name, is_output: p.is_output, pos: p.pos },
        ),
{
    let ghost given = refs@;
    let ghost as_ref = |p: PortGeom<W>|
        PortRef { node: *id, port: p.name, is_output: p.is_output, pos: p.pos };
    let mut k: usize = 0;
    while k < ports.len()
        invariant
            k <= ports@.len(),
            as_ref == (|p: PortGeom<W>|
                PortRef { node: *id, port: p.name, is_output: p.is_output, pos: p.pos }),
            refs@ == given + ports@.take(k as int).map_values(as_ref),
        decreases ports.len() - k,
    {
        let p = &ports[k];
        refs.push(
            PortRef { node: id.clone(), port: p.name.clone(), is_output: p.is_output, pos: p.pos },
        );
        proof {
            assert(refs@.last() == as_ref(ports@[k as int]));
            assert(refs@ =~= given + ports@.take(k + 1).map_values(as_ref));
        }
        k += 1;
    }
    assert(ports@.take(k as int) =~= ports@);
}

/// The ports of all drawn nodes.
pub fn port_refs<W: Copy>(geoms: &Vec<NodeGeom<W>>) -> (r: Vec<PortRef<W>>)
    ensures
        r@ == all_ports(geoms@),
{
    let mut r: Vec<PortRef<W>> = Vec::new();
    let mut i: usize = 0;
    assert(geoms@.take(0) =~= Seq::empty());
    while i < geoms.len()
        invariant
            i <= geoms@.len(),
            r@ == all_ports(geoms@.take(i as int)),
        decreases geoms.len() - i,
    {
        let ghost before = r@;
        let g = &geoms[i];
        push_ports(&mut r, &g.id, &g.inputs);
        push_ports(&mut r, &g.id, &g.outputs);
        proof {
            assert(geoms@.take(i + 1).drop_last() =~= geoms@.take(i as int));
            assert(geoms@.take(i + 1).last() == geoms@[i as int]);
            assert(r@ =~= before + ports_of(geoms@[i as int]));
        }
        i += 1;
    }
    assert(geoms@.take(i as int) =~= geoms@);
    r
}

/// The squared distance, if the point is on the marker.
fn key_on_marker(gap: Gap, reach: u32) -> (r: Option<u32>)
    ensures
        r == marker_key(gap, reach),
{
    if gap.dx <= reach && gap.dy <= reach {
        Some(gap.d2)
    } else {
        None
    }
}

/// Of the ports, the nearest of those on whose marker the point is, given how far it is from each.
pub fn nearest_port<W: Copy>(ports: &Vec<PortRef<W>>, gaps: &Vec<Gap>, reach: u32) -> (r: Option<
    PortRef<W>,
>)
    requires
        gaps@.len() == ports@.len(),
    ensures
        picks(ports@, marker_keys(gaps@, reach), r),
{
    let keys = keys_on_marker(gaps, reach);
    match first_least(&keys) {
        Some(k) => Some(ports[k].copied()),
        None => None,
    }
}

/// The squared distances of those gaps at which the point is on the marker.
fn keys_on_marker(gaps: &Vec<Gap>, reach: u32) -> (r: Vec<Option<u32>>)
    ensures
        r@ == marker_keys(gaps@, reach),
{
    let mut r: Vec<Option<u32>> = Vec::new();
    let mut i: usize = 0;
    while i < gaps.len()
        invariant
            i <= gaps@.len(),
            r@ == marker_keys(gaps@.take(i as int), reach),
        decreases gaps.len() - i,
    {
        r.push(key_on_marker(gaps[i], reach));
        i += 1;
        assert(r@ =~= marker_keys(gaps@.take(i as int), reach));
    }
    assert(gaps@.take(i as int) =~= gaps@);
    r
}

/// Of the segments, the nearest of those whose end has a marker that the point is on, given how
/// far it is from each end.
pub fn nearest_end<W: Copy>(segs: &Vec<WireSeg<W>>, gaps: &Vec<Gap>, reach: u32) -> (r: Option<
    WireSeg<W>,
>)
    requires
        gaps@.len() == segs@.len(),
    ensures
        picks(segs@, marker_keys(gaps@, reach), r),
{
    let keys = keys_on_marker(gaps, reach);
    match first_least(&keys) {
        Some(k) => Some(segs[k]),
        None => None,
    }
}

/// Of the segments, the nearest of those that are no further than `max`, given how far each is.
pub fn nearest_segment<W: Copy>(segs: &Vec<WireSeg<W>>, dists: &Vec<u32>, max: u32) -> (r: Option<
    WireSeg<W>,
>)
    requires
        dists@.len() == segs@.len(),
    ensures
        picks(segs@, band_keys(dists@, max), r),
{
    let mut keys: Vec<Option<u32>> = Vec::new();
    let mut i: usize = 0;
    while i < dists.len()
        invariant
            i <= dists@.len(),
            keys@ == band_keys(dists@.take(i as int), max),
        decreases dists.len() - i,
    {
        keys.push(
            if dists[i] <= max {
                Some(dists[i])
            } else {
                None
            },
        );
        i += 1;
        assert(keys@ =~= band_keys(dists@.take(i as int), max));
    }
    assert(dists@.take(i as int) =~= dists@);
    match first_least(&keys) {
        Some(k) => Some(segs[k]),
        None => None,
    }
}

impl<P: Copy> GraphView<P> {
    /// The topmost node that has `point` inside its box, if any (last drawn = topmost).
    pub fn hit_node<W: Copy, A: Fn(Center<P>, Microns) -> W, I: Fn(W, Rect<W>) -> bool>(
        &self,
        point: W,
        at: &A,
        inside: &I,
    ) -> (r: Option<String>)
        requires
            self.wf(),
            forall|c: Center<P>, d: Microns| #[trigger] at.requires((c, d)),
            forall|w: W, b: Rect<W>| #[trigger] inside.requires((w, b)),
        ensures
            node_hit(*at, *inside, self.patch, point, text(r)),
    {
        let geoms = self.geoms(at);
        let mut flags: Vec<bool> = Vec::new();
        let mut i: usize = 0;
        while i < geoms.len()
            invariant
                forall|w: W, b: Rect<W>| #[trigger] inside.requires((w, b)),
                i <= geoms@.len(),
                flags@.len() == i,
                forall|j: int|
                    0 <= j < i ==> inside.ensures((point, geoms@[j].rect), #[trigger] flags@[j]),
            decreases geoms.len() - i,
        {
            flags.push(inside(point, geoms[i].rect));
            i += 1;
        }
        assert(boxes_tested(*inside, point, geoms@, flags@));
        match find_last_set(&flags) {
            Some(i) => Some(geoms[i].id.clone()),
            None => None,
        }
    }

    /// The port on whose marker `point` is, if any: no further than `reach` from its center in
    /// either direction. On overlap, the nearest center wins.
    pub fn hit_port<W: Copy, A: Fn(Center<P>, Microns) -> W, G: Fn(W, W) -> Gap>(
        &self,
        point: W,
        at: &A,
        gap: &G,
        reach: u32,
    ) -> (r: Option<PortRef<W>>)
        requires
            self.wf(),
            forall|c: Center<P>, d: Microns| #[trigger] at.requires((c, d)),
            forall|v: W, w: W| #[trigger] gap.requires((v, w)),
        ensures
            port_hit(*at, *gap, self.patch, point, reach, r),
    {
        let geoms = self.geoms(at);
        let ports = port_refs(&geoms);
        let mut gaps: Vec<Gap> = Vec::new();
        let mut i: usize = 0;
        while i < ports.len()
            invariant
                forall|v: W, w: W| #[trigger] gap.requires((v, w)),
                i <= ports@.len(),
                gaps@.len() == i,
                forall|j: int|
                    0 <= j < i ==> gap.ensures((point, ports@[j].pos), #[trigger] gaps@[j]),
            decreases ports.len() - i,
        {
            gaps.push(gap(point, ports[i].pos));
            i += 1;
        }
        assert(measured(*gap, point, centers(ports@), gaps@));
        nearest_port(&ports, &gaps, reach)
    }

    /// The wire drawn to the inlet on whose marker `point` is, if any, as its two ends. The inlets
    /// of a variadic input have the same name, but each has its own source, so the ends say which
    /// wire it is.
    pub fn wire_at_input<W: Copy, A: Fn(Center<P>, Microns) -> W, G: Fn(W, W) -> Gap>(
        &self,
        point: W,
        at: &A,
        gap: &G,
        reach: u32,
    ) -> (r: Option<(Endpoint, Endpoint)>)
        requires
            self.wf(),
            forall|c: Center<P>, d: Microns| #[trigger] at.requires((c, d)),
            forall|v: W, w: W| #[trigger] gap.requires((v, w)),
        ensures
            inlet_hit(*at, *gap, self.patch, point, reach, pair_view(r)),
    {
        let geoms = self.geoms(at);
        let segs = self.wire_segments(&geoms);
        let mut gaps: Vec<Gap> = Vec::new();
        let mut i: usize = 0;
        while i < segs.len()
            invariant
                forall|v: W, w: W| #[trigger] gap.requires((v, w)),
                i <= segs@.len(),
                gaps@.len() == i,
                forall|j: int|
                    0 <= j < i ==> gap.ensures((point, segs@[j].b), #[trigger] gaps@[j]),
            decreases segs.len() - i,
        {
            gaps.push(gap(point, segs[i].b));
            i += 1;
        }
        assert(measured(*gap, point, ends(segs@), gaps@));
        let seg = nearest_end(&segs, &gaps, reach);
        proof {
            assert(self.patch.wires@.len() == self.patch.wires.len());
            law_segments_are_in_wire_order(
                geoms@,
                self.patch.wires@,
                self.patch.wires@.len(),
            );
        }
        match seg {
            Some(s) => {
                let w = &self.patch.wires[s.index];
                Some((w.from.clone(), w.to.clone()))
            },
            None => None,
        }
    }

    /// The index of the wire whose segment is nearest to `point`, if it is no further than `max`.
    pub fn hit_wire<W: Copy, A: Fn(Center<P>, Microns) -> W, D: Fn(W, WireSeg<W>) -> u32>(
        &self,
        point: W,
        at: &A,
        dist: &D,
        max: u32,
    ) -> (r: Option<usize>)
        requires
            self.wf(),
            forall|c: Center<P>, d: Microns| #[trigger] at.requires((c, d)),
            forall|w: W, s: WireSeg<W>| #[trigger] dist.requires((w, s)),
        ensures
            wire_hit(*at, *dist, self.patch, point, max, r),
            r matches Some(i) ==> i < self.patch.wires@.len(),
    {
        let geoms = self.geoms(at);
        let segs = self.wire_segments(&geoms);
        let mut dists: Vec<u32> = Vec::new();
        let mut i: usize = 0;
        while i < segs.len()
            invariant
                forall|w: W, s: WireSeg<W>| #[trigger] dist.requires((w, s)),
                i <= segs@.len(),
                dists@.len() == i,
                forall|j: int|
                    0 <= j < i ==> dist.ensures((point, segs@[j]), #[trigger] dists@[j]),
            decreases segs.len() - i,
        {
            let d: u32 = dist(point, segs[i]);
            dists.push(d);
            i += 1;
        }
        assert(spanned(*dist, point, segs@, dists@));
        let seg = nearest_segment(&segs, &dists, max);
        proof {
            assert(self.patch.wires@.len() == self.patch.wires.len());
            law_segments_are_in_wire_order(
                geoms@,
                self.patch.wires@,
                self.patch.wires@.len(),
            );
        }
        match seg {
            Some(s) => Some(s.index),
            None => None,
        }
    }
}

} // verus!
