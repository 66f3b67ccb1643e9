//! The patch editor: what the pointer, the keyboard and the chrome do to the patch and the sound.
//!
//! Points of the canvas come in as points of the world plane. What only the plane can say comes
//! from functions of the caller.

use vstd::prelude::*;

use crate::atlas::{distinct_types, IconIndex};
use crate::audio::{was_started, Audio, StartError};
use crate::edit::{connectable, connected, output_freed, wire_between, wire_removed};
use crate::graph::{Center, Gap, GraphView, Microns, NodeGeom, PortRef, Rect, WireSeg};
use crate::hit::{geoms_drawn, inlet_hit, node_hit, pair_view, port_hit, text, wire_hit};
use crate::model::{Endpoint, Icon, Patch, Registry};
use crate::text::same_text;

verus! {

/// What a drag that has begun on the canvas does.
#[derive(Debug)]
pub enum Drag<W> {
    /// There is none.
    Idle,
    /// Pans the canvas.
    Pan,
    /// Moves a node.
    Node {
        id: String,
        /// From the center of the node to where it was grabbed.
        offset: W,
    },
    /// Draws a wire from a port.
    Wire { src: PortRef<W> },
}

/// What the pointer is over.
#[derive(Debug)]
pub enum Hover<W> {
    Nothing,
    Node(String),
    Port(PortRef<W>),
    /// The wire with this index.
    Wire(usize),
}

/// What the pointer did over the canvas since the last frame, in points of the world plane.
#[derive(Debug)]
pub struct CanvasInput<W> {
    /// Where the pointer is, while it is over the canvas or drags.
    pub pointer: Option<W>,
    pub drag_started: bool,
    /// Where the button went down, if known.
    pub press_origin: Option<W>,
    pub dragging: bool,
    pub drag_stopped: bool,
    /// Where the button went up, if known.
    pub release_pos: Option<W>,
    pub secondary_clicked: bool,
}

/// What the plane knows: where the point at an offset from the center of a node is; whether a
/// point is in a box; how far it is from the center of a port and from a segment; the difference
/// of two points; the middle of a box; and the position that stands for a point in the layout.
pub struct Plane<A, I, G, D, M, C, L> {
    pub at: A,
    pub inside: I,
    pub gap: G,
    pub dist: D,
    pub minus: M,
    pub middle: C,
    pub place: L,
    /// How far the marker of a port reaches from its center.
    pub reach: u32,
    /// How far from a wire the pointer is still over it.
    pub band: u32,
}

/// The drag that a press begins: a wire from the port that was hit, else a move of the node that
/// was hit, else panning.
pub open spec fn pressed<W>(port: Option<PortRef<W>>, node: Option<(String, W)>) -> Drag<W> {
    match (port, node) {
        (Some(src), _) => Drag::Wire { src },
        (None, Some((id, offset))) => Drag::Node { id, offset },
        (None, None) => Drag::Pan,
    }
}

/// The drag that a press begins.
pub fn press<W>(port: Option<PortRef<W>>, node: Option<(String, W)>) -> (r: Drag<W>)
    ensures
        r == pressed(port, node),
{
    match (port, node) {
        (Some(src), _) => Drag::Wire { src },
        (None, Some((id, offset))) => Drag::Node { id, offset },
        (None, None) => Drag::Pan,
    }
}

/// What is hovered when nothing is dragged: the most specific of what is under the pointer, a port,
/// then a wire, then a node.
pub open spec fn most_specific<W>(
    port: Option<PortRef<W>>,
    wire: Option<usize>,
    node: Option<String>,
) -> Hover<W> {
    match (port, wire, node) {
        (Some(p), _, _) => Hover::Port(p),
        (None, Some(i), _) => Hover::Wire(i),
        (None, None, Some(id)) => Hover::Node(id),
        (None, None, None) => Hover::Nothing,
    }
}

/// What is hovered when nothing is dragged.
pub fn hover_idle<W>(
    port: Option<PortRef<W>>,
    wire: Option<usize>,
    node: Option<String>,
) -> (r: Hover<W>)
    ensures
        r == most_specific(port, wire, node),
{
    match (port, wire, node) {
        (Some(p), _, _) => Hover::Port(p),
        (None, Some(i), _) => Hover::Wire(i),
        (None, None, Some(id)) => Hover::Node(id),
        (None, None, None) => Hover::Nothing,
    }
}

/// What is hovered while a wire is drawn from `src`: the port under the pointer, if the wire can be
/// connected to it.
pub open spec fn drop_target<W>(src: PortRef<W>, port: Option<PortRef<W>>) -> Hover<W> {
    match port {
        Some(p) => if connectable(p, src) {
            Hover::Port(p)
        } else {
            Hover::Nothing
        },
        None => Hover::Nothing,
    }
}

/// What is hovered while a wire is drawn from `src`.
pub fn hover_drop<W>(src: &PortRef<W>, port: Option<PortRef<W>>) -> (r: Hover<W>)
    ensures
        r == drop_target(*src, port),
{
    match port {
        Some(p) => {
            if p.is_output != src.is_output && !same_text(p.node.as_str(), src.node.as_str()) {
                Hover::Port(p)
            } else {
                Hover::Nothing
            }
        },
        None => Hover::Nothing,
    }
}

/// The index of the first drawn node with id `id`.
pub open spec fn first_geom<W>(geoms: Seq<NodeGeom<W>>, id: Seq<char>) -> Option<int>
    decreases geoms.len(),
{
    if geoms.len() == 0 {
        None
    } else if geoms[0].id@ == id {
        Some(0)
    } else {
        match first_geom(geoms.drop_first(), id) {
            Some(i) => Some(i + 1),
            None => None,
        }
    }
}

/// `r` is the middle of the box of the first node with id `id`.
pub open spec fn middle_of<P, W, A: Fn(Center<P>, Microns) -> W, C: Fn(Rect<W>) -> W>(
    at: A,
    middle: C,
    patch: Patch<P>,
    id: Seq<char>,
    r: Option<W>,
) -> bool {
    exists|geoms: Seq<NodeGeom<W>>|
        {
            &&& #[trigger] geoms_drawn(at, patch, geoms)
            &&& match (first_geom(geoms, id), r) {
                (Some(i), Some(m)) => middle.ensures((geoms[i].rect,), m),
                (None, None) => true,
                _ => false,
            }
        }
}

impl<P: Copy> GraphView<P> {
    /// The middle of the box of the first node with id `id`.
    pub fn node_center<W, A: Fn(Center<P>, Microns) -> W, C: Fn(Rect<W>) -> W>(
        &self,
        id: &str,
        at: &A,
        middle: &C,
    ) -> (r: Option<W>) where W: Copy
        requires
            self.wf(),
            forall|c: Center<P>, d: Microns| #[trigger] at.requires((c, d)),
            forall|b: Rect<W>| #[trigger] middle.requires((b,)),
        ensures
            middle_of(*at, *middle, self.patch, id@, r),
    {
        let geoms = self.geoms(at);
        let mut i: usize = 0;
        assert(geoms@.skip(0) =~= geoms@);
        while i < geoms.len()
            invariant
                forall|b: Rect<W>| #[trigger] middle.requires((b,)),
                geoms_drawn(*at, self.patch, geoms@),
                i <= geoms@.len(),
                first_geom(geoms@, id@) == match first_geom(geoms@.skip(i as int), id@) {
                    Some(k) => Some(k + i),
                    None => None,
                },
            decreases geoms.len() - i,
        {
            if same_text(geoms[i].id.as_str(), id) {
                return Some(middle(geoms[i].rect));
            }
            assert(geoms@.skip(i as int).drop_first() =~= geoms@.skip(i + 1));
            i += 1;
        }
        None
    }
}

/// The patch with its sound, and what the pointer is doing to it.
pub struct Editor<P, W, S> {
    pub view: GraphView<P>,
    pub audio: Audio<S>,
    pub drag: Drag<W>,
    pub hover: Hover<W>,
    /// Where the pointer was last over the canvas.
    pub cursor: W,
    /// The icons of the types of the nodes.
    pub icons: Vec<Icon>,
    /// Where the icon of each type is.
    pub icon_index: IconIndex,
}

/// Only the drag, the hover and the cursor may differ.
pub open spec fn same_patch_and_sound<P, W, S>(a: Editor<P, W, S>, b: Editor<P, W, S>) -> bool {
    &&& a.view == b.view
    &&& a.audio == b.audio
    &&& a.icons == b.icons
    &&& a.icon_index == b.icon_index
}

/// Everything but the wires and the sound is the same.
pub open spec fn same_but_wires<P>(a: GraphView<P>, b: GraphView<P>) -> bool {
    &&& a.patch.nodes == b.patch.nodes
    &&& a.patch.layout == b.patch.layout
    &&& a.registry == b.registry
}

/// The sound was started anew for the patch, if the patch `changed` and it was playing.
pub open spec fn sound_follows<
    P,
    W,
    S,
    O: Fn(&Patch<P>, &Registry) -> Result<S, StartError>,
>(open: O, before: Editor<P, W, S>, after: Editor<P, W, S>, changed: bool) -> bool {
    if changed && before.audio.playing {
        was_started(after.audio, after.view.patch, after.view.registry, open)
    } else {
        after.audio == before.audio
    }
}

/// A press at `grab` began a drag.
pub open spec fn press_step<
    P,
    W,
    S,
    A: Fn(Center<P>, Microns) -> W,
    I: Fn(W, Rect<W>) -> bool,
    G: Fn(W, W) -> Gap,
    D,
    M: Fn(W, W) -> W,
    C: Fn(Rect<W>) -> W,
    L,
>(
    plane: Plane<A, I, G, D, M, C, L>,
    before: Editor<P, W, S>,
    after: Editor<P, W, S>,
    grab: W,
) -> bool {
    exists|port: Option<PortRef<W>>, node: Option<(String, W)>|
        {
            &&& port_hit(plane.at, plane.gap, before.view.patch, grab, plane.reach, port)
            &&& port is None ==> node_grabbed(plane, before.view.patch, grab, node)
            &&& after.drag == #[trigger] pressed(port, node)
            &&& after.hover == before.hover
            &&& after.cursor == before.cursor
            &&& same_patch_and_sound(before, after)
        }
}

/// The point, or `other` if there is none.
pub open spec fn point_or<W>(point: Option<W>, other: W) -> W {
    match point {
        Some(p) => p,
        None => other,
    }
}

/// `node` is the node under `grab`, with the offset of `grab` from its center.
pub open spec fn node_grabbed<
    P,
    W,
    A: Fn(Center<P>, Microns) -> W,
    I: Fn(W, Rect<W>) -> bool,
    G,
    D,
    M: Fn(W, W) -> W,
    C: Fn(Rect<W>) -> W,
    L,
>(
    plane: Plane<A, I, G, D, M, C, L>,
    patch: Patch<P>,
    grab: W,
    node: Option<(String, W)>,
) -> bool {
    match node {
        Some((id, offset)) => {
            &&& node_hit(plane.at, plane.inside, patch, grab, Some(id@))
            &&& exists|center: Option<W>|
                {
                    &&& #[trigger] middle_of(plane.at, plane.middle, patch, id@, center)
                    &&& plane.minus.ensures((grab, point_or(center, grab)), offset)
                }
        },
        None => node_hit(plane.at, plane.inside, patch, grab, None),
    }
}

/// A drag went on to `world`: a node that is moved follows it; `pan` says that the canvas does.
pub open spec fn drag_step<P, W, S, A, I, G, D, M: Fn(W, W) -> W, C, L: Fn(W) -> P>(
    plane: Plane<A, I, G, D, M, C, L>,
    before: Editor<P, W, S>,
    after: Editor<P, W, S>,
    world: W,
    pan: bool,
) -> bool {
    &&& pan == (before.drag is Pan)
    &&& after.drag == before.drag
    &&& after.hover == before.hover
    &&& after.cursor == before.cursor
    &&& match before.drag {
        Drag::Node { id, offset } => {
            &&& after.audio == before.audio
            &&& after.icons == before.icons
            &&& after.icon_index == before.icon_index
            &&& after.view.patch.nodes == before.view.patch.nodes
            &&& after.view.patch.wires == before.view.patch.wires
            &&& after.view.registry == before.view.registry
            &&& exists|point: W, position: P|
                {
                    &&& #[trigger] plane.minus.ensures((world, offset), point)
                    &&& #[trigger] plane.place.ensures((point,), position)
                    &&& after.view.patch.layout@ == before.view.patch.layout@.insert(id@, position)
                }
        },
        _ => same_patch_and_sound(before, after),
    }
}

/// A drag ended at `drop`: a wire is connected to the port there, if it can be.
pub open spec fn release_step<
    P,
    W,
    S,
    A: Fn(Center<P>, Microns) -> W,
    I,
    G: Fn(W, W) -> Gap,
    D,
    M,
    C,
    L,
    O: Fn(&Patch<P>, &Registry) -> Result<S, StartError>,
>(
    plane: Plane<A, I, G, D, M, C, L>,
    open: O,
    before: Editor<P, W, S>,
    after: Editor<P, W, S>,
    drop: W,
) -> bool {
    &&& after.drag == Drag::<W>::Idle
    &&& after.hover == before.hover
    &&& after.cursor == before.cursor
    &&& match before.drag {
        Drag::Wire { src } => exists|target: Option<PortRef<W>>|
            {
                &&& #[trigger] port_hit(
                    plane.at,
                    plane.gap,
                    before.view.patch,
                    drop,
                    plane.reach,
                    target,
                )
                &&& dropped(open, before, after, src, target)
            },
        _ => same_patch_and_sound(before, after),
    }
}

/// A wire from `src` was dropped on `target`.
pub open spec fn dropped<P, W, S, O: Fn(&Patch<P>, &Registry) -> Result<S, StartError>>(
    open: O,
    before: Editor<P, W, S>,
    after: Editor<P, W, S>,
    src: PortRef<W>,
    target: Option<PortRef<W>>,
) -> bool {
    let changed = match target {
        Some(t) => connectable(src, t),
        None => false,
    };
    &&& same_but_wires(before.view, after.view)
    &&& if changed {
        connected(
            before.view.patch.nodes@,
            before.view.patch.wires@,
            after.view.patch.wires@,
            wire_between(src, target->0),
        )
    } else {
        after.view == before.view
    }
    &&& after.icons == before.icons
    &&& after.icon_index == before.icon_index
    &&& sound_follows(open, before, after, changed)
}

/// The secondary button was clicked at `world`: the wire at the inlet there is disconnected, else
/// all wires of the output there.
pub open spec fn disconnect_step<
    P,
    W,
    S,
    A: Fn(Center<P>, Microns) -> W,
    I,
    G: Fn(W, W) -> Gap,
    D,
    M,
    C,
    L,
    O: Fn(&Patch<P>, &Registry) -> Result<S, StartError>,
>(
    plane: Plane<A, I, G, D, M, C, L>,
    open: O,
    before: Editor<P, W, S>,
    after: Editor<P, W, S>,
    world: W,
) -> bool {
    exists|wire: Option<(Endpoint, Endpoint)>, port: Option<PortRef<W>>|
        {
            &&& inlet_hit(
                plane.at,
                plane.gap,
                before.view.patch,
                world,
                plane.reach,
                pair_view(wire),
            )
            &&& wire is None ==> port_hit(
                plane.at,
                plane.gap,
                before.view.patch,
                world,
                plane.reach,
                port,
            )
            &&& #[trigger] disconnected(open, before, after, wire, port)
        }
}

/// The wire, or else all wires of the port if it is an output, were disconnected.
pub open spec fn disconnected<P, W, S, O: Fn(&Patch<P>, &Registry) -> Result<S, StartError>>(
    open: O,
    before: Editor<P, W, S>,
    after: Editor<P, W, S>,
    wire: Option<(Endpoint, Endpoint)>,
    port: Option<PortRef<W>>,
) -> bool {
    &&& same_but_wires(before.view, after.view)
    &&& after.drag == before.drag
    &&& after.hover == before.hover
    &&& after.cursor == before.cursor
    &&& after.icons == before.icons
    &&& after.icon_index == before.icon_index
    &&& exists|changed: bool|
        {
            &&& wires_cut(before.view.patch, after.view.patch, wire, port, changed)
            &&& #[trigger] sound_follows(open, before, after, changed)
        }
}

/// Which wires a click takes away.
pub open spec fn wires_cut<P, W>(
    before: Patch<P>,
    after: Patch<P>,
    wire: Option<(Endpoint, Endpoint)>,
    port: Option<PortRef<W>>,
    changed: bool,
) -> bool {
    match (wire, port) {
        (Some((from, to)), _) => wire_removed(
            before.wires@,
            after.wires@,
            (from@, to@),
            changed,
        ),
        (None, Some(p)) => if p.is_output {
            output_freed(before.wires@, after.wires@, (p.node@, p.port@), changed)
        } else {
            after == before && !changed
        },
        (None, None) => after == before && !changed,
    }
}

/// The pointer is at `world`: what it is over is hovered.
pub open spec fn hover_step<
    P,
    W,
    S,
    A: Fn(Center<P>, Microns) -> W,
    I: Fn(W, Rect<W>) -> bool,
    G: Fn(W, W) -> Gap,
    D: Fn(W, WireSeg<W>) -> u32,
    M,
    C,
    L,
>(
    plane: Plane<A, I, G, D, M, C, L>,
    before: Editor<P, W, S>,
    after: Editor<P, W, S>,
    world: W,
) -> bool {
    let patch = before.view.patch;
    &&& after.drag == before.drag
    &&& after.cursor == before.cursor
    &&& same_patch_and_sound(before, after)
    &&& match before.drag {
        Drag::Idle => exists|port: Option<PortRef<W>>, wire: Option<usize>, node: Option<String>|
            {
                &&& port_hit(plane.at, plane.gap, patch, world, plane.reach, port)
                &&& port is None ==> wire_hit(
                    plane.at,
                    plane.dist,
                    patch,
                    world,
                    plane.band,
                    wire,
                )
                &&& port is None && wire is None ==> node_hit(
                    plane.at,
                    plane.inside,
                    patch,
                    world,
                    text(node),
                )
                &&& after.hover == #[trigger] most_specific(port, wire, node)
            },
        Drag::Wire { src } => exists|port: Option<PortRef<W>>|
            {
                &&& port_hit(plane.at, plane.gap, patch, world, plane.reach, port)
                &&& after.hover == #[trigger] drop_target(src, port)
            },
        _ => after.hover == Hover::<W>::Nothing,
    }
}

/// The functions of the plane can be called on every point.
pub open spec fn is_total<
    P,
    W,
    A: Fn(Center<P>, Microns) -> W,
    I: Fn(W, Rect<W>) -> bool,
    G: Fn(W, W) -> Gap,
    D: Fn(W, WireSeg<W>) -> u32,
    M: Fn(W, W) -> W,
    C: Fn(Rect<W>) -> W,
    L: Fn(W) -> P,
>(plane: Plane<A, I, G, D, M, C, L>) -> bool {
    &&& forall|c: Center<P>, d: Microns| #[trigger] plane.at.requires((c, d))
    &&& forall|w: W, b: Rect<W>| #[trigger] plane.inside.requires((w, b))
    &&& forall|v: W, w: W| #[trigger] plane.gap.requires((v, w))
    &&& forall|w: W, s: WireSeg<W>| #[trigger] plane.dist.requires((w, s))
    &&& forall|v: W, w: W| #[trigger] plane.minus.requires((v, w))
    &&& forall|b: Rect<W>| #[trigger] plane.middle.requires((b,))
    &&& forall|w: W| #[trigger] plane.place.requires((w,))
}

/// Only the cursor has moved.
pub open spec fn cursor_step<P, W, S>(
    before: Editor<P, W, S>,
    after: Editor<P, W, S>,
    world: W,
) -> bool {
    &&& after.cursor == world
    &&& after.drag == before.drag
    &&& after.hover == before.hover
    &&& same_patch_and_sound(before, after)
}

/// A drag began where the button went down, or went on to `world`.
pub open spec fn motion_step<
    P,
    W,
    S,
    A: Fn(Center<P>, Microns) -> W,
    I: Fn(W, Rect<W>) -> bool,
    G: Fn(W, W) -> Gap,
    D,
    M: Fn(W, W) -> W,
    C: Fn(Rect<W>) -> W,
    L: Fn(W) -> P,
>(
    plane: Plane<A, I, G, D, M, C, L>,
    input: CanvasInput<W>,
    before: Editor<P, W, S>,
    after: Editor<P, W, S>,
    world: W,
    pan: bool,
) -> bool {
    if input.drag_started {
        !pan && press_step(plane, before, after, point_or(input.press_origin, world))
    } else if input.dragging {
        drag_step(plane, before, after, world, pan)
    } else {
        !pan && after == before
    }
}

/// If the drag stopped, it ended where the button went up.
pub open spec fn stop_step<
    P,
    W,
    S,
    A: Fn(Center<P>, Microns) -> W,
    I,
    G: Fn(W, W) -> Gap,
    D,
    M,
    C,
    L,
    O: Fn(&Patch<P>, &Registry) -> Result<S, StartError>,
>(
    plane: Plane<A, I, G, D, M, C, L>,
    open: O,
    input: CanvasInput<W>,
    before: Editor<P, W, S>,
    after: Editor<P, W, S>,
    world: W,
) -> bool {
    if input.drag_stopped {
        release_step(plane, open, before, after, point_or(input.release_pos, world))
    } else {
        after == before
    }
}

/// If the secondary button was clicked, wires were disconnected.
pub open spec fn click_step<
    P,
    W,
    S,
    A: Fn(Center<P>, Microns) -> W,
    I,
    G: Fn(W, W) -> Gap,
    D,
    M,
    C,
    L,
    O: Fn(&Patch<P>, &Registry) -> Result<S, StartError>,
>(
    plane: Plane<A, I, G, D, M, C, L>,
    open: O,
    input: CanvasInput<W>,
    before: Editor<P, W, S>,
    after: Editor<P, W, S>,
    world: W,
) -> bool {
    if input.secondary_clicked {
        disconnect_step(plane, open, before, after, world)
    } else {
        after == before
    }
}

/// The pointer left the canvas: nothing is hovered any more, unless a drag goes on.
pub open spec fn leave_step<P, W, S>(before: Editor<P, W, S>, after: Editor<P, W, S>) -> bool {
    &&& after.drag == before.drag
    &&& after.cursor == before.cursor
    &&& same_patch_and_sound(before, after)
    &&& after.hover == if before.drag is Idle {
        Hover::<W>::Nothing
    } else {
        before.hover
    }
}

/// The pointer is over the canvas at `world`: the cursor follows, a drag begins or goes on, it may
/// stop, wires may be disconnected, and then what is under the pointer is hovered.
pub open spec fn frame_steps<
    P,
    W,
    S,
    A: Fn(Center<P>, Microns) -> W,
    I: Fn(W, Rect<W>) -> bool,
    G: Fn(W, W) -> Gap,
    D: Fn(W, WireSeg<W>) -> u32,
    M: Fn(W, W) -> W,
    C: Fn(Rect<W>) -> W,
    L: Fn(W) -> P,
    O: Fn(&Patch<P>, &Registry) -> Result<S, StartError>,
>(
    plane: Plane<A, I, G, D, M, C, L>,
    open: O,
    input: CanvasInput<W>,
    before: Editor<P, W, S>,
    after: Editor<P, W, S>,
    world: W,
    pan: bool,
) -> bool {
    exists|
        a: Editor<P, W, S>,
        b: Editor<P, W, S>,
        c: Editor<P, W, S>,
        d: Editor<P, W, S>,
    |
        {
            &&& #[trigger] cursor_step(before, a, world)
            &&& #[trigger] motion_step(plane, input, a, b, world, pan)
            &&& #[trigger] stop_step(plane, open, input, b, c, world)
            &&& #[trigger] click_step(plane, open, input, c, d, world)
            &&& hover_step(plane, d, after, world)
        }
}

impl<P: Copy, W: Copy, S> Editor<P, W, S> {
    /// No id has two positions, and the sound is playing if and only if something plays.
    pub open spec fn wf(&self) -> bool {
        self.view.wf() && self.audio.wf()
    }

    /// An editor of `view`, with nothing playing.
    pub fn new(view: GraphView<P>, cursor: W) -> (r: Self)
        requires
            view.wf(),
        ensures
            r.wf(),
            r.view == view,
            r.audio.stream is None && r.audio.status@ == ""@,
            r.drag == Drag::<W>::Idle,
            r.hover == Hover::<W>::Nothing,
            r.cursor == cursor,
            r.has_atlas(),
    {
        let (icons, icon_index) = view.icon_atlas();
        Editor {
            view,
            audio: Audio::default(),
            drag: Drag::Idle,
            hover: Hover::Nothing,
            cursor,
            icons,
            icon_index,
        }
    }

    /// The icons are those of the types of the nodes.
    pub open spec fn has_atlas(&self) -> bool {
        &&& self.icon_index@ == distinct_types(self.view.patch.nodes@)
        &&& self.icons@ == self.icon_index@.map_values(
            |ty: Seq<char>| self.view.registry.icon_of(ty),
        )
    }

    /// Collects the icons again, after the types of the nodes may have changed.
    pub fn rebuild_atlas(&mut self)
        ensures
            final(self).has_atlas(),
            final(self).view == old(self).view,
            final(self).audio == old(self).audio,
            final(self).drag == old(self).drag,
            final(self).hover == old(self).hover,
            final(self).cursor == old(self).cursor,
    {
        let (icons, icon_index) = self.view.icon_atlas();
        self.icons = icons;
        self.icon_index = icon_index;
    }

    /// Begins a drag at `grab`.
    fn begin_drag<
        A: Fn(Center<P>, Microns) -> W,
        I: Fn(W, Rect<W>) -> bool,
        G: Fn(W, W) -> Gap,
        D: Fn(W, WireSeg<W>) -> u32,
        M: Fn(W, W) -> W,
        C: Fn(Rect<W>) -> W,
        L: Fn(W) -> P,
    >(&mut self, plane: &Plane<A, I, G, D, M, C, L>, grab: W)
        requires
            old(self).wf(),
            is_total::<P, W, A, I, G, D, M, C, L>(*plane),
        ensures
            final(self).wf(),
            press_step(*plane, *old(self), *final(self), grab),
    {
        let port = self.view.hit_port(grab, &plane.at, &plane.gap, plane.reach);
        let mut node: Option<(String, W)> = None;
        if port.is_none() {
            let hit = self.view.hit_node(grab, &plane.at, &plane.inside);
            assert(node_hit(plane.at, plane.inside, self.view.patch, grab, text(hit)));
            if let Some(id) = hit {
                let found = self.view.node_center(id.as_str(), &plane.at, &plane.middle);
                let center = match found {
                    Some(m) => m,
                    None => grab,
                };
                let offset = (plane.minus)(grab, center);
                assert(middle_of(plane.at, plane.middle, self.view.patch, id@, found));
                assert(center == point_or(found, grab));
                node = Some((id, offset));
            }
            assert(node_grabbed(*plane, self.view.patch, grab, node));
        }
        let ghost hit = (port, node);
        self.drag = press(port, node);
        assert(self.drag == pressed(hit.0, hit.1));
    }

    /// Goes on with a drag to `world`; says whether it pans the canvas.
    fn go_on_dragging<
        A: Fn(Center<P>, Microns) -> W,
        I: Fn(W, Rect<W>) -> bool,
        G: Fn(W, W) -> Gap,
        D: Fn(W, WireSeg<W>) -> u32,
        M: Fn(W, W) -> W,
        C: Fn(Rect<W>) -> W,
        L: Fn(W) -> P,
    >(&mut self, plane: &Plane<A, I, G, D, M, C, L>, world: W) -> (pan: bool)
        requires
            old(self).wf(),
            is_total::<P, W, A, I, G, D, M, C, L>(*plane),
        ensures
            final(self).wf(),
            drag_step(*plane, *old(self), *final(self), world, pan),
    {
        match &self.drag {
            Drag::Pan => true,
            Drag::Node { id, offset } => {
                let point = (plane.minus)(world, *offset);
                let position = (plane.place)(point);
                self.view.move_node(id.as_str(), position);
                false
            },
            _ => false,
        }
    }

    /// Ends a drag at `drop`.
    fn end_drag<
        A: Fn(Center<P>, Microns) -> W,
        I: Fn(W, Rect<W>) -> bool,
        G: Fn(W, W) -> Gap,
        D: Fn(W, WireSeg<W>) -> u32,
        M: Fn(W, W) -> W,
        C: Fn(Rect<W>) -> W,
        L: Fn(W) -> P,
        O: Fn(&Patch<P>, &Registry) -> Result<S, StartError>,
    >(&mut self, plane: &Plane<A, I, G, D, M, C, L>, open: &O, drop: W)
        requires
            old(self).wf(),
            is_total::<P, W, A, I, G, D, M, C, L>(*plane),
            forall|p: &Patch<P>, r: &Registry| #[trigger] open.requires((p, r)),
        ensures
            final(self).wf(),
            release_step(*plane, *open, *old(self), *final(self), drop),
    {
        if let Drag::Wire { src } = &self.drag {
            let target = self.view.hit_port(drop, &plane.at, &plane.gap, plane.reach);
            if let Some(t) = &target {
                if self.view.try_connect(src, t) {
                    self.audio.rebuild_if_playing(&self.view.patch, &self.view.registry, open);
                }
            }
            assert(port_hit(
                plane.at,
                plane.gap,
                old(self).view.patch,
                drop,
                plane.reach,
                target,
            ));
        }
        self.drag = Drag::Idle;
    }

    /// Disconnects the wire at the inlet under `world`, or else all wires of the output there.
    fn disconnect_at<
        A: Fn(Center<P>, Microns) -> W,
        I: Fn(W, Rect<W>) -> bool,
        G: Fn(W, W) -> Gap,
        D: Fn(W, WireSeg<W>) -> u32,
        M: Fn(W, W) -> W,
        C: Fn(Rect<W>) -> W,
        L: Fn(W) -> P,
        O: Fn(&Patch<P>, &Registry) -> Result<S, StartError>,
    >(&mut self, plane: &Plane<A, I, G, D, M, C, L>, open: &O, world: W)
        requires
            old(self).wf(),
            is_total::<P, W, A, I, G, D, M, C, L>(*plane),
            forall|p: &Patch<P>, r: &Registry| #[trigger] open.requires((p, r)),
        ensures
            final(self).wf(),
            disconnect_step(*plane, *open, *old(self), *final(self), world),
    {
        let wire = self.view.wire_at_input(world, &plane.at, &plane.gap, plane.reach);
        let mut port: Option<PortRef<W>> = None;
        let mut changed = false;
        match &wire {
            Some((from, to)) => {
                changed = self.view.disconnect_wire(from, to);
            },
            None => {
                port = self.view.hit_port(world, &plane.at, &plane.gap, plane.reach);
                if let Some(p) = &port {
                    if p.is_output {
                        changed = self.view.disconnect_output(p.node.as_str(), p.port.as_str());
                    }
                }
            },
        }
        assert(wires_cut(old(self).view.patch, self.view.patch, wire, port, changed));
        if changed {
            self.audio.rebuild_if_playing(&self.view.patch, &self.view.registry, open);
        }
        assert(sound_follows(*open, *old(self), *self, changed));
        assert(disconnected(*open, *old(self), *self, wire, port));
    }

    /// Finds out what is hovered with the pointer at `world`.
    fn refresh_hover<
        A: Fn(Center<P>, Microns) -> W,
        I: Fn(W, Rect<W>) -> bool,
        G: Fn(W, W) -> Gap,
        D: Fn(W, WireSeg<W>) -> u32,
        M: Fn(W, W) -> W,
        C: Fn(Rect<W>) -> W,
        L: Fn(W) -> P,
    >(&mut self, plane: &Plane<A, I, G, D, M, C, L>, world: W)
        requires
            old(self).wf(),
            is_total::<P, W, A, I, G, D, M, C, L>(*plane),
        ensures
            final(self).wf(),
            hover_step(*plane, *old(self), *final(self), world),
    {
        match &self.drag {
            Drag::Idle => {
                let port = self.view.hit_port(world, &plane.at, &plane.gap, plane.reach);
                let mut wire: Option<usize> = None;
                let mut node: Option<String> = None;
                if port.is_none() {
                    wire = self.view.hit_wire(world, &plane.at, &plane.dist, plane.band);
                    if wire.is_none() {
                        node = self.view.hit_node(world, &plane.at, &plane.inside);
                    }
                }
                let ghost hit = (port, wire, node);
                self.hover = hover_idle(port, wire, node);
                assert(self.hover == most_specific(hit.0, hit.1, hit.2));
            },
            Drag::Wire { src } => {
                let port = self.view.hit_port(world, &plane.at, &plane.gap, plane.reach);
                let ghost hit = port;
                self.hover = hover_drop(src, port);
                assert(self.hover == drop_target(*src, hit));
            },
            _ => {
                self.hover = Hover::Nothing;
            },
        }
    }

    /// Applies what the pointer did over the canvas to the patch and the sound. The result says
    /// whether the drag pans the canvas.
    pub fn process_canvas_input<
        A: Fn(Center<P>, Microns) -> W,
        I: Fn(W, Rect<W>) -> bool,
        G: Fn(W, W) -> Gap,
        D: Fn(W, WireSeg<W>) -> u32,
        M: Fn(W, W) -> W,
        C: Fn(Rect<W>) -> W,
        L: Fn(W) -> P,
        O: Fn(&Patch<P>, &Registry) -> Result<S, StartError>,
    >(
        &mut self,
        input: &CanvasInput<W>,
        plane: &Plane<A, I, G, D, M, C, L>,
        open: &O,
    ) -> (pan: bool)
        requires
            old(self).wf(),
            is_total::<P, W, A, I, G, D, M, C, L>(*plane),
            forall|p: &Patch<P>, r: &Registry| #[trigger] open.requires((p, r)),
        ensures
            final(self).wf(),
            match input.pointer {
                None => !pan && leave_step(*old(self), *final(self)),
                Some(world) => frame_steps(
                    *plane,
                    *open,
                    *input,
                    *old(self),
                    *final(self),
                    world,
                    pan,
                ),
            },
    {
        let world = match input.pointer {
            Some(world) => world,
            None => {
                if let Drag::Idle = self.drag {
                    self.hover = Hover::Nothing;
                }
                return false;
            },
        };
        self.cursor = world;
        let ghost a = *self;
        assert(cursor_step(*old(self), a, world));
        let mut pan = false;
        if input.drag_started {
            let grab = match input.press_origin {
                Some(p) => p,
                None => world,
            };
            self.begin_drag(plane, grab);
        } else if input.dragging {
            pan = self.go_on_dragging(plane, world);
        }
        let ghost b = *self;
        assert(motion_step(*plane, *input, a, b, world, pan));
        if input.drag_stopped {
            let drop = match input.release_pos {
                Some(p) => p,
                None => world,
            };
            self.end_drag(plane, open, drop);
        }
        let ghost c = *self;
        assert(stop_step(*plane, *open, *input, b, c, world));
        if input.secondary_clicked {
            self.disconnect_at(plane, open, world);
        }
        let ghost d = *self;
        assert(click_step(*plane, *open, *input, c, d, world));
        self.refresh_hover(plane, world);
        assert(hover_step(*plane, d, *self, world));
        pan
    }

    /// The wire that is being drawn: from the port where it began to the cursor.
    pub fn pending_wire(&self) -> (r: Option<(W, W)>)
        ensures
            r == match self.drag {
                Drag::Wire { src } => Some((src.pos, self.cursor)),
                _ => None,
            },
    {
        match &self.drag {
            Drag::Wire { src } => Some((src.pos, self.cursor)),
            _ => None,
        }
    }
}

/// While a wire is drawn, exactly the ports to which it can be connected are highlighted.
pub proof fn law_highlighted_ports_accept_the_wire<W>(src: PortRef<W>, port: PortRef<W>)
    ensures
        (drop_target(src, Some(port)) is Port) == connectable(src, port),
{
}

/// What the pointer does on the canvas neither adds nor removes nodes, and changes no icon. Once a
/// drag has stopped there is none.
pub proof fn law_pointer_keeps_the_nodes<
    P,
    W,
    S,
    A: Fn(Center<P>, Microns) -> W,
    I: Fn(W, Rect<W>) -> bool,
    G: Fn(W, W) -> Gap,
    D: Fn(W, WireSeg<W>) -> u32,
    M: Fn(W, W) -> W,
    C: Fn(Rect<W>) -> W,
    L: Fn(W) -> P,
    O: Fn(&Patch<P>, &Registry) -> Result<S, StartError>,
>(
    plane: Plane<A, I, G, D, M, C, L>,
    open: O,
    input: CanvasInput<W>,
    before: Editor<P, W, S>,
    after: Editor<P, W, S>,
    world: W,
    pan: bool,
)
    requires
        frame_steps(plane, open, input, before, after, world, pan),
    ensures
        after.view.patch.nodes == before.view.patch.nodes,
        after.view.registry == before.view.registry,
        after.icons == before.icons && after.icon_index == before.icon_index,
        after.cursor == world,
        input.drag_stopped ==> after.drag is Idle,
{
}

/// The pointer leaves the sound alone if nothing plays, and also if no drag stops and nothing is
/// clicked.
pub proof fn law_pointer_keeps_a_silent_patch_silent<
    P,
    W,
    S,
    A: Fn(Center<P>, Microns) -> W,
    I: Fn(W, Rect<W>) -> bool,
    G: Fn(W, W) -> Gap,
    D: Fn(W, WireSeg<W>) -> u32,
    M: Fn(W, W) -> W,
    C: Fn(Rect<W>) -> W,
    L: Fn(W) -> P,
    O: Fn(&Patch<P>, &Registry) -> Result<S, StartError>,
>(
    plane: Plane<A, I, G, D, M, C, L>,
    open: O,
    input: CanvasInput<W>,
    before: Editor<P, W, S>,
    after: Editor<P, W, S>,
    world: W,
    pan: bool,
)
    requires
        frame_steps(plane, open, input, before, after, world, pan),
        !before.audio.playing || !input.drag_stopped && !input.secondary_clicked,
    ensures
        after.audio == before.audio,
{
}

} // verus!
