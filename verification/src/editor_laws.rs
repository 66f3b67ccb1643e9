//! What the pointer does to the editor, field by field.

use vstd::prelude::*;

use crate::audio::{is_stopped, was_started, was_toggled, Audio, StartError};
use crate::edit::{connected, output_freed, wire_between, wire_removed};
use crate::editor::{
    click_step, cursor_step, disconnect_step, disconnected, drag_step, drop_target, first_geom,
    frame_steps, hover_step, leave_step, middle_of, most_specific, motion_step, node_grabbed,
    point_or, press_step, pressed, release_step, sound_follows, stop_step, wires_cut, CanvasInput,
    Drag, Editor, Hover, Plane,
};
use crate::graph::{node_drawn, Center, Gap, Microns, NodeGeom, PortRef, Rect, WireSeg};
use crate::hit::{geoms_drawn, inlet_hit, node_hit, pair_view, port_hit, text, wire_hit};
use crate::hit_laws::law_topmost_node_is_hit;
use crate::model::{Endpoint, Patch, Registry};

verus! {

/// The first drawn node with an id has that id itself, and none before it has; if there is none, no
/// drawn node has it.
pub proof fn law_first_drawn_node_has_the_id<W>(geoms: Seq<NodeGeom<W>>, id: Seq<char>)
    ensures
        match first_geom(geoms, id) {
            Some(i) => {
                &&& 0 <= i < geoms.len()
                &&& geoms[i].id@ == id
                &&& forall|j: int| 0 <= j < i ==> (#[trigger] geoms[j]).id@ != id
            },
            None => forall|j: int| 0 <= j < geoms.len() ==> (#[trigger] geoms[j]).id@ != id,
        },
    decreases geoms.len(),
{
    if geoms.len() > 0 && geoms[0].id@ != id {
        let rest = geoms.drop_first();
        law_first_drawn_node_has_the_id(rest, id);
        match first_geom(rest, id) {
            Some(i) => {
                assert(geoms[i + 1] == rest[i]);
                assert forall|j: int| 0 <= j < i + 1 implies (#[trigger] geoms[j]).id@ != id by {
                    if j > 0 {
                        assert(geoms[j] == rest[j - 1]);
                    }
                }
            },
            None => {
                assert forall|j: int| 0 <= j < geoms.len() implies (
                #[trigger] geoms[j]).id@ != id by {
                    if j > 0 {
                        assert(geoms[j] == rest[j - 1]);
                    }
                }
            },
        }
    }
}

/// The center of a node is the middle of the box of the first node of the patch that has the id;
/// there is none exactly if no node has it. The result are the drawn nodes, and which one it is.
pub proof fn law_center_is_of_the_node_with_the_id<
    P,
    W,
    A: Fn(Center<P>, Microns) -> W,
    C: Fn(Rect<W>) -> W,
>(at: A, middle: C, patch: Patch<P>, id: Seq<char>, center: Option<W>) -> (r: (
    Seq<NodeGeom<W>>,
    int,
))
    requires
        middle_of(at, middle, patch, id, center),
    ensures
        r.0.len() == patch.nodes@.len(),
        forall|i: int| 0 <= i < r.0.len() ==> node_drawn(at, patch, i, #[trigger] r.0[i]),
        match center {
            Some(m) => {
                &&& 0 <= r.1 < patch.nodes@.len()
                &&& patch.nodes@[r.1].id@ == id
                &&& forall|j: int| 0 <= j < r.1 ==> (#[trigger] patch.nodes@[j]).id@ != id
                &&& middle.ensures((r.0[r.1].rect,), m)
            },
            None => forall|j: int|
                0 <= j < patch.nodes@.len() ==> (#[trigger] patch.nodes@[j]).id@ != id,
        },
{
    let geoms = choose|geoms: Seq<NodeGeom<W>>|
        {
            &&& #[trigger] geoms_drawn(at, patch, geoms)
            &&& match (first_geom(geoms, id), center) {
                (Some(i), Some(m)) => middle.ensures((geoms[i].rect,), m),
                (None, None) => true,
                _ => false,
            }
        };
    law_first_drawn_node_has_the_id(geoms, id);
    assert forall|j: int| 0 <= j < geoms.len() implies (#[trigger] patch.nodes@[j]).id@
        == geoms[j].id@ by {
        assert(node_drawn(at, patch, j, geoms[j]));
    }
    match first_geom(geoms, id) {
        Some(i) => (geoms, i),
        None => (geoms, 0),
    }
}

/// A press on a port begins a wire there; elsewhere a press on a node begins to move it; and a
/// press on neither begins to pan.
pub proof fn law_press_takes_the_port_before_the_node<W>(
    port: Option<PortRef<W>>,
    node: Option<(String, W)>,
)
    ensures
        (pressed(port, node) is Wire) == (port is Some),
        pressed(port, node) matches Drag::Wire { src } ==> Some(src) == port,
        (pressed(port, node) is Node) == (port is None && node is Some),
        pressed(port, node) matches Drag::Node { id, offset } ==> Some((id, offset)) == node,
        (pressed(port, node) is Pan) == (port is None && node is None),
        !(pressed(port, node) is Idle),
{
}

/// Of what is under the pointer, the port is hovered before the wire, and the wire before the node.
pub proof fn law_port_is_hovered_before_wire_before_node<W>(
    port: Option<PortRef<W>>,
    wire: Option<usize>,
    node: Option<String>,
)
    ensures
        (most_specific(port, wire, node) is Port) == (port is Some),
        most_specific(port, wire, node) matches Hover::Port(p) ==> Some(p) == port,
        (most_specific(port, wire, node) is Wire) == (port is None && wire is Some),
        most_specific(port, wire, node) matches Hover::Wire(i) ==> Some(i) == wire,
        (most_specific(port, wire, node) is Node) == (port is None && wire is None && node is Some),
        most_specific(port, wire, node) matches Hover::Node(id) ==> Some(id) == node,
        (most_specific(port, wire, node) is Nothing) == (port is None && wire is None
            && node is None),
{
}

/// While a wire is drawn, the port under the pointer is hovered exactly if it is of the other side
/// and of another node.
pub proof fn law_wire_is_dropped_on_the_other_side<W>(src: PortRef<W>, port: Option<PortRef<W>>)
    ensures
        match port {
            Some(p) => if p.is_output != src.is_output && p.node@ != src.node@ {
                drop_target(src, port) == Hover::Port(p)
            } else {
                drop_target(src, port) is Nothing
            },
            None => drop_target(src, port) is Nothing,
        },
{
}

/// The patch, the sound and the icons are the same.
pub open spec fn keeps_all_but_pointer<P, W, S>(
    before: Editor<P, W, S>,
    after: Editor<P, W, S>,
) -> bool {
    &&& after.view.patch == before.view.patch
    &&& after.view.registry == before.view.registry
    &&& after.audio == before.audio
    &&& after.icons == before.icons
    &&& after.icon_index == before.icon_index
}

/// A press begins, at the place of the press: a wire at the port that is hit there; if none is, a
/// move of the node that is hit there, held at the difference from the middle of its box; if none
/// is, panning. Nothing else changes.
pub proof fn law_press_begins_a_drag<
    P,
    W,
    S,
    A: Fn(Center<P>, Microns) -> W,
    I: Fn(W, Rect<W>) -> bool,
    G: Fn(W, W) -> Gap,
    D,
    M: Fn(W, W) -> W,
    C: Fn(Rect<W>) -> W,
    L,
>(
    plane: Plane<A, I, G, D, M, C, L>,
    before: Editor<P, W, S>,
    after: Editor<P, W, S>,
    grab: W,
)
    requires
        press_step(plane, before, after, grab),
    ensures
        keeps_all_but_pointer(before, after),
        after.hover == before.hover,
        after.cursor == before.cursor,
        match after.drag {
            Drag::Wire { src } => port_hit(
                plane.at,
                plane.gap,
                before.view.patch,
                grab,
                plane.reach,
                Some(src),
            ),
            Drag::Node { id, offset } => {
                &&& port_hit(plane.at, plane.gap, before.view.patch, grab, plane.reach, None)
                &&& node_hit(plane.at, plane.inside, before.view.patch, grab, Some(id@))
                &&& exists|center: W|
                    {
                        &&& #[trigger] middle_of(
                            plane.at,
                            plane.middle,
                            before.view.patch,
                            id@,
                            Some(center),
                        )
                        &&& plane.minus.ensures((grab, center), offset)
                    }
            },
            Drag::Pan => {
                &&& port_hit(plane.at, plane.gap, before.view.patch, grab, plane.reach, None)
                &&& node_hit(plane.at, plane.inside, before.view.patch, grab, None)
            },
            Drag::Idle => false,
        },
{
    let patch = before.view.patch;
    let (port, node) = choose|port: Option<PortRef<W>>, node: Option<(String, W)>|
        {
            &&& port_hit(plane.at, plane.gap, before.view.patch, grab, plane.reach, port)
            &&& port is None ==> node_grabbed(plane, before.view.patch, grab, node)
            &&& after.drag == #[trigger] pressed(port, node)
            &&& after.hover == before.hover
            &&& after.cursor == before.cursor
            &&& crate::editor::same_patch_and_sound(before, after)
        };
    if port is None && node is Some {
        let (id, offset) = node->0;
        let center = choose|center: Option<W>|
            {
                &&& #[trigger] middle_of(plane.at, plane.middle, patch, id@, center)
                &&& plane.minus.ensures((grab, point_or(center, grab)), offset)
            };
        assert(text(Some(id)) == Some(id@));
        law_topmost_node_is_hit(plane.at, plane.inside, patch, grab, Some(id));
        law_center_is_of_the_node_with_the_id(plane.at, plane.middle, patch, id@, center);
        assert(center is Some);
        assert(middle_of(plane.at, plane.middle, patch, id@, Some(center->0)));
    }
}

/// While a node is dragged it alone gets a new place: that of the pointer less where it was grabbed.
/// Otherwise a drag changes nothing, and it pans exactly if it is a panning one.
pub proof fn law_drag_moves_its_node_alone<P, W, S, A, I, G, D, M: Fn(W, W) -> W, C, L: Fn(W) -> P>(
    plane: Plane<A, I, G, D, M, C, L>,
    before: Editor<P, W, S>,
    after: Editor<P, W, S>,
    world: W,
    pan: bool,
)
    requires
        drag_step(plane, before, after, world, pan),
    ensures
        pan <==> before.drag is Pan,
        after.drag == before.drag,
        after.hover == before.hover,
        after.cursor == before.cursor,
        !(before.drag is Node) ==> keeps_all_but_pointer(before, after),
        before.drag matches Drag::Node { id, offset } ==> {
            let layout = after.view.patch.layout@;
            &&& after.view.patch.nodes == before.view.patch.nodes
            &&& after.view.patch.wires == before.view.patch.wires
            &&& after.view.registry == before.view.registry
            &&& after.audio == before.audio
            &&& after.icons == before.icons
            &&& after.icon_index == before.icon_index
            &&& layout.contains_key(id@)
            &&& exists|point: W| #[trigger]
                plane.minus.ensures((world, offset), point) && plane.place.ensures(
                    (point,),
                    layout[id@],
                )
            &&& forall|other: Seq<char>|
                other != id@ ==> (#[trigger] layout.contains_key(other)
                    == before.view.patch.layout@.contains_key(other))
            &&& forall|other: Seq<char>|
                other != id@ && before.view.patch.layout@.contains_key(other)
                    ==> #[trigger] layout[other] == before.view.patch.layout@[other]
        },
{
    if let Drag::Node { id, offset } = before.drag {
        let (point, position) = choose|point: W, position: P|
            {
                &&& #[trigger] plane.minus.ensures((world, offset), point)
                &&& #[trigger] plane.place.ensures((point,), position)
                &&& after.view.patch.layout@ == before.view.patch.layout@.insert(id@, position)
            };
        assert(after.view.patch.layout@[id@] == position);
    }
}

/// When something was edited while the sound played, the sound is started anew for what is there
/// now; otherwise it is left alone.
pub proof fn law_sound_follows_edits<
    P,
    W,
    S,
    O: Fn(&Patch<P>, &Registry) -> Result<S, StartError>,
>(open: O, before: Editor<P, W, S>, after: Editor<P, W, S>, changed: bool) -> (outcome: Result<
    S,
    StartError,
>)
    requires
        sound_follows(open, before, after, changed),
    ensures
        !changed || !before.audio.playing ==> after.audio == before.audio,
        changed && before.audio.playing ==> {
            &&& open.ensures((&after.view.patch, &after.view.registry), outcome)
            &&& plays_or_says_why(after.audio, outcome)
        },
{
    if changed && before.audio.playing {
        law_sound_is_started(after.audio, after.view.patch, after.view.registry, open)
    } else {
        arbitrary()
    }
}

/// The sound plays the stream that was opened and says so, or it plays nothing and says why.
pub open spec fn plays_or_says_why<S>(audio: Audio<S>, outcome: Result<S, StartError>) -> bool {
    match outcome {
        Ok(stream) => {
            &&& audio.stream == Some(stream)
            &&& audio.playing
            &&& audio.status@ == "playing"@
        },
        Err(StartError::Build(e)) => {
            &&& audio.stream is None
            &&& !audio.playing
            &&& audio.status@ == "build error: "@ + e@
        },
        Err(StartError::Device(e)) => {
            &&& audio.stream is None
            &&& !audio.playing
            &&& audio.status@ == "audio error: "@ + e@
        },
    }
}

/// Sound that was started plays what was opened for the patch, or says why not.
pub proof fn law_sound_is_started<P, S, O: Fn(&Patch<P>, &Registry) -> Result<S, StartError>>(
    audio: Audio<S>,
    patch: Patch<P>,
    registry: Registry,
    open: O,
) -> (outcome: Result<S, StartError>)
    requires
        was_started(audio, patch, registry, open),
    ensures
        open.ensures((&patch, &registry), outcome),
        plays_or_says_why(audio, outcome),
{
    choose|outcome: Result<S, StartError>|
        open.ensures((&patch, &registry), outcome) && #[trigger] crate::audio::has_settled(
            audio,
            outcome,
        )
}

/// Toggling stops sound that plays, and starts it for the patch otherwise.
pub proof fn law_toggling_stops_or_starts<
    P,
    S,
    O: Fn(&Patch<P>, &Registry) -> Result<S, StartError>,
>(
    before: Audio<S>,
    after: Audio<S>,
    patch: Patch<P>,
    registry: Registry,
    open: O,
) -> (outcome: Result<S, StartError>)
    requires
        was_toggled(before, after, patch, registry, open),
    ensures
        before.playing ==> {
            &&& after.stream is None
            &&& !after.playing
            &&& after.status@ == "stopped"@
        },
        !before.playing ==> {
            &&& open.ensures((&patch, &registry), outcome)
            &&& plays_or_says_why(after, outcome)
        },
{
    if before.playing {
        assert(is_stopped(after));
        arbitrary()
    } else {
        law_sound_is_started(after, patch, registry, open)
    }
}

/// A release ends the drag. If a wire was drawn and is let go over a port of the other side and of
/// another node, the two are connected and the sound follows; otherwise nothing else changes. The
/// result is the port that was hit.
pub proof fn law_release_connects_the_ports<
    P,
    W,
    S,
    A: Fn(Center<P>, Microns) -> W,
    I,
    G: Fn(W, W) -> Gap,
    D,
    M,
    C,
    L,
    O: Fn(&Patch<P>, &Registry) -> Result<S, StartError>,
>(
    plane: Plane<A, I, G, D, M, C, L>,
    open: O,
    before: Editor<P, W, S>,
    after: Editor<P, W, S>,
    drop: W,
) -> (target: Option<PortRef<W>>)
    requires
        release_step(plane, open, before, after, drop),
    ensures
        after.drag is Idle,
        after.hover == before.hover,
        after.cursor == before.cursor,
        !(before.drag is Wire) ==> keeps_all_but_pointer(before, after),
        before.drag matches Drag::Wire { src } ==> {
            &&& port_hit(plane.at, plane.gap, before.view.patch, drop, plane.reach, target)
            &&& target matches Some(t) ==> t.is_output != src.is_output && t.node@ != src.node@
                ==> {
                &&& connected(
                    before.view.patch.nodes@,
                    before.view.patch.wires@,
                    after.view.patch.wires@,
                    wire_between(src, t),
                )
                &&& after.view.patch.nodes == before.view.patch.nodes
                &&& after.view.patch.layout == before.view.patch.layout
                &&& after.view.registry == before.view.registry
                &&& after.icons == before.icons
                &&& after.icon_index == before.icon_index
                &&& sound_follows(open, before, after, true)
            }
            &&& !(target is Some && target->0.is_output != src.is_output && target->0.node@
                != src.node@) ==> keeps_all_but_pointer(before, after)
        },
{
    if let Drag::Wire { src } = before.drag {
        choose|target: Option<PortRef<W>>|
            {
                &&& #[trigger] port_hit(
                    plane.at,
                    plane.gap,
                    before.view.patch,
                    drop,
                    plane.reach,
                    target,
                )
                &&& crate::editor::dropped(open, before, after, src, target)
            }
    } else {
        None
    }
}

/// A secondary click takes away the wire that ends at the inlet that is hit; if none ends there, all
/// the wires of the output that is hit; otherwise nothing. The sound follows if a wire went. The
/// result are the ends of the wire, the port, and whether a wire went.
pub proof fn law_secondary_click_disconnects<
    P,
    W,
    S,
    A: Fn(Center<P>, Microns) -> W,
    I,
    G: Fn(W, W) -> Gap,
    D,
    M,
    C,
    L,
    O: Fn(&Patch<P>, &Registry) -> Result<S, StartError>,
>(
    plane: Plane<A, I, G, D, M, C, L>,
    open: O,
    before: Editor<P, W, S>,
    after: Editor<P, W, S>,
    world: W,
) -> (r: (Option<(Endpoint, Endpoint)>, Option<PortRef<W>>, bool))
    requires
        disconnect_step(plane, open, before, after, world),
    ensures
        after.drag == before.drag,
        after.hover == before.hover,
        after.cursor == before.cursor,
        after.icons == before.icons,
        after.icon_index == before.icon_index,
        after.view.registry == before.view.registry,
        after.view.patch.nodes == before.view.patch.nodes,
        after.view.patch.layout == before.view.patch.layout,
        inlet_hit(
            plane.at,
            plane.gap,
            before.view.patch,
            world,
            plane.reach,
            pair_view(r.0),
        ),
        r.0 is None ==> port_hit(
            plane.at,
            plane.gap,
            before.view.patch,
            world,
            plane.reach,
            r.1,
        ),
        r.0 is Some ==> wire_removed(
            before.view.patch.wires@,
            after.view.patch.wires@,
            (
                ((r.0->0).0.0@, (r.0->0).0.1@),
                ((r.0->0).1.0@, (r.0->0).1.1@),
            ),
            r.2,
        ),
        r.0 is None && r.1 is Some && (r.1->0).is_output ==> output_freed(
            before.view.patch.wires@,
            after.view.patch.wires@,
            ((r.1->0).node@, (r.1->0).port@),
            r.2,
        ),
        r.0 is None && !(r.1 is Some && (r.1->0).is_output) ==> !r.2 && after.view.patch
            == before.view.patch,
        sound_follows(open, before, after, r.2),
{
    let (wire, port) = choose|wire: Option<(Endpoint, Endpoint)>, port: Option<PortRef<W>>|
        {
            &&& inlet_hit(
                plane.at,
                plane.gap,
                before.view.patch,
                world,
                plane.reach,
                pair_view(wire),
            )
            &&& wire is None ==> port_hit(
                plane.at,
                plane.gap,
                before.view.patch,
                world,
                plane.reach,
                port,
            )
            &&& #[trigger] disconnected(open, before, after, wire, port)
        };
    let changed = choose|changed: bool|
        {
            &&& wires_cut(before.view.patch, after.view.patch, wire, port, changed)
            &&& #[trigger] sound_follows(open, before, after, changed)
        };
    (wire, port, changed)
}

/// What is hovered: with no drag, the port that is hit; if none is, the wire; if none is, the node.
/// While a wire is drawn, the port that is hit if the wire can end there. In other drags nothing.
pub proof fn law_hover_is_what_is_hit<
    P,
    W,
    S,
    A: Fn(Center<P>, Microns) -> W,
    I: Fn(W, Rect<W>) -> bool,
    G: Fn(W, W) -> Gap,
    D: Fn(W, WireSeg<W>) -> u32,
    M,
    C,
    L,
>(
    plane: Plane<A, I, G, D, M, C, L>,
    before: Editor<P, W, S>,
    after: Editor<P, W, S>,
    world: W,
)
    requires
        hover_step(plane, before, after, world),
    ensures
        keeps_all_but_pointer(before, after),
        after.drag == before.drag,
        after.cursor == before.cursor,
        before.drag is Pan || before.drag is Node ==> after.hover is Nothing,
        before.drag is Idle ==> {
            let patch = before.view.patch;
            match after.hover {
                Hover::Port(p) => port_hit(
                    plane.at,
                    plane.gap,
                    patch,
                    world,
                    plane.reach,
                    Some(p),
                ),
                Hover::Wire(i) => {
                    &&& port_hit(plane.at, plane.gap, patch, world, plane.reach, None)
                    &&& wire_hit(plane.at, plane.dist, patch, world, plane.band, Some(i))
                },
                Hover::Node(id) => {
                    &&& port_hit(plane.at, plane.gap, patch, world, plane.reach, None)
                    &&& wire_hit(plane.at, plane.dist, patch, world, plane.band, None)
                    &&& node_hit(plane.at, plane.inside, patch, world, Some(id@))
                },
                Hover::Nothing => {
                    &&& port_hit(plane.at, plane.gap, patch, world, plane.reach, None)
                    &&& wire_hit(plane.at, plane.dist, patch, world, plane.band, None)
                    &&& node_hit(plane.at, plane.inside, patch, world, None)
                },
            }
        },
        before.drag matches Drag::Wire { src } ==> {
            &&& after.hover is Port || after.hover is Nothing
            &&& after.hover matches Hover::Port(p) ==> {
                &&& port_hit(
                    plane.at,
                    plane.gap,
                    before.view.patch,
                    world,
                    plane.reach,
                    Some(p),
                )
                &&& p.is_output != src.is_output
                &&& p.node@ != src.node@
            }
            &&& after.hover is Nothing ==> exists|port: Option<PortRef<W>>|
                {
                    &&& #[trigger] port_hit(
                        plane.at,
                        plane.gap,
                        before.view.patch,
                        world,
                        plane.reach,
                        port,
                    )
                    &&& port matches Some(p) ==> p.is_output == src.is_output || p.node@
                        == src.node@
                }
        },
{
    let patch = before.view.patch;
    match before.drag {
        Drag::Idle => {
            let (port, wire, node) = choose|
                port: Option<PortRef<W>>,
                wire: Option<usize>,
                node: Option<String>,
            |
                {
                    &&& port_hit(plane.at, plane.gap, patch, world, plane.reach, port)
                    &&& port is None ==> wire_hit(
                        plane.at,
                        plane.dist,
                        patch,
                        world,
                        plane.band,
                        wire,
                    )
                    &&& port is None && wire is None ==> node_hit(
                        plane.at,
                        plane.inside,
                        patch,
                        world,
                        text(node),
                    )
                    &&& after.hover == #[trigger] most_specific(port, wire, node)
                };
        },
        Drag::Wire { src } => {
            let port = choose|port: Option<PortRef<W>>|
                {
                    &&& port_hit(plane.at, plane.gap, patch, world, plane.reach, port)
                    &&& after.hover == #[trigger] drop_target(src, port)
                };
            assert(port_hit(plane.at, plane.gap, patch, world, plane.reach, port));
        },
        _ => {},
    }
}

/// When the pointer has left, nothing changes but what is hovered, and this only with no drag: then
/// nothing is hovered.
pub proof fn law_leaving_ends_the_hover<P, W, S>(before: Editor<P, W, S>, after: Editor<P, W, S>)
    requires
        leave_step(before, after),
    ensures
        keeps_all_but_pointer(before, after),
        after.drag == before.drag,
        after.cursor == before.cursor,
        before.drag is Idle ==> after.hover is Nothing,
        !(before.drag is Idle) ==> after.hover == before.hover,
{
}

/// In a frame the cursor comes first; then the drag begins where the button went down, or goes on;
/// then it ends where the button went up; then a secondary click disconnects; and last it is seen
/// what is hovered. Where the button went down or up is where the pointer is if it is not known. It
/// pans only while a drag goes on. The result are the states in between.
pub proof fn law_frame_goes_step_by_step<
    P,
    W,
    S,
    A: Fn(Center<P>, Microns) -> W,
    I: Fn(W, Rect<W>) -> bool,
    G: Fn(W, W) -> Gap,
    D: Fn(W, WireSeg<W>) -> u32,
    M: Fn(W, W) -> W,
    C: Fn(Rect<W>) -> W,
    L: Fn(W) -> P,
    O: Fn(&Patch<P>, &Registry) -> Result<S, StartError>,
>(
    plane: Plane<A, I, G, D, M, C, L>,
    open: O,
    input: CanvasInput<W>,
    before: Editor<P, W, S>,
    after: Editor<P, W, S>,
    world: W,
    pan: bool,
) -> (r: (Editor<P, W, S>, Editor<P, W, S>, Editor<P, W, S>, Editor<P, W, S>))
    requires
        frame_steps(plane, open, input, before, after, world, pan),
    ensures
        keeps_all_but_pointer(before, r.0),
        r.0.drag == before.drag,
        r.0.hover == before.hover,
        r.0.cursor == world,
        input.drag_started ==> !pan && press_step(
            plane,
            r.0,
            r.1,
            if input.press_origin is Some {
                input.press_origin->0
            } else {
                world
            },
        ),
        !input.drag_started && input.dragging ==> drag_step(plane, r.0, r.1, world, pan),
        !input.drag_started && !input.dragging ==> !pan && r.1 == r.0,
        input.drag_stopped ==> release_step(
            plane,
            open,
            r.1,
            r.2,
            if input.release_pos is Some {
                input.release_pos->0
            } else {
                world
            },
        ),
        !input.drag_stopped ==> r.2 == r.1,
        input.secondary_clicked ==> disconnect_step(plane, open, r.2, r.3, world),
        !input.secondary_clicked ==> r.3 == r.2,
        hover_step(plane, r.3, after, world),
{
    choose|a: Editor<P, W, S>, b: Editor<P, W, S>, c: Editor<P, W, S>, d: Editor<P, W, S>|
        {
            &&& #[trigger] cursor_step(before, a, world)
            &&& #[trigger] motion_step(plane, input, a, b, world, pan)
            &&& #[trigger] stop_step(plane, open, input, b, c, world)
            &&& #[trigger] click_step(plane, open, input, c, d, world)
            &&& hover_step(plane, d, after, world)
        }
}

} // verus!
