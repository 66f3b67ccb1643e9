use synth_ui::actions::{ChromeAction, Key, KeyPress};
use synth_ui::audio::{Audio, StartError};
use synth_ui::editor::{CanvasInput, Drag, Editor, Hover, Plane};
use synth_ui::graph::{Center, Gap, GraphView, Microns, PortRef, Rect, WireSeg};
use synth_ui::model::{
    Descriptor, Endpoint, Inputs, Layout, ModuleType, Node, Patch, Registry, Wire,
};

type P = [f64; 2];
type W = [f32; 2];
type Opened = Result<usize, StartError>;
type Ed = Editor<P, W, usize>;

fn names(list: &[&str]) -> Vec<String> {
    list.iter().map(|s| s.to_string()).collect()
}

fn registry() -> Registry {
    let module = |type_id: &str, inputs| ModuleType {
        type_id: type_id.to_string(),
        desc: Descriptor { inputs, outputs: names(&["out"]) },
    };
    Registry {
        sources: vec![module("const_generator", Inputs::Fixed(vec![]))],
        modules: vec![module("mix", Inputs::Variadic("in".to_string()))],
        icons: vec![],
        audio_output: [2; 32],
        unknown: [3; 32],
    }
}

fn node(id: &str, ty: &str) -> Node {
    Node { id: id.to_string(), ty: ty.to_string(), channels: None, desc: registry().describe(ty) }
}

fn wire(from: &str, to: &str) -> Wire {
    Wire {
        from: Endpoint(from.to_string(), "out".to_string()),
        to: Endpoint(to.to_string(), "in".to_string()),
    }
}

/// `a` at the left with one output, `m` at the right with a variadic input.
fn patch(wires: Vec<Wire>) -> Patch<P> {
    let mut layout = Layout::new();
    layout.insert("a".to_string(), [-50.0, 0.0]);
    layout.insert("m".to_string(), [50.0, 0.0]);
    Patch { nodes: vec![node("a", "const_generator"), node("m", "mix")], wires, layout }
}

fn editor(wires: Vec<Wire>) -> Ed {
    Editor::new(GraphView::new(patch(wires), registry()), [0.0, 0.0])
}

fn at(center: Center<P>, offset: Microns) -> W {
    let c = match center {
        Center::Placed(p) => [p[0] as f32, p[1] as f32],
        Center::Fallback(m) => [m.x as f32 / 1000.0, m.y as f32 / 1000.0],
    };
    [c[0] + offset.x as f32 / 1000.0, c[1] + offset.y as f32 / 1000.0]
}

fn inside(p: W, r: Rect<W>) -> bool {
    let (w, h) = (r.size.x as f32 / 1000.0, r.size.y as f32 / 1000.0);
    p[0] >= r.corner[0] && p[0] <= r.corner[0] + w && p[1] >= r.corner[1] && p[1] <= r.corner[1] + h
}

fn gap(p: W, c: W) -> Gap {
    let (dx, dy) = (p[0] - c[0], p[1] - c[1]);
    Gap { dx: dx.abs().to_bits(), dy: dy.abs().to_bits(), d2: (dx * dx + dy * dy).to_bits() }
}

fn dist(p: W, s: WireSeg<W>) -> u32 {
    // The wires of these tests are nearly level.
    if p[0] < s.a[0] || p[0] > s.b[0] {
        f32::MAX.to_bits()
    } else {
        let t = (p[0] - s.a[0]) / (s.b[0] - s.a[0]);
        (p[1] - s.a[1] - t * (s.b[1] - s.a[1])).abs().to_bits()
    }
}

fn minus(a: W, b: W) -> W {
    [a[0] - b[0], a[1] - b[1]]
}

fn middle(r: Rect<W>) -> W {
    [r.corner[0] + r.size.x as f32 / 2000.0, r.corner[1] + r.size.y as f32 / 2000.0]
}

fn place(p: W) -> P {
    [p[0] as f64, p[1] as f64]
}

fn spot(m: Microns) -> P {
    [m.x as f64 / 1000.0, m.y as f64 / 1000.0]
}

fn opens(p: &Patch<P>, _: &Registry) -> Opened {
    Ok(p.wires.len())
}

fn no_device(_: &Patch<P>, _: &Registry) -> Opened {
    Err(StartError::Device("busy".to_string()))
}

fn no_engine(_: &Patch<P>, _: &Registry) -> Opened {
    Err(StartError::Build("no sink".to_string()))
}

fn idle() -> CanvasInput<W> {
    CanvasInput {
        pointer: None,
        drag_started: false,
        press_origin: None,
        dragging: false,
        drag_stopped: false,
        release_pos: None,
        secondary_clicked: false,
    }
}

fn feed(e: &mut Ed, input: CanvasInput<W>) -> bool {
    let plane = Plane {
        at,
        inside,
        gap,
        dist,
        minus,
        middle,
        place,
        reach: 1.4f32.to_bits(),
        band: 1.5f32.to_bits(),
    };
    e.process_canvas_input(&input, &plane, &opens)
}

fn hover(e: &mut Ed, p: W) {
    assert!(!feed(e, CanvasInput { pointer: Some(p), ..idle() }));
}

fn press(e: &mut Ed, p: W) {
    assert!(!feed(e, CanvasInput { pointer: Some(p), drag_started: true, ..idle() }));
}

fn drag(e: &mut Ed, p: W) -> bool {
    feed(e, CanvasInput { pointer: Some(p), dragging: true, ..idle() })
}

fn release(e: &mut Ed, p: W) {
    assert!(!feed(e, CanvasInput { pointer: Some(p), drag_stopped: true, ..idle() }));
}

fn right_click(e: &mut Ed, p: W) {
    assert!(!feed(e, CanvasInput { pointer: Some(p), secondary_clicked: true, ..idle() }));
}

fn outlet(e: &Ed) -> W {
    e.view.geoms(&at)[0].outputs[0].pos
}

fn inlet(e: &Ed, k: usize) -> W {
    e.view.geoms(&at)[1].inputs[k].pos
}

#[test]
fn dragging_from_port_to_port_connects() {
    let mut e = editor(vec![]);
    let (from, to) = (outlet(&e), inlet(&e, 0));
    press(&mut e, from);
    assert!(matches!(&e.drag, Drag::Wire { src } if src.node == "a" && src.is_output));
    assert!(!drag(&mut e, [0.0, 0.0]));
    assert_eq!(e.pending_wire(), Some((from, [0.0, 0.0])));
    assert!(matches!(e.hover, Hover::Nothing));
    drag(&mut e, to);
    assert!(matches!(&e.hover, Hover::Port(p) if p.node == "m"));
    release(&mut e, to);
    assert_eq!(e.view.patch.wires.len(), 1);
    assert_eq!(e.view.patch.wires[0].from.node(), "a");
    assert!(matches!(e.drag, Drag::Idle));
    assert_eq!(e.pending_wire(), None);
}

#[test]
fn a_wire_cannot_be_dropped_on_its_own_node_or_on_nothing() {
    let mut e = editor(vec![]);
    let from = outlet(&e);
    press(&mut e, from);
    drag(&mut e, from);
    assert!(matches!(e.hover, Hover::Nothing));
    release(&mut e, from);
    press(&mut e, from);
    release(&mut e, [0.0, 90.0]);
    assert!(e.view.patch.wires.is_empty());
    assert!(matches!(e.drag, Drag::Idle));
}

#[test]
fn press_and_release_points_count_rather_than_the_pointer() {
    let mut e = editor(vec![]);
    let (from, to) = (outlet(&e), inlet(&e, 0));
    feed(
        &mut e,
        CanvasInput {
            pointer: Some([from[0] + 5.0, from[1]]),
            drag_started: true,
            press_origin: Some(from),
            ..idle()
        },
    );
    assert!(matches!(e.drag, Drag::Wire { .. }));
    feed(
        &mut e,
        CanvasInput {
            pointer: Some([to[0] + 9.0, to[1]]),
            drag_stopped: true,
            release_pos: Some(to),
            ..idle()
        },
    );
    assert_eq!(e.view.patch.wires.len(), 1);
}

#[test]
fn a_grabbed_node_follows_the_pointer() {
    let mut e = editor(vec![]);
    press(&mut e, [-45.0, 2.0]);
    assert!(matches!(&e.drag, Drag::Node { id, offset } if id == "a" && *offset == [5.0, 2.0]));
    assert!(!drag(&mut e, [10.0, 20.0]));
    assert_eq!(e.view.patch.layout.get("a"), Some(&[5.0, 18.0]));
    assert_eq!(e.view.patch.layout.get("m"), Some(&[50.0, 0.0]));
    assert!(matches!(e.hover, Hover::Nothing));
}

#[test]
fn a_drag_from_the_empty_canvas_pans() {
    let mut e = editor(vec![]);
    press(&mut e, [0.0, 90.0]);
    assert!(matches!(e.drag, Drag::Pan));
    assert!(drag(&mut e, [0.0, 91.0]));
    assert_eq!(e.cursor, [0.0, 91.0]);
    release(&mut e, [0.0, 91.0]);
    assert!(!drag(&mut e, [0.0, 92.0]));
}

#[test]
fn the_most_specific_thing_is_hovered() {
    let mut e = editor(vec![wire("a", "m")]);
    let from = outlet(&e);
    hover(&mut e, from);
    assert!(matches!(&e.hover, Hover::Port(p) if p.node == "a" && p.is_output));
    let level = from[1] + (inlet(&e, 0)[1] - from[1]) / 2.0;
    hover(&mut e, [0.0, level + 1.0]);
    assert!(matches!(e.hover, Hover::Wire(0)));
    hover(&mut e, [-50.0, 0.0]);
    assert!(matches!(&e.hover, Hover::Node(id) if id == "a"));
    hover(&mut e, [0.0, 90.0]);
    assert!(matches!(e.hover, Hover::Nothing));
}

#[test]
fn leaving_the_canvas_ends_the_hover_but_not_a_drag() {
    let mut e = editor(vec![]);
    hover(&mut e, [-50.0, 0.0]);
    assert!(!feed(&mut e, idle()));
    assert!(matches!(e.hover, Hover::Nothing));
    let (from, to) = (outlet(&e), inlet(&e, 0));
    press(&mut e, from);
    drag(&mut e, to);
    feed(&mut e, idle());
    assert!(matches!(e.hover, Hover::Port(_)));
    assert!(matches!(e.drag, Drag::Wire { .. }));
    assert_eq!(e.cursor, to);
}

#[test]
fn right_clicks_disconnect() {
    let mut e = editor(vec![wire("a", "m"), wire("a", "m"), wire("x", "m")]);
    let first = inlet(&e, 0);
    right_click(&mut e, first);
    assert_eq!(e.view.patch.wires.len(), 2);
    let spare = inlet(&e, 2);
    right_click(&mut e, spare);
    assert_eq!(e.view.patch.wires.len(), 2);
    let from = outlet(&e);
    right_click(&mut e, from);
    assert_eq!(e.view.patch.wires.len(), 1);
    assert_eq!(e.view.patch.wires[0].from.node(), "x");
    right_click(&mut e, from);
    right_click(&mut e, [0.0, 90.0]);
    assert_eq!(e.view.patch.wires.len(), 1);
}

#[test]
fn edits_restart_the_sound_only_while_it_plays() {
    let mut e = editor(vec![]);
    let (from, to) = (outlet(&e), inlet(&e, 0));
    press(&mut e, from);
    release(&mut e, to);
    assert!(!e.audio.playing && e.audio.stream.is_none());
    e.audio.toggle(&e.view.patch, &e.view.registry, &opens);
    assert_eq!(e.audio.stream, Some(1));
    // The first wire has made the box grow.
    let to = inlet(&e, 1);
    press(&mut e, from);
    release(&mut e, to);
    assert_eq!(e.audio.stream, Some(2));
    right_click(&mut e, from);
    assert_eq!(e.audio.stream, Some(0));
    assert!(e.audio.playing);
}

#[test]
fn the_sound_starts_and_stops() {
    let mut audio: Audio<usize> = Audio::default();
    assert_eq!((audio.playing, audio.status.as_str()), (false, ""));
    let (p, r) = (patch(vec![wire("a", "m")]), registry());
    audio.toggle(&p, &r, &opens);
    assert_eq!((audio.playing, audio.status.as_str(), audio.stream), (true, "playing", Some(1)));
    audio.toggle(&p, &r, &opens);
    assert_eq!((audio.playing, audio.status.as_str(), audio.stream), (false, "stopped", None));
    audio.rebuild_if_playing(&p, &r, &opens);
    assert_eq!(audio.status, "stopped");
    audio.start(&p, &r, &no_device);
    assert_eq!((audio.playing, audio.status.as_str()), (false, "audio error: busy"));
    audio.start(&p, &r, &opens);
    audio.rebuild_if_playing(&p, &r, &no_engine);
    assert_eq!((audio.playing, audio.status.as_str()), (false, "build error: no sink"));
    assert_eq!(audio.stream, None);
    audio.settle(Ok(5));
    assert_eq!((audio.playing, audio.stream), (true, Some(5)));
    audio.stop();
    assert_eq!((audio.playing, audio.stream), (false, None));
}

#[test]
fn keys_work_when_pressed_once_outside_of_text() {
    let mut e = editor(vec![]);
    let key = |key, pressed, repeat, captured| KeyPress { key, pressed, repeat, captured };
    assert!(!e.on_key(&key(Key::Space, false, false, false), &spot, &opens));
    assert!(!e.on_key(&key(Key::Space, true, true, false), &spot, &opens));
    assert!(!e.on_key(&key(Key::Space, true, false, true), &spot, &opens));
    assert!(!e.on_key(&key(Key::Other, true, false, false), &spot, &opens));
    assert!(!e.audio.playing);
    assert!(e.on_key(&key(Key::Space, true, false, false), &spot, &opens));
    assert!(e.audio.playing);
    assert!(e.on_key(&key(Key::L, true, false, false), &spot, &opens));
    assert_eq!(e.view.patch.layout.get("a").unwrap()[0], 0.0);
}

#[test]
fn actions_edit_the_patch() {
    let mut e = editor(vec![]);
    let add = ChromeAction::AddNode { ty: "mix".to_string(), center: [1.0, 2.0] };
    assert!(e.apply_action(add, &spot, &opens));
    assert_eq!(e.view.patch.nodes[2].id, "mix-1");
    assert_eq!(e.view.patch.layout.get("mix-1"), Some(&[1.0, 2.0]));
    assert!(!e.apply_action(ChromeAction::ToggleAudio, &spot, &opens));
    assert!(e.audio.playing);
    assert!(!e.apply_action(ChromeAction::Arrange, &spot, &opens));
    assert_eq!(e.view.patch.layout.get("mix-1").unwrap()[0], 0.0);
    assert!(!e.apply_action(ChromeAction::Save, &spot, &opens));
    assert!(!e.apply_action(ChromeAction::Quit, &spot, &opens));
    assert!(!e.apply_action(ChromeAction::Open(Err("gone".to_string())), &spot, &opens));
    assert_eq!(e.view.patch.nodes.len(), 3);
    hover(&mut e, [0.0, 0.0]);
    assert!(e.apply_action(ChromeAction::New, &spot, &opens));
    assert!(e.view.patch.nodes.is_empty() && e.view.patch.layout.is_empty());
    assert!(matches!(e.hover, Hover::Nothing));
    assert_eq!(e.audio.status, "stopped");
}

#[test]
fn opened_patches_keep_their_layout_or_get_one() {
    let mut e = editor(vec![]);
    e.audio.settle(Ok(99));
    assert!(e.apply_action(ChromeAction::Open(Ok(patch(vec![wire("a", "m")]))), &spot, &opens));
    assert_eq!(e.view.patch.layout.get("a"), Some(&[-50.0, 0.0]));
    assert_eq!(e.audio.stream, Some(1));
    let mut bare = patch(vec![wire("a", "m")]);
    bare.layout = Layout::new();
    assert!(e.apply_action(ChromeAction::Open(Ok(bare)), &spot, &opens));
    assert_eq!(e.view.patch.layout.get("a"), Some(&[-23.0, 0.0]));
    assert_eq!(e.view.patch.layout.get("m"), Some(&[23.0, 0.0]));
}

#[test]
fn icons_are_collected_again() {
    let mut e = editor(vec![]);
    assert_eq!(e.icons, [[3; 32], [3; 32]]);
    e.view.add_node("audio_output", [0.0, 0.0]);
    assert_eq!(e.icon_index.get("audio_output"), None);
    e.rebuild_atlas();
    assert_eq!(e.icon_index.get("audio_output"), Some(2));
    assert_eq!(e.icons[2], [2; 32]);
}

#[test]
fn hovered_things_are_described() {
    let mut e = editor(vec![wire("a", "m")]);
    let mut words = |h| {
        e.hover = h;
        e.hover_detail()
    };
    let port = |is_output| PortRef {
        node: "m".to_string(),
        port: "in".to_string(),
        is_output,
        pos: [0.0, 0.0],
    };
    assert_eq!(words(Hover::Nothing), None);
    assert_eq!(words(Hover::Node("m".to_string())), Some("node  m  (mix)".to_string()));
    assert_eq!(words(Hover::Node("gone".to_string())), None);
    assert_eq!(words(Hover::Port(port(false))), Some("input  m.in".to_string()));
    assert_eq!(words(Hover::Port(port(true))), Some("output  m.in".to_string()));
    assert_eq!(words(Hover::Wire(0)), Some("wire  a.out -> m.in".to_string()));
    assert_eq!(words(Hover::Wire(1)), None);
}
