use synth_ui::graph::{Center, Gap, GraphView, Microns, NodeGeom, PortRef, Rect, WireSeg};
use synth_ui::model::{
    Descriptor, Endpoint, Inputs, Layout, ModuleType, Node, Patch, Registry, TypeIcon, Wire,
};

type P = [f64; 2];
type W = [f32; 2];

const PORT_R_MM: f32 = 1.4;

fn names(list: &[&str]) -> Vec<String> {
    list.iter().map(|s| s.to_string()).collect()
}

fn fixed(inputs: &[&str], outputs: &[&str]) -> Descriptor {
    Descriptor { inputs: Inputs::Fixed(names(inputs)), outputs: names(outputs) }
}

fn variadic(input: &str, outputs: &[&str]) -> Descriptor {
    Descriptor { inputs: Inputs::Variadic(input.to_string()), outputs: names(outputs) }
}

fn module(type_id: &str, desc: Descriptor) -> ModuleType {
    ModuleType { type_id: type_id.to_string(), desc }
}

fn registry() -> Registry {
    Registry {
        sources: vec![
            module("const_generator", fixed(&[], &["out"])),
            module("sine_generator", fixed(&["frequency", "amplitude", "phase"], &["out"])),
        ],
        modules: vec![
            module("mix", variadic("in", &["out"])),
            module("mul", variadic("in", &["out"])),
            module("const_generator", fixed(&["shadowed"], &[])),
        ],
        icons: vec![
            TypeIcon { type_id: "mix".to_string(), icon: [1; 32] },
            TypeIcon { type_id: "audio_output".to_string(), icon: [7; 32] },
        ],
        audio_output: [2; 32],
        unknown: [3; 32],
    }
}

fn node(id: &str, ty: &str) -> Node {
    Node { id: id.to_string(), ty: ty.to_string(), channels: None, desc: registry().describe(ty) }
}

fn wire(from: (&str, &str), to: (&str, &str)) -> Wire {
    Wire {
        from: Endpoint(from.0.to_string(), from.1.to_string()),
        to: Endpoint(to.0.to_string(), to.1.to_string()),
    }
}

fn view(nodes: Vec<Node>, wires: Vec<Wire>, positions: &[(&str, P)]) -> GraphView<P> {
    let mut layout = Layout::new();
    for (id, p) in positions {
        layout.insert(id.to_string(), *p);
    }
    GraphView::new(Patch { nodes, wires, layout }, registry())
}

fn at(center: Center<P>, offset: Microns) -> W {
    let c = match center {
        Center::Placed(p) => [p[0] as f32, p[1] as f32],
        Center::Fallback(m) => [m.x as f32 / 1000.0, m.y as f32 / 1000.0],
    };
    [c[0] + offset.x as f32 / 1000.0, c[1] + offset.y as f32 / 1000.0]
}

fn inside(p: W, r: Rect<W>) -> bool {
    let (w, h) = (r.size.x as f32 / 1000.0, r.size.y as f32 / 1000.0);
    p[0] >= r.corner[0] && p[0] <= r.corner[0] + w && p[1] >= r.corner[1] && p[1] <= r.corner[1] + h
}

fn gap(p: W, center: W) -> Gap {
    let (dx, dy) = (p[0] - center[0], p[1] - center[1]);
    Gap {
        dx: dx.abs().to_bits(),
        dy: dy.abs().to_bits(),
        d2: (dx * dx + dy * dy).to_bits(),
    }
}

fn dist(p: W, s: WireSeg<W>) -> u32 {
    let (abx, aby) = (s.b[0] - s.a[0], s.b[1] - s.a[1]);
    let (apx, apy) = (p[0] - s.a[0], p[1] - s.a[1]);
    let len2 = abx * abx + aby * aby;
    let t = if len2 > 0.0 { ((apx * abx + apy * aby) / len2).clamp(0.0, 1.0) } else { 0.0 };
    let (cx, cy) = (s.a[0] + t * abx, s.a[1] + t * aby);
    ((p[0] - cx).powi(2) + (p[1] - cy).powi(2)).sqrt().to_bits()
}

fn out_port(node: &str) -> PortRef<W> {
    PortRef { node: node.into(), port: "out".into(), is_output: true, pos: [0.0, 0.0] }
}

fn in_port(node: &str, port: &str) -> PortRef<W> {
    PortRef { node: node.into(), port: port.into(), is_output: false, pos: [0.0, 0.0] }
}

fn sources(view: &GraphView<P>) -> Vec<String> {
    view.patch.wires.iter().map(|w| w.from.node().to_string()).collect()
}

fn hit_wire(view: &GraphView<P>, p: W, max: f32) -> Option<usize> {
    view.hit_wire(p, &at, &dist, max.to_bits())
}

#[test]
fn add_node_inserts_with_layout_and_unique_id() {
    let mut view = view(vec![], vec![], &[]);
    let a = view.add_node("sine_generator", [10.0, -5.0]);
    let b = view.add_node("sine_generator", [20.0, 5.0]);

    assert_ne!(a, b);
    assert_eq!(view.patch.nodes.len(), 2);
    assert!(view.patch.nodes.iter().any(|n| n.id == a && n.ty == "sine_generator"));

    assert_eq!(view.patch.layout.get(&a), Some(&[10.0, -5.0]));
    assert_eq!(view.patch.layout.get(&b), Some(&[20.0, 5.0]));
}

#[test]
fn variadic_input_appends_each_connection() {
    let mut view = view(
        vec![node("a", "const_generator"), node("b", "const_generator"), node("mix", "mix")],
        vec![],
        &[],
    );

    assert!(view.try_connect(&out_port("a"), &in_port("mix", "in")));
    assert_eq!(view.patch.wires.len(), 1);

    assert!(view.try_connect(&out_port("b"), &in_port("mix", "in")));
    assert_eq!(
        view.patch.wires.len(),
        2,
        "second connection to the variadic input replaced the first instead of appending"
    );
    let froms: Vec<&str> = view.patch.wires.iter().map(|w| w.from.node()).collect();
    assert!(froms.contains(&"a") && froms.contains(&"b"));
}

#[test]
fn disconnecting_one_variadic_inlet_keeps_the_others() {
    let mut view = view(
        vec![node("a", "const_generator"), node("b", "const_generator"), node("mul", "mul")],
        vec![wire(("a", "out"), ("mul", "in")), wire(("b", "out"), ("mul", "in"))],
        &[("a", [-40.0, -10.0]), ("b", [-40.0, 10.0]), ("mul", [0.0, 0.0])],
    );
    assert_eq!(view.patch.wires.len(), 2);

    let geoms = view.geoms(&at);
    let mul = geoms.iter().find(|g| g.id == "mul").unwrap();
    let (from, to) = view
        .wire_at_input(mul.inputs[0].pos, &at, &gap, PORT_R_MM.to_bits())
        .expect("wire at first inlet");
    assert_eq!(from.node(), "a");
    assert_eq!(to.node(), "mul");

    assert!(view.disconnect_wire(&from, &to));
    assert_eq!(
        view.patch.wires.len(),
        1,
        "disconnecting one variadic inlet removed the other connection too"
    );
    assert_eq!(view.patch.wires[0].from.node(), "b");
}

#[test]
fn fixed_input_replaces_on_reconnect() {
    let mut view = view(
        vec![
            node("a", "const_generator"),
            node("b", "const_generator"),
            node("osc", "sine_generator"),
        ],
        vec![],
        &[],
    );

    assert!(view.try_connect(&out_port("a"), &in_port("osc", "frequency")));
    assert!(view.try_connect(&out_port("b"), &in_port("osc", "frequency")));
    assert_eq!(view.patch.wires.len(), 1);
    assert_eq!(view.patch.wires[0].from.node(), "b");
}

#[test]
fn hit_wire_uses_1mm_band() {
    let view = view(
        vec![node("a", "const_generator"), node("b", "sine_generator")],
        vec![wire(("a", "out"), ("b", "frequency"))],
        &[("a", [-25.0, 0.0]), ("b", [25.0, 0.0])],
    );
    let geoms = view.geoms(&at);
    let segs = view.wire_segments(&geoms);
    assert_eq!(segs.len(), 1);
    let s = segs[0];
    let mid = [(s.a[0] + s.b[0]) * 0.5, (s.a[1] + s.b[1]) * 0.5];

    assert_eq!(hit_wire(&view, mid, 0.5), Some(0));
    assert_eq!(hit_wire(&view, [mid[0], mid[1] + 0.4], 0.5), Some(0));
    assert_eq!(hit_wire(&view, [mid[0], mid[1] + 5.0], 0.5), None);
}

#[test]
fn new_ids_take_the_smallest_free_number() {
    let mut view = view(vec![node("mix-1", "mix"), node("mix-3", "mix")], vec![], &[]);
    assert_eq!(view.add_node("mix", [0.0, 0.0]), "mix-2");
    assert_eq!(view.add_node("mix", [0.0, 0.0]), "mix-4");
    assert_eq!(view.add_node("no_such_type", [0.0, 0.0]), "no_such_type-1");
    let last = view.patch.nodes.last().unwrap();
    assert!(last.desc.is_none());
    assert_eq!(last.channels, None);
    assert!(view.patch.nodes[2].desc.is_some());
}

#[test]
fn moved_node_is_found_at_its_new_place() {
    let mut view = view(vec![node("a", "mix")], vec![], &[("a", [1.0, 2.0])]);
    view.move_node("a", [3.0, 4.0]);
    assert_eq!(view.patch.layout.get("a"), Some(&[3.0, 4.0]));
    assert_eq!(view.patch.layout.len(), 1);
    view.move_node("b", [5.0, 6.0]);
    assert_eq!(view.patch.layout.get("a"), Some(&[3.0, 4.0]));
    assert_eq!(view.patch.layout.get("b"), Some(&[5.0, 6.0]));
    assert_eq!(view.patch.layout.get("c"), None);
}

#[test]
fn connecting_needs_an_output_and_an_input_of_two_nodes() {
    let mut view = view(vec![node("a", "mix"), node("b", "mix")], vec![], &[]);
    assert!(!view.try_connect(&out_port("a"), &out_port("b")));
    assert!(!view.try_connect(&in_port("a", "in"), &in_port("b", "in")));
    assert!(!view.try_connect(&out_port("a"), &in_port("a", "in")));
    assert_eq!(view.patch.wires.len(), 0);
    assert!(view.try_connect(&in_port("b", "in"), &out_port("a")));
    assert_eq!(view.patch.wires[0].from.node(), "a");
    assert_eq!(view.patch.wires[0].from.port(), "out");
    assert_eq!(view.patch.wires[0].to.node(), "b");
    assert_eq!(view.patch.wires[0].to.port(), "in");
}

#[test]
fn fixed_input_keeps_wires_to_other_inputs() {
    let mut view = view(
        vec![node("a", "const_generator"), node("osc", "sine_generator")],
        vec![
            wire(("a", "out"), ("osc", "phase")),
            wire(("x", "out"), ("osc", "frequency")),
            wire(("y", "out"), ("osc", "amplitude")),
        ],
        &[],
    );
    assert!(view.try_connect(&out_port("a"), &in_port("osc", "frequency")));
    assert_eq!(sources(&view), ["a", "y", "a"]);
}

#[test]
fn disconnecting_takes_the_first_matching_wire() {
    let mut view = view(
        vec![],
        vec![
            wire(("a", "out"), ("m", "in")),
            wire(("b", "out"), ("m", "in")),
            wire(("a", "out"), ("m", "in")),
        ],
        &[],
    );
    let (from, to) = (Endpoint("a".into(), "out".into()), Endpoint("m".into(), "in".into()));
    assert!(view.disconnect_wire(&from, &to));
    assert_eq!(sources(&view), ["b", "a"]);
    assert!(view.disconnect_wire(&from, &to));
    assert!(!view.disconnect_wire(&from, &to));
    assert_eq!(sources(&view), ["b"]);
}

#[test]
fn disconnecting_an_output_takes_all_its_wires() {
    let mut view = view(
        vec![],
        vec![
            wire(("a", "out"), ("m", "in")),
            wire(("b", "out"), ("m", "in")),
            wire(("a", "out"), ("n", "in")),
            wire(("a", "aux"), ("n", "in")),
        ],
        &[],
    );
    assert!(view.disconnect_output("a", "out"));
    assert_eq!(sources(&view), ["b", "a"]);
    assert!(!view.disconnect_output("a", "out"));
    assert_eq!(view.patch.wires.len(), 2);
}

#[test]
fn disconnecting_undoes_connecting() {
    let mut view = view(
        vec![node("a", "const_generator"), node("m", "mix")],
        vec![wire(("b", "out"), ("m", "in"))],
        &[],
    );
    assert!(view.try_connect(&out_port("a"), &in_port("m", "in")));
    assert_eq!(sources(&view), ["b", "a"]);
    let (from, to) = (Endpoint("a".into(), "out".into()), Endpoint("m".into(), "in".into()));
    assert!(view.disconnect_wire(&from, &to));
    assert_eq!(sources(&view), ["b"]);
}

#[test]
fn the_sink_has_an_input_for_each_channel() {
    let view = view(vec![], vec![], &[]);
    let sink = |channels| Node { channels, ..node("out", "audio_output") };
    let (ins, outs, known) = view.node_ports(&sink(Some(3)));
    assert_eq!(ins, ["ch0", "ch1", "ch2"]);
    assert!(outs.is_empty());
    assert!(known);
    assert_eq!(view.node_ports(&sink(None)).0, ["ch0", "ch1"]);
    assert_eq!(view.node_ports(&sink(Some(0))).0, ["ch0"]);
    assert_eq!(view.node_ports(&sink(Some(-5))).0, ["ch0"]);
    assert_eq!(view.node_ports(&sink(Some(12))).0[11], "ch11");
}

#[test]
fn sources_come_before_modules_of_the_same_type() {
    let view = view(vec![], vec![], &[]);
    let (ins, outs, known) = view.node_ports(&node("c", "const_generator"));
    assert!(ins.is_empty());
    assert_eq!(outs, ["out"]);
    assert!(known);
    let (ins, outs, known) = view.node_ports(&node("u", "no_such_type"));
    assert!(ins.is_empty() && outs.is_empty() && !known);
}

#[test]
fn boxes_grow_with_their_rows() {
    let view = view(
        vec![],
        vec![wire(("a", "out"), ("m", "in")), wire(("b", "out"), ("m", "in"))],
        &[],
    );
    assert_eq!(view.node_size(&node("c", "const_generator")), Microns { x: 28000, y: 13500 });
    assert_eq!(view.node_size(&node("u", "no_such_type")), Microns { x: 28000, y: 13500 });
    assert_eq!(view.node_size(&node("s", "sine_generator")), Microns { x: 28000, y: 23500 });
    // Two connected inlets and a spare one.
    assert_eq!(view.node_size(&node("m", "mix")), Microns { x: 28000, y: 23500 });
    assert_eq!(view.node_size(&node("n", "mix")), Microns { x: 28000, y: 13500 });
}

#[test]
fn geometry_of_a_placed_node() {
    let view = view(vec![node("s", "sine_generator")], vec![], &[("s", [100.0, 50.0])]);
    let geoms = view.geoms(&at);
    let g = &geoms[0];
    assert!(g.known);
    assert_eq!(g.ty, "sine_generator");
    assert_eq!(g.rect.corner, [86.0, 38.25]);
    assert_eq!(g.rect.size, Microns { x: 28000, y: 23500 });
    assert_eq!(g.inputs[0].pos, [86.0, 46.75]);
    assert_eq!(g.inputs[2].pos, [86.0, 56.75]);
    assert_eq!(g.outputs[0].pos, [114.0, 46.75]);
    assert!(g.outputs[0].is_output && !g.inputs[0].is_output);
}

#[test]
fn nodes_without_a_position_are_staggered() {
    let nodes = (0..7).map(|i| node(&format!("n{i}"), "const_generator")).collect();
    let view = view(nodes, vec![], &[]);
    let geoms = view.geoms(&at);
    let center = |g: &NodeGeom<W>| [g.rect.corner[0] + 14.0, g.rect.corner[1] + 6.75];
    assert_eq!(center(&geoms[0]), [-80.0, -40.0]);
    assert_eq!(center(&geoms[4]), [80.0, -40.0]);
    assert_eq!(center(&geoms[6]), [-40.0, 0.0]);
}

#[test]
fn the_last_drawn_node_is_on_top() {
    let view = view(
        vec![node("below", "mix"), node("above", "mix"), node("aside", "mix")],
        vec![],
        &[("below", [0.0, 0.0]), ("above", [10.0, 0.0]), ("aside", [200.0, 0.0])],
    );
    let hit = |p| view.hit_node(p, &at, &inside);
    assert_eq!(hit([0.0, 0.0]), Some("above".to_string()));
    assert_eq!(hit([-10.0, 0.0]), Some("below".to_string()));
    assert_eq!(hit([214.0, 0.0]), Some("aside".to_string()));
    assert_eq!(hit([214.1, 0.0]), None);
}

#[test]
fn a_port_is_hit_on_its_marker_only() {
    let view = view(vec![node("s", "sine_generator")], vec![], &[("s", [0.0, 0.0])]);
    let geoms = view.geoms(&at);
    let p = geoms[0].inputs[1].pos;
    let hit = |p| view.hit_port(p, &at, &gap, PORT_R_MM.to_bits());
    let port = hit([p[0] + 1.25, p[1] - 1.25]).unwrap();
    assert_eq!((port.node.as_str(), port.port.as_str(), port.is_output), ("s", "amplitude", false));
    assert_eq!(port.pos, p);
    assert!(hit([p[0] + 1.5, p[1]]).is_none());
    assert!(hit([p[0], p[1] - 1.5]).is_none());
    assert!(hit(geoms[0].outputs[0].pos).unwrap().is_output);
}

#[test]
fn of_overlapping_markers_the_nearest_center_wins() {
    let view = view(
        vec![node("a", "const_generator"), node("b", "const_generator")],
        vec![],
        &[("a", [0.0, 0.0]), ("b", [1.0, 0.0])],
    );
    let y = view.geoms(&at)[0].outputs[0].pos[1];
    let hit = |x| view.hit_port([x, y], &at, &gap, PORT_R_MM.to_bits()).unwrap().node;
    assert_eq!(hit(14.25), "a");
    assert_eq!(hit(14.75), "b");
    // Equally near: the first one drawn.
    assert_eq!(hit(14.5), "a");
}

#[test]
fn each_wire_to_a_variadic_input_has_its_own_inlet() {
    let view = view(
        vec![node("a", "const_generator"), node("b", "const_generator"), node("m", "mix")],
        vec![
            wire(("a", "out"), ("m", "in")),
            wire(("gone", "out"), ("m", "in")),
            wire(("b", "nothing"), ("m", "in")),
            wire(("b", "out"), ("m", "in")),
        ],
        &[("m", [0.0, 0.0])],
    );
    let geoms = view.geoms(&at);
    let segs = view.wire_segments(&geoms);
    let inlets = &geoms[2].inputs;
    assert_eq!(inlets.len(), 5);
    let ends: Vec<(usize, W)> = segs.iter().map(|s| (s.index, s.b)).collect();
    // The wire from a missing node takes no inlet; the one from a missing port does.
    assert_eq!(ends, [(0, inlets[0].pos), (3, inlets[2].pos)]);
    assert_eq!(segs[1].a, geoms[1].outputs[0].pos);
}

#[test]
fn no_wire_is_at_the_spare_inlet() {
    let view = view(
        vec![node("a", "const_generator"), node("m", "mix")],
        vec![wire(("a", "out"), ("m", "in"))],
        &[("a", [-60.0, 0.0]), ("m", [0.0, 0.0])],
    );
    let geoms = view.geoms(&at);
    let find = |p| view.wire_at_input(p, &at, &gap, PORT_R_MM.to_bits());
    assert!(find(geoms[1].inputs[0].pos).is_some());
    assert!(find(geoms[1].inputs[1].pos).is_none());
    assert!(find(geoms[0].outputs[0].pos).is_none());
}

#[test]
fn the_nearest_of_several_wires_is_hit() {
    let view = view(
        vec![node("a", "const_generator"), node("s", "sine_generator")],
        vec![wire(("a", "out"), ("s", "frequency")), wire(("a", "out"), ("s", "phase"))],
        &[("a", [-50.0, 0.0]), ("s", [50.0, 0.0])],
    );
    let segs = view.wire_segments(&view.geoms(&at));
    let near = |s: WireSeg<W>| [s.b[0], s.b[1]];
    assert_eq!(hit_wire(&view, near(segs[0]), 100.0), Some(0));
    assert_eq!(hit_wire(&view, near(segs[1]), 100.0), Some(1));
    assert_eq!(hit_wire(&view, segs[0].a, 100.0), Some(0));
}
