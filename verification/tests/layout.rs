use synth_ui::graph::{GraphView, Microns};
use synth_ui::layout::autolayout_full;
use synth_ui::model::{
    Descriptor, Endpoint, Inputs, Layout, ModuleType, Node, Patch, Registry, Wire,
};

type P = [f64; 2];

fn names(list: &[&str]) -> Vec<String> {
    list.iter().map(|s| s.to_string()).collect()
}

fn module(type_id: &str, inputs: Inputs) -> ModuleType {
    ModuleType {
        type_id: type_id.to_string(),
        desc: Descriptor { inputs, outputs: names(&["out"]) },
    }
}

fn registry() -> Registry {
    Registry {
        sources: vec![
            module("const_generator", Inputs::Fixed(vec![])),
            module("sine_generator", Inputs::Fixed(names(&["frequency", "amplitude", "phase"]))),
        ],
        modules: vec![module("mul", Inputs::Variadic("in".to_string()))],
        icons: vec![],
        audio_output: [0; 32],
        unknown: [0; 32],
    }
}

fn node(id: &str, ty: &str, channels: Option<i64>) -> Node {
    Node { id: id.to_string(), ty: ty.to_string(), channels, desc: registry().describe(ty) }
}

fn wire(from: (&str, &str), to: (&str, &str)) -> Wire {
    Wire {
        from: Endpoint(from.0.to_string(), from.1.to_string()),
        to: Endpoint(to.0.to_string(), to.1.to_string()),
    }
}

fn view(nodes: Vec<Node>, wires: Vec<Wire>) -> GraphView<P> {
    GraphView::new(Patch { nodes, wires, layout: Layout::new() }, registry())
}

fn place(m: Microns) -> P {
    [m.x as f64 / 1000.0, m.y as f64 / 1000.0]
}

fn laid_out(nodes: Vec<Node>, wires: Vec<Wire>) -> GraphView<P> {
    let mut view = view(nodes, wires);
    autolayout_full(&mut view, &place);
    view
}

fn position(view: &GraphView<P>, id: &str) -> P {
    *view.patch.layout.get(id).unwrap()
}

fn chain() -> (Vec<Node>, Vec<Wire>) {
    (
        vec![
            node("freq", "const_generator", None),
            node("osc", "sine_generator", None),
            node("out", "audio_output", Some(1)),
        ],
        vec![wire(("freq", "out"), ("osc", "frequency")), wire(("osc", "out"), ("out", "ch0"))],
    )
}

#[test]
fn lays_out_chain_left_to_right() {
    let (nodes, wires) = chain();
    let view = laid_out(nodes, wires);
    let x = |id: &str| view.patch.layout.get(id).unwrap()[0];
    assert!(x("freq") < x("osc"));
    assert!(x("osc") < x("out"));
}

#[test]
fn every_node_positioned() {
    let (nodes, wires) = chain();
    let view = laid_out(nodes, wires);
    assert_eq!(view.patch.layout.len(), view.patch.nodes.len());
}

#[test]
fn terminates_on_cycle() {
    let view = laid_out(
        vec![
            node("a", "mul", None),
            node("b", "mul", None),
            node("out", "audio_output", Some(1)),
        ],
        vec![
            wire(("a", "out"), ("b", "a")),
            wire(("b", "out"), ("a", "a")),
            wire(("b", "out"), ("out", "ch0")),
        ],
    );
    assert_eq!(view.patch.layout.len(), 3);
}

#[test]
fn chain_has_exact_places() {
    let (nodes, wires) = chain();
    let view = laid_out(nodes, wires);
    assert_eq!(position(&view, "freq"), [-46.0, 0.0]);
    assert_eq!(position(&view, "osc"), [0.0, 0.0]);
    assert_eq!(position(&view, "out"), [46.0, 0.0]);
}

#[test]
fn nodes_of_a_column_are_stacked_with_a_gap() {
    let view = laid_out(
        vec![
            node("c", "const_generator", None),
            node("s", "sine_generator", None),
            node("d", "const_generator", None),
        ],
        vec![],
    );
    // Heights 13.5, 23.5 and 13.5 mm with gaps of 7 mm: 25.5 mm from center to center.
    assert_eq!(position(&view, "c"), [0.0, -25.5]);
    assert_eq!(position(&view, "s"), [0.0, 0.0]);
    assert_eq!(position(&view, "d"), [0.0, 25.5]);
}

#[test]
fn whole_layout_is_centered() {
    let view = laid_out(
        vec![
            node("c", "const_generator", None),
            node("s", "sine_generator", None),
            node("m", "mul", None),
        ],
        vec![wire(("c", "out"), ("m", "in"))],
    );
    let ids = ["c", "s", "m"];
    for axis in 0..2 {
        let of = |id: &&str| position(&view, id)[axis];
        let least = ids.iter().map(of).fold(f64::MAX, f64::min);
        let greatest = ids.iter().map(of).fold(f64::MIN, f64::max);
        assert_eq!(least + greatest, 0.0);
    }
}

#[test]
fn sinks_are_in_the_last_column() {
    let view = laid_out(
        vec![
            node("first", "audio_output", None),
            node("a", "const_generator", None),
            node("b", "mul", None),
            node("c", "mul", None),
            node("second", "audio_output", None),
        ],
        vec![
            wire(("a", "out"), ("b", "in")),
            wire(("b", "out"), ("c", "in")),
            wire(("a", "out"), ("second", "ch0")),
        ],
    );
    let x = |id: &str| position(&view, id)[0];
    assert_eq!(x("first"), x("c"));
    assert_eq!(x("second"), x("c"));
    assert!(x("a") < x("b") && x("b") < x("c"));
}

#[test]
fn a_column_that_lost_its_sink_stays_narrow() {
    // The first sink is the only node of the second column, and moves to the last one.
    let view = laid_out(
        vec![
            node("a", "const_generator", None),
            node("sink", "audio_output", None),
            node("m", "mul", None),
        ],
        vec![wire(("a", "out"), ("sink", "ch0")), wire(("sink", "out"), ("m", "in"))],
    );
    let x = |id: &str| position(&view, id)[0];
    // 14 + 18 + 1 + 18 + 14 mm.
    assert_eq!(x("m") - x("a"), 65.0);
    assert_eq!(x("sink"), x("m"));
}

#[test]
fn crossing_wires_are_sorted_out() {
    let view = laid_out(
        vec![
            node("a", "const_generator", None),
            node("b", "const_generator", None),
            node("x", "mul", None),
            node("y", "mul", None),
        ],
        vec![wire(("a", "out"), ("y", "in")), wire(("b", "out"), ("x", "in"))],
    );
    let y = |id: &str| position(&view, id)[1];
    assert!((y("a") < y("b")) == (y("y") < y("x")));
}

#[test]
fn an_empty_patch_keeps_its_layout() {
    let mut view = view(vec![], vec![]);
    view.patch.layout.insert("left over".to_string(), [1.0, 2.0]);
    autolayout_full(&mut view, &place);
    assert_eq!(position(&view, "left over"), [1.0, 2.0]);
}

#[test]
fn earlier_positions_are_replaced() {
    let mut view = view(vec![node("a", "mul", None)], vec![]);
    view.patch.layout.insert("a".to_string(), [7.0, 8.0]);
    view.patch.layout.insert("left over".to_string(), [1.0, 2.0]);
    autolayout_full(&mut view, &place);
    assert_eq!(view.patch.layout.len(), 1);
    assert_eq!(position(&view, "a"), [0.0, 0.0]);
}

#[test]
fn wires_to_nowhere_and_to_themselves_do_not_matter() {
    let view = laid_out(
        vec![node("a", "mul", None), node("b", "mul", None)],
        vec![
            wire(("a", "out"), ("a", "in")),
            wire(("gone", "out"), ("a", "in")),
            wire(("b", "out"), ("gone", "in")),
        ],
    );
    assert_eq!(position(&view, "a")[0], 0.0);
    assert_eq!(position(&view, "b")[0], 0.0);
}

#[test]
fn positions_are_listed_in_the_order_they_came() {
    let (nodes, wires) = chain();
    let view = laid_out(nodes, wires);
    let listed: Vec<&str> = (0..3).map(|i| view.patch.layout.entry(i).0).collect();
    assert_eq!(listed, ["freq", "osc", "out"]);
    assert_eq!(view.patch.layout.entry(2).1, &[46.0, 0.0]);
}

#[test]
fn the_layout_depends_on_nodes_and_wires_alone() {
    let (nodes, wires) = chain();
    let mut a = view(nodes, wires);
    let (nodes, wires) = chain();
    let mut b = view(nodes, wires);
    // Feedback, and an old layout.
    for v in [&mut a, &mut b] {
        v.patch.wires.push(wire(("osc", "out"), ("freq", "in")));
    }
    b.patch.layout.insert("osc".to_string(), [99.0, 98.0]);
    autolayout_full(&mut a, &place);
    autolayout_full(&mut b, &place);
    let all = |v: &GraphView<P>| ["freq", "osc", "out"].map(|id| position(v, id));
    assert_eq!(all(&a), all(&b));
    let once = all(&a);
    autolayout_full(&mut a, &place);
    assert_eq!(all(&a), once);
    assert_eq!(a.patch.layout.len(), 3);
}
