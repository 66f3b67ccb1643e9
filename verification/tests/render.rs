use synth_ui::atlas::{atlas_image, icon_pixels, IconIndex};
use synth_ui::editor::Hover;
use synth_ui::graph::{GraphView, Microns, NodeGeom, PortGeom, PortRef, Rect, WireSeg};
use synth_ui::model::{Layout, Node, Patch, Registry, TypeIcon};
use synth_ui::render::{
    build_icons, build_scene, first_size, pick_format, resized, scissor, Paint, PixelRect, Vertex,
};

type W = [f32; 2];

fn um(x: i128, y: i128) -> Microns {
    Microns { x, y }
}

fn geom(id: &str, known: bool) -> NodeGeom<W> {
    let port = |name: &str, is_output, pos| PortGeom { name: name.to_string(), is_output, pos };
    NodeGeom {
        id: id.to_string(),
        ty: "mix".to_string(),
        known,
        rect: Rect { corner: [1.0, 2.0], size: um(28000, 13500) },
        inputs: vec![port("in", false, [1.0, 10.0])],
        outputs: vec![port("in", true, [29.0, 10.0])],
    }
}

fn paints(vertices: &[Vertex<W>]) -> Vec<Paint> {
    vertices.chunks(6).map(|c| c[0].paint).collect()
}

fn seg(index: usize) -> WireSeg<W> {
    WireSeg { index, a: [0.0, 0.0], b: [5.0, 5.0] }
}

#[test]
fn a_node_is_a_body_a_header_and_its_ports() {
    let (tris, lines) = build_scene(&vec![geom("a", true)], &vec![], None, &Hover::Nothing);
    assert_eq!(paints(&tris), [Paint::Body, Paint::Header, Paint::Port, Paint::Port]);
    assert!(lines.is_empty());
    let offsets: Vec<Microns> = tris[..6].iter().map(|v| v.offset).collect();
    let (a, b, c, d) = (um(0, 0), um(28000, 0), um(28000, 13500), um(0, 13500));
    assert_eq!(offsets, [a, b, c, a, c, d]);
    assert_eq!(tris[8].offset, um(28000, 6000));
    assert_eq!(tris[0].anchor, [1.0, 2.0]);
    // The markers: inputs before outputs, squares around the port.
    assert_eq!((tris[12].anchor, tris[12].offset), ([1.0, 10.0], um(-1400, -1400)));
    assert_eq!((tris[14].anchor, tris[14].offset), ([1.0, 10.0], um(1400, 1400)));
    assert_eq!(tris[18].anchor, [29.0, 10.0]);
}

#[test]
fn hovered_and_unknown_nodes_have_other_headers() {
    let hover = Hover::Node("a".to_string());
    let geoms = vec![geom("a", true), geom("b", true), geom("a", false)];
    let (tris, _) = build_scene(&geoms, &vec![], None, &hover);
    let headers: Vec<Paint> = paints(&tris).chunks(4).map(|n| n[1]).collect();
    assert_eq!(headers, [Paint::HeaderHover, Paint::Header, Paint::HeaderUnknown]);
}

#[test]
fn only_the_hovered_port_is_highlighted() {
    let hover = Hover::Port(PortRef {
        node: "b".to_string(),
        port: "in".to_string(),
        is_output: true,
        pos: [0.0, 0.0],
    });
    let (tris, _) = build_scene(&vec![geom("a", true), geom("b", true)], &vec![], None, &hover);
    let ports: Vec<Paint> = paints(&tris).chunks(4).flat_map(|n| [n[2], n[3]]).collect();
    assert_eq!(ports, [Paint::Port, Paint::Port, Paint::Port, Paint::PortHover]);
}

#[test]
fn the_hovered_wire_and_the_pending_one_stand_out() {
    let wires = vec![seg(0), seg(4)];
    let pending = Some(([1.0, 1.0], [2.0, 2.0]));
    let (_, lines) = build_scene(&vec![], &wires, pending, &Hover::Wire(4));
    let drawn: Vec<Paint> = lines.chunks(2).map(|c| c[0].paint).collect();
    assert_eq!(drawn, [Paint::Port, Paint::PortHover, Paint::Pending]);
    assert_eq!(lines[3].anchor, [5.0, 5.0]);
    assert_eq!((lines[4].anchor, lines[5].anchor), ([1.0, 1.0], [2.0, 2.0]));
}

#[test]
fn icons_are_inset_and_taken_from_their_band() {
    let index = IconIndex { types: vec!["other".to_string(), "mix".to_string()] };
    let mut unknown = geom("b", true);
    unknown.ty = "not listed".to_string();
    let icons = build_icons(&vec![geom("a", true), unknown], &index, 2);
    assert_eq!(icons.len(), 12);
    assert_eq!((icons[0].offset, icons[0].right, icons[0].below), (um(1000, 1000), false, false));
    assert_eq!((icons[2].offset, icons[2].right, icons[2].below), (um(5200, 5200), true, true));
    assert_eq!((icons[5].offset, icons[5].right, icons[5].below), (um(1000, 5200), false, true));
    assert_eq!(icons[0].band, 1);
    assert_eq!(icons[6].band, 0);
    assert_eq!(icons[0].anchor, [1.0, 2.0]);
    assert!(build_icons(&vec![geom("a", true)], &index, 0).is_empty());
}

#[test]
fn the_atlas_lists_each_type_once() {
    let registry = Registry {
        sources: vec![],
        modules: vec![],
        icons: vec![
            TypeIcon { type_id: "mix".to_string(), icon: [1; 32] },
            TypeIcon { type_id: "audio_output".to_string(), icon: [9; 32] },
        ],
        audio_output: [2; 32],
        unknown: [3; 32],
    };
    let node = |ty: &str| Node {
        id: ty.to_string(),
        ty: ty.to_string(),
        channels: None,
        desc: None,
    };
    let nodes = vec![node("audio_output"), node("mix"), node("odd"), node("mix"), node("odd")];
    let patch: Patch<W> = Patch { nodes, wires: vec![], layout: Layout::new() };
    let (icons, index) = GraphView::new(patch, registry).icon_atlas();
    assert_eq!(icons, [[2; 32], [1; 32], [3; 32]]);
    assert_eq!(index.get("audio_output"), Some(0));
    assert_eq!(index.get("mix"), Some(1));
    assert_eq!(index.get("odd"), Some(2));
    assert_eq!(index.get("gone"), None);
}

#[test]
fn the_leftmost_pixel_is_the_highest_bit() {
    let mut icon = [0u32; 32];
    icon[0] = 0x8000_0000;
    icon[31] = 1;
    icon[2] = 0x0000_0100;
    let lit = icon_pixels(&icon);
    assert_eq!(lit.len(), 1024);
    let set: Vec<usize> = (0..1024).filter(|&i| lit[i]).collect();
    assert_eq!(set, [0, 2 * 32 + 23, 1023]);
}

#[test]
fn the_atlas_image_stacks_padded_icons() {
    let mut first = [0u32; 32];
    first[0] = 0x4000_0000;
    let mut second = [0u32; 32];
    second[31] = 1;
    let image = atlas_image(&vec![first, second]);
    assert_eq!(image.len(), 2 * 32 * 256);
    let set: Vec<usize> = (0..image.len()).filter(|&i| image[i] != 0).collect();
    assert_eq!(set, [1, 63 * 256 + 31]);
    assert_eq!(image[1], 255);
    assert!(atlas_image(&vec![]).is_empty());
}

#[test]
fn surface_sizes_stay_within_the_device() {
    assert_eq!(first_size(0, 5000, 4096), (1, 4096));
    assert_eq!(resized(800, 600, 4096), Some((800, 600)));
    assert_eq!(resized(9000, 600, 4096), Some((4096, 600)));
    assert_eq!(resized(0, 600, 4096), None);
    assert_eq!(resized(800, 0, 4096), None);
}

#[test]
fn the_canvas_is_cut_to_the_surface() {
    let rect = |x, y, w, h| PixelRect { x, y, w, h };
    assert_eq!(scissor(rect(10, 20, 30, 40), 100, 100), Some(rect(10, 20, 30, 40)));
    assert_eq!(scissor(rect(90, 20, 30, 400), 100, 100), Some(rect(90, 20, 10, 80)));
    assert_eq!(scissor(rect(200, 20, 30, 40), 100, 100), None);
    assert_eq!(scissor(rect(10, 20, 0, 40), 100, 100), None);
    assert_eq!(scissor(rect(10, 20, 5, 0), 100, 100), None);
}

#[test]
fn the_first_srgb_format_is_picked() {
    assert_eq!(pick_format(&vec![false, true, true]), 1);
    assert_eq!(pick_format(&vec![false, false]), 0);
    assert_eq!(pick_format(&vec![true]), 0);
}
