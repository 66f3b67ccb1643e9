//! What is drawn: the triangles, lines and icons of the scene, and the sizes of the surface.
//!
//! A vertex is a point of the world plane and an offset from it in micrometers.

use vstd::prelude::*;

use crate::atlas::IconIndex;
use crate::editor::Hover;
use crate::graph::{Microns, NodeGeom, PortGeom, WireSeg, HEADER_H_UM, PORT_R_UM};
use crate::text::same_text;

verus! {

/// Side of the icon of a node.
pub const ICON_UM: i128 = 4200;

/// Inset of the icon from the top left corner of its node.
pub const ICON_INSET_UM: i128 = 1000;

/// What something is colored as.
#[derive(Clone, Copy, Debug, PartialEq, Eq, Structural)]
pub enum Paint {
    Body,
    Header,
    HeaderHover,
    /// The header of a node whose type is not known.
    HeaderUnknown,
    /// Ports, and the wires between them.
    Port,
    /// A port or wire that is hovered.
    PortHover,
    /// The wire that is being drawn.
    Pending,
}

/// A corner of a triangle, or an end of a line.
#[derive(Clone, Copy, Debug)]
pub struct Vertex<W> {
    pub anchor: W,
    pub offset: Microns,
    pub paint: Paint,
}

/// A corner of an icon: `right` and `below` say where in its band of the atlas the corner is, which
/// begins after `band` others.
#[derive(Clone, Copy, Debug)]
pub struct IconVertex<W> {
    pub anchor: W,
    pub offset: Microns,
    pub right: bool,
    pub below: bool,
    pub band: usize,
}

/// The offset `d` from the offset `o`.
pub open spec fn further(o: Microns, dx: int, dy: int) -> Microns {
    Microns { x: (o.x + dx) as i128, y: (o.y + dy) as i128 }
}

/// The two triangles of a rectangle whose top left corner is at an offset from a point.
pub open spec fn rect_vertices<W>(anchor: W, at: Microns, size: Microns, paint: Paint) -> Seq<
    Vertex<W>,
> {
    let a = Vertex { anchor, offset: at, paint };
    let b = Vertex { anchor, offset: further(at, size.x as int, 0), paint };
    let c = Vertex { anchor, offset: further(at, size.x as int, size.y as int), paint };
    let d = Vertex { anchor, offset: further(at, 0, size.y as int), paint };
    seq![a, b, c, a, c, d]
}

/// No offset.
pub open spec fn no_offset() -> Microns {
    Microns { x: 0, y: 0 }
}

/// The color of the header of a node.
pub open spec fn header_paint<W>(g: NodeGeom<W>, hover: Hover<W>) -> Paint {
    if !g.known {
        Paint::HeaderUnknown
    } else if hover matches Hover::Node(id) && id@ == g.id@ {
        Paint::HeaderHover
    } else {
        Paint::Header
    }
}

/// The color of a port of node `id`.
pub open spec fn port_paint<W>(id: Seq<char>, p: PortGeom<W>, hover: Hover<W>) -> Paint {
    if hover matches Hover::Port(h) && h.node@ == id && h.port@ == p.name@ && h.is_output
        == p.is_output {
        Paint::PortHover
    } else {
        Paint::Port
    }
}

/// The color of a wire.
pub open spec fn wire_paint<W>(index: usize, hover: Hover<W>) -> Paint {
    if hover == Hover::<W>::Wire(index) {
        Paint::PortHover
    } else {
        Paint::Port
    }
}

/// The markers of the first `k` ports of node `id`.
pub open spec fn port_vertices<W>(
    id: Seq<char>,
    ports: Seq<PortGeom<W>>,
    hover: Hover<W>,
    k: nat,
) -> Seq<Vertex<W>>
    decreases k,
{
    if k == 0 {
        Seq::empty()
    } else {
        port_vertices(id, ports, hover, (k - 1) as nat) + rect_vertices(
            ports[k - 1].pos,
            Microns { x: (-PORT_R_UM) as i128, y: (-PORT_R_UM) as i128 },
            Microns { x: (2 * PORT_R_UM) as i128, y: (2 * PORT_R_UM) as i128 },
            port_paint(id, ports[k - 1], hover),
        )
    }
}

/// The triangles of a node: its body, its header, and the markers of its inputs and outputs.
pub open spec fn node_vertices<W>(g: NodeGeom<W>, hover: Hover<W>) -> Seq<Vertex<W>> {
    rect_vertices(g.rect.corner, no_offset(), g.rect.size, Paint::Body) + rect_vertices(
        g.rect.corner,
        no_offset(),
        Microns { x: g.rect.size.x, y: HEADER_H_UM },
        header_paint(g, hover),
    ) + port_vertices(g.id@, g.inputs@, hover, g.inputs@.len()) + port_vertices(
        g.id@,
        g.outputs@,
        hover,
        g.outputs@.len(),
    )
}

/// The triangles of the first `k` nodes.
pub open spec fn triangles<W>(geoms: Seq<NodeGeom<W>>, hover: Hover<W>, k: nat) -> Seq<Vertex<W>>
    decreases k,
{
    if k == 0 {
        Seq::empty()
    } else {
        triangles(geoms, hover, (k - 1) as nat) + node_vertices(geoms[k - 1], hover)
    }
}

/// The two ends of a line.
pub open spec fn line_vertices<W>(a: W, b: W, paint: Paint) -> Seq<Vertex<W>> {
    seq![
        Vertex { anchor: a, offset: no_offset(), paint },
        Vertex { anchor: b, offset: no_offset(), paint },
    ]
}

/// The lines of the first `k` wires.
pub open spec fn wire_lines<W>(wires: Seq<WireSeg<W>>, hover: Hover<W>, k: nat) -> Seq<Vertex<W>>
    decreases k,
{
    if k == 0 {
        Seq::empty()
    } else {
        let w = wires[k - 1];
        wire_lines(wires, hover, (k - 1) as nat) + line_vertices(
            w.a,
            w.b,
            wire_paint(w.index, hover),
        )
    }
}

/// The lines of the scene: the wires, and the one that is being drawn.
pub open spec fn lines<W>(
    wires: Seq<WireSeg<W>>,
    pending: Option<(W, W)>,
    hover: Hover<W>,
) -> Seq<Vertex<W>> {
    let all = wire_lines(wires, hover, wires.len());
    match pending {
        Some((a, b)) => all + line_vertices(a, b, Paint::Pending),
        None => all,
    }
}

/// Adds the two triangles of a rectangle.
fn push_rect<W: Copy>(
    v: &mut Vec<Vertex<W>>,
    anchor: W,
    at: Microns,
    size: Microns,
    paint: Paint,
)
    requires
        i128::MIN <= at.x + size.x <= i128::MAX,
        i128::MIN <= at.y + size.y <= i128::MAX,
    ensures
        final(v)@ == old(v)@ + rect_vertices(anchor, at, size, paint),
{
    let a = Vertex { anchor, offset: at, paint };
    let b = Vertex { anchor, offset: Microns { x: at.x + size.x, y: at.y }, paint };
    let c = Vertex { anchor, offset: Microns { x: at.x + size.x, y: at.y + size.y }, paint };
    let d = Vertex { anchor, offset: Microns { x: at.x, y: at.y + size.y }, paint };
    v.push(a);
    v.push(b);
    v.push(c);
    v.push(a);
    v.push(c);
    v.push(d);
    assert(v@ =~= old(v)@ + rect_vertices(anchor, at, size, paint));
}

/// Adds the two ends of a line.
fn push_line<W: Copy>(v: &mut Vec<Vertex<W>>, a: W, b: W, paint: Paint)
    ensures
        final(v)@ == old(v)@ + line_vertices(a, b, paint),
{
    v.push(Vertex { anchor: a, offset: Microns { x: 0, y: 0 }, paint });
    v.push(Vertex { anchor: b, offset: Microns { x: 0, y: 0 }, paint });
    assert(v@ =~= old(v)@ + line_vertices(a, b, paint));
}

/// The color of a port of node `id`.
fn port_color<W>(id: &str, p: &PortGeom<W>, hover: &Hover<W>) -> (r: Paint)
    ensures
        r == port_paint(id@, *p, *hover),
{
    match hover {
        Hover::Port(h) => {
            if same_text(h.node.as_str(), id) && same_text(h.port.as_str(), p.name.as_str())
                && h.is_output == p.is_output {
                Paint::PortHover
            } else {
                Paint::Port
            }
        },
        _ => Paint::Port,
    }
}

/// Adds the markers of the ports of node `id`.
fn push_ports<W: Copy>(
    v: &mut Vec<Vertex<W>>,
    id: &str,
    ports: &Vec<PortGeom<W>>,
    hover: &Hover<W>,
)
    ensures
        final(v)@ == old(v)@ + port_vertices(id@, ports@, *hover, ports@.len()),
{
    let ghost given = v@;
    let mut k: usize = 0;
    assert(v@ =~= given + port_vertices(id@, ports@, *hover, 0));
    while k < ports.len()
        invariant
            k <= ports@.len(),
            v@ == given + port_vertices(id@, ports@, *hover, k as nat),
        decreases ports.len() - k,
    {
        let p = &ports[k];
        push_rect(
            v,
            p.pos,
            Microns { x: -PORT_R_UM, y: -PORT_R_UM },
            Microns { x: 2 * PORT_R_UM, y: 2 * PORT_R_UM },
            port_color(id, p, hover),
        );
        k += 1;
        assert(v@ =~= given + port_vertices(id@, ports@, *hover, k as nat));
    }
}

/// The triangles and lines of the scene. A hovered node, port or wire is highlighted; an unknown
/// node has its own header.
pub fn build_scene<W: Copy>(
    geoms: &Vec<NodeGeom<W>>,
    wires: &Vec<WireSeg<W>>,
    pending: Option<(W, W)>,
    hover: &Hover<W>,
) -> (r: (Vec<Vertex<W>>, Vec<Vertex<W>>))
    ensures
        r.0@ == triangles(geoms@, *hover, geoms@.len()),
        r.1@ == lines(wires@, pending, *hover),
{
    let mut tris: Vec<Vertex<W>> = Vec::new();
    let mut i: usize = 0;
    while i < geoms.len()
        invariant
            i <= geoms@.len(),
            tris@ == triangles(geoms@, *hover, i as nat),
        decreases geoms.len() - i,
    {
        let ghost before = tris@;
        let g = &geoms[i];
        let top = Microns { x: 0, y: 0 };
        push_rect(&mut tris, g.rect.corner, top, g.rect.size, Paint::Body);
        let header = if !g.known {
            Paint::HeaderUnknown
        } else {
            match hover {
                Hover::Node(id) => {
                    if same_text(id.as_str(), g.id.as_str()) {
                        Paint::HeaderHover
                    } else {
                        Paint::Header
                    }
                },
                _ => Paint::Header,
            }
        };
        push_rect(
            &mut tris,
            g.rect.corner,
            top,
            Microns { x: g.rect.size.x, y: HEADER_H_UM },
            header,
        );
        push_ports(&mut tris, g.id.as_str(), &g.inputs, hover);
        push_ports(&mut tris, g.id.as_str(), &g.outputs, hover);
        assert(tris@ =~= before + node_vertices(geoms@[i as int], *hover));
        i += 1;
    }
    let mut segs: Vec<Vertex<W>> = Vec::new();
    let mut k: usize = 0;
    while k < wires.len()
        invariant
            k <= wires@.len(),
            segs@ == wire_lines(wires@, *hover, k as nat),
        decreases wires.len() - k,
    {
        let w = wires[k];
        let paint = match hover {
            Hover::Wire(index) => {
                if *index == w.index {
                    Paint::PortHover
                } else {
                    Paint::Port
                }
            },
            _ => Paint::Port,
        };
        push_line(&mut segs, w.a, w.b, paint);
        k += 1;
    }
    if let Some((a, b)) = pending {
        push_line(&mut segs, a, b, Paint::Pending);
    }
    (tris, segs)
}

/// The band of the atlas that has the icon of type `ty`; the first, if none does.
pub open spec fn band_of(index: Seq<Seq<char>>, ty: Seq<char>) -> usize {
    if index.contains(ty) {
        index.index_of_first(ty)->0 as usize
    } else {
        0
    }
}

/// The two triangles of an icon in the top left corner of a node.
pub open spec fn icon_vertices<W>(g: NodeGeom<W>, band: usize) -> Seq<IconVertex<W>> {
    let near = ICON_INSET_UM as i128;
    let far = (ICON_INSET_UM + ICON_UM) as i128;
    let corner = |right: bool, below: bool|
        IconVertex {
            anchor: g.rect.corner,
            offset: Microns {
                x: if right {
                    far
                } else {
                    near
                },
                y: if below {
                    far
                } else {
                    near
                },
            },
            right,
            below,
            band,
        };
    seq![
        corner(false, false),
        corner(true, false),
        corner(true, true),
        corner(false, false),
        corner(true, true),
        corner(false, true),
    ]
}

/// The icons of the first `k` nodes.
pub open spec fn icons_of<W>(geoms: Seq<NodeGeom<W>>, index: Seq<Seq<char>>, k: nat) -> Seq<
    IconVertex<W>,
>
    decreases k,
{
    if k == 0 {
        Seq::empty()
    } else {
        icons_of(geoms, index, (k - 1) as nat) + icon_vertices(
            geoms[k - 1],
            band_of(index, geoms[k - 1].ty@),
        )
    }
}

/// A corner of the icon of a node.
fn icon_corner<W: Copy>(g: &NodeGeom<W>, band: usize, right: bool, below: bool) -> (r: IconVertex<
    W,
>)
    ensures
        r.anchor == g.rect.corner,
        r.offset.x == if right {
            ICON_INSET_UM + ICON_UM
        } else {
            ICON_INSET_UM as int
        },
        r.offset.y == if below {
            ICON_INSET_UM + ICON_UM
        } else {
            ICON_INSET_UM as int
        },
        r.right == right,
        r.below == below,
        r.band == band,
{
    let x: i128 = if right {
        ICON_INSET_UM + ICON_UM
    } else {
        ICON_INSET_UM
    };
    let y: i128 = if below {
        ICON_INSET_UM + ICON_UM
    } else {
        ICON_INSET_UM
    };
    IconVertex { anchor: g.rect.corner, offset: Microns { x, y }, right, below, band }
}

/// The icons of the nodes, one for each, unless the atlas has none.
pub fn build_icons<W: Copy>(geoms: &Vec<NodeGeom<W>>, index: &IconIndex, count: usize) -> (r: Vec<
    IconVertex<W>,
>)
    ensures
        count == 0 ==> r@.len() == 0,
        count > 0 ==> r@ == icons_of(geoms@, index@, geoms@.len()),
{
    let mut v: Vec<IconVertex<W>> = Vec::new();
    if count == 0 {
        return v;
    }
    let mut i: usize = 0;
    while i < geoms.len()
        invariant
            i <= geoms@.len(),
            v@ == icons_of(geoms@, index@, i as nat),
        decreases geoms.len() - i,
    {
        let ghost before = v@;
        let g = &geoms[i];
        let band: usize = match index.get(g.ty.as_str()) {
            Some(k) => {
                proof {
                    assert(index@.contains(g.ty@));
                    index@.index_of_first_ensures(g.ty@);
                }
                k
            },
            None => 0,
        };
        assert(band == band_of(index@, g.ty@));
        let a = icon_corner(g, band, false, false);
        let b = icon_corner(g, band, true, false);
        let c = icon_corner(g, band, true, true);
        let d = icon_corner(g, band, false, true);
        v.push(a);
        v.push(b);
        v.push(c);
        v.push(a);
        v.push(c);
        v.push(d);
        assert(v@ =~= before + icon_vertices(geoms@[i as int], band));
        i += 1;
    }
    v
}

/// The lesser of two numbers.
pub open spec fn lesser(a: u32, b: u32) -> u32 {
    if a < b {
        a
    } else {
        b
    }
}

/// The lesser of two numbers.
fn min(a: u32, b: u32) -> (r: u32)
    ensures
        r == lesser(a, b),
{
    if a < b {
        a
    } else {
        b
    }
}

/// The first size of the surface: at least one pixel each way, and no more than the device can.
pub fn first_size(width: u32, height: u32, max: u32) -> (r: (u32, u32))
    ensures
        r.0 == lesser(
            if width < 1 {
                1
            } else {
                width
            },
            max,
        ),
        r.1 == lesser(
            if height < 1 {
                1
            } else {
                height
            },
            max,
        ),
{
    let w: u32 = if width < 1 {
        1
    } else {
        width
    };
    let h: u32 = if height < 1 {
        1
    } else {
        height
    };
    (min(w, max), min(h, max))
}

/// The size of the surface in a window of this size: no more than the device can; none if nothing
/// would be left.
pub fn resized(width: u32, height: u32, max: u32) -> (r: Option<(u32, u32)>)
    ensures
        r == if lesser(width, max) == 0 || lesser(height, max) == 0 {
            None
        } else {
            Some((lesser(width, max), lesser(height, max)))
        },
{
    let w: u32 = min(width, max);
    let h: u32 = min(height, max);
    if w == 0 || h == 0 {
        None
    } else {
        Some((w, h))
    }
}

/// A rectangle of pixels.
#[derive(Clone, Copy, Debug, PartialEq, Eq, Structural)]
pub struct PixelRect {
    pub x: u32,
    pub y: u32,
    pub w: u32,
    pub h: u32,
}

/// A rectangle cut to what is on a surface of this size.
pub open spec fn cut(r: PixelRect, width: u32, height: u32) -> PixelRect {
    let x = lesser(r.x, width);
    let y = lesser(r.y, height);
    PixelRect { x, y, w: lesser(r.w, (width - x) as u32), h: lesser(r.h, (height - y) as u32) }
}

/// The part of the surface that the canvas may draw on; none if nothing of it is visible.
pub fn scissor(canvas: PixelRect, width: u32, height: u32) -> (r: Option<PixelRect>)
    ensures
        r == if cut(canvas, width, height).w == 0 || cut(canvas, width, height).h == 0 {
            None
        } else {
            Some(cut(canvas, width, height))
        },
{
    let x: u32 = min(canvas.x, width);
    let y: u32 = min(canvas.y, height);
    let w: u32 = min(canvas.w, width - x);
    let h: u32 = min(canvas.h, height - y);
    if w > 0 && h > 0 {
        Some(PixelRect { x, y, w, h })
    } else {
        None
    }
}

/// What the canvas may draw on lies on the surface.
pub proof fn law_scissor_lies_on_the_surface(canvas: PixelRect, width: u32, height: u32)
    ensures
        cut(canvas, width, height).x + cut(canvas, width, height).w <= width,
        cut(canvas, width, height).y + cut(canvas, width, height).h <= height,
{
}

/// `i` is the first surface format that is sRGB, or the first of all if none is.
pub open spec fn is_preferred(srgb: Seq<bool>, i: int) -> bool {
    ||| 0 <= i < srgb.len() && srgb[i] && forall|j: int| 0 <= j < i ==> !#[trigger] srgb[j]
    ||| i == 0 && forall|j: int| 0 <= j < srgb.len() ==> !#[trigger] srgb[j]
}

/// Which surface format to use, given whether each is sRGB.
pub fn pick_format(srgb: &Vec<bool>) -> (r: usize)
    ensures
        is_preferred(srgb@, r as int),
        srgb@.len() > 0 ==> r < srgb@.len(),
{
    let mut i: usize = 0;
    while i < srgb.len()
        invariant
            i <= srgb@.len(),
            forall|j: int| 0 <= j < i ==> !#[trigger] srgb@[j],
        decreases srgb.len() - i,
    {
        if srgb[i] {
            return i;
        }
        i += 1;
    }
    0
}

} // verus!
