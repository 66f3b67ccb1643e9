//! What the scene shows, vertex by vertex, in terms of the drawn nodes and wires.

use vstd::prelude::*;

use crate::editor::Hover;
use crate::graph::{Microns, NodeGeom, PortGeom, WireSeg};
use crate::render::{
    band_of, cut, header_paint, icon_vertices, icons_of, is_preferred, lesser, lines,
    node_vertices, port_vertices, rect_vertices, triangles, wire_lines, IconVertex, Paint,
    PixelRect, Vertex,
};

verus! {

/// The six vertices from `start` on are the two triangles of the rectangle between two corners,
/// which are offsets from `anchor`: top left, top right and bottom right, then top left, bottom
/// right and bottom left.
pub open spec fn shows_rect<W>(
    vs: Seq<Vertex<W>>,
    start: int,
    anchor: W,
    near: (int, int),
    far: (int, int),
    paint: Paint,
) -> bool {
    &&& 0 <= start
    &&& start + 6 <= vs.len()
    &&& forall|j: int|
        start <= j < start + 6 ==> (#[trigger] vs[j]).anchor == anchor && vs[j].paint == paint
    &&& vs[start].offset.x == near.0 && vs[start].offset.y == near.1
    &&& vs[start + 1].offset.x == far.0 && vs[start + 1].offset.y == near.1
    &&& vs[start + 2].offset.x == far.0 && vs[start + 2].offset.y == far.1
    &&& vs[start + 3].offset.x == near.0 && vs[start + 3].offset.y == near.1
    &&& vs[start + 4].offset.x == far.0 && vs[start + 4].offset.y == far.1
    &&& vs[start + 5].offset.x == near.0 && vs[start + 5].offset.y == far.1
}

/// What a header is colored as: whether its type is known comes before whether it is hovered.
pub open spec fn shows_header<W>(g: NodeGeom<W>, hover: Hover<W>, paint: Paint) -> bool {
    &&& !g.known ==> paint == Paint::HeaderUnknown
    &&& g.known && (hover is Node && hover->Node_0@ == g.id@) ==> paint == Paint::HeaderHover
    &&& g.known && !(hover is Node && hover->Node_0@ == g.id@) ==> paint == Paint::Header
}

/// A port is lit up exactly if it is the hovered one: of that node, of that name, on that side.
pub open spec fn shows_port<W>(
    id: Seq<char>,
    port: PortGeom<W>,
    hover: Hover<W>,
    paint: Paint,
) -> bool {
    let hovered = hover is Port && hover->Port_0.node@ == id && hover->Port_0.port@ == port.name@
        && hover->Port_0.is_output == port.is_output;
    &&& hovered ==> paint == Paint::PortHover
    &&& !hovered ==> paint == Paint::Port
}

/// The vertices from `start` on are the markers of the ports, each the square that reaches 1.4 mm
/// to all sides of its own port's center.
pub open spec fn shows_markers<W>(
    vs: Seq<Vertex<W>>,
    start: int,
    id: Seq<char>,
    ports: Seq<PortGeom<W>>,
    hover: Hover<W>,
) -> bool {
    forall|k: int|
        0 <= k < ports.len() ==> shows_rect(
            vs,
            start + 6 * k,
            (#[trigger] ports[k]).pos,
            (-1400, -1400),
            (1400, 1400),
            vs[start + 6 * k].paint,
        ) && shows_port(id, ports[k], hover, vs[start + 6 * k].paint)
}

/// The vertices from `start` on are those of the node: its body, its header of 6 mm, and the
/// markers of all its inputs and of all its outputs.
#[verifier::opaque]
pub open spec fn shows_node<W>(
    vs: Seq<Vertex<W>>,
    start: int,
    g: NodeGeom<W>,
    hover: Hover<W>,
) -> bool {
    let size = g.rect.size;
    &&& shows_rect(
        vs,
        start,
        g.rect.corner,
        (0, 0),
        (size.x as int, size.y as int),
        Paint::Body,
    )
    &&& shows_rect(
        vs,
        start + 6,
        g.rect.corner,
        (0, 0),
        (size.x as int, 6000),
        vs[start + 6].paint,
    )
    &&& shows_header(g, hover, vs[start + 6].paint)
    &&& shows_markers(vs, start + 12, g.id@, g.inputs@, hover)
    &&& shows_markers(vs, start + 12 + 6 * g.inputs@.len(), g.id@, g.outputs@, hover)
}

/// How many vertices show a node: six for its body, six for its header, six for each port.
pub open spec fn vertex_count<W>(g: NodeGeom<W>) -> nat {
    12 + 6 * g.inputs@.len() + 6 * g.outputs@.len()
}

/// Of the ports of one side, the `k`-th marker is the square around the center of the `k`-th port,
/// lit up exactly if that port is hovered.
pub proof fn law_markers_are_around_their_ports<W>(
    id: Seq<char>,
    ports: Seq<PortGeom<W>>,
    hover: Hover<W>,
    n: nat,
)
    requires
        n <= ports.len(),
    ensures
        port_vertices(id, ports, hover, n).len() == 6 * n,
        shows_markers(port_vertices(id, ports, hover, n), 0, id, ports.take(n as int), hover),
    decreases n,
{
    if n > 0 {
        let m = (n - 1) as nat;
        let vs = port_vertices(id, ports, hover, n);
        let before = port_vertices(id, ports, hover, m);
        let first = ports.take(n as int);
        law_markers_are_around_their_ports(id, ports, hover, m);
        assert forall|k: int| 0 <= k < first.len() implies shows_rect(
            vs,
            0 + 6 * k,
            (#[trigger] first[k]).pos,
            (-1400, -1400),
            (1400, 1400),
            vs[0 + 6 * k].paint,
        ) && shows_port(id, first[k], hover, vs[0 + 6 * k].paint) by {
            if k < m {
                assert(ports.take(m as int)[k] == first[k]);
                lemma_rect_is_kept(
                    before,
                    Seq::empty(),
                    vs.skip(6 * m as int),
                    0 + 6 * k,
                    first[k].pos,
                    (-1400, -1400),
                    (1400, 1400),
                    before[0 + 6 * k].paint,
                );
                assert(Seq::<Vertex<W>>::empty() + before + vs.skip(6 * m as int) =~= vs);
            } else {
                assert(first[k] == ports[k]);
            }
        }
    }
}

/// The vertices of a rectangle show it.
proof fn lemma_rect<W>(anchor: W, at: Microns, size: Microns, paint: Paint)
    requires
        i128::MIN <= at.x + size.x <= i128::MAX,
        i128::MIN <= at.y + size.y <= i128::MAX,
    ensures
        rect_vertices(anchor, at, size, paint).len() == 6,
        shows_rect(
            rect_vertices(anchor, at, size, paint),
            0,
            anchor,
            (at.x as int, at.y as int),
            (at.x + size.x, at.y + size.y),
            paint,
        ),
{
}

/// A rectangle stays one where other vertices come before and after.
proof fn lemma_rect_is_kept<W>(
    vs: Seq<Vertex<W>>,
    before: Seq<Vertex<W>>,
    after: Seq<Vertex<W>>,
    start: int,
    anchor: W,
    near: (int, int),
    far: (int, int),
    paint: Paint,
)
    requires
        shows_rect(vs, start, anchor, near, far, paint),
    ensures
        shows_rect(before + vs + after, before.len() + start, anchor, near, far, paint),
        (before + vs + after)[before.len() + start].paint == vs[start].paint,
{
    let all = before + vs + after;
    let at = before.len() + start;
    assert forall|j: int| at <= j < at + 6 implies (#[trigger] all[j]).anchor == anchor
        && all[j].paint == paint by {
        assert(all[j] == vs[j - before.len()]);
    }
    assert(all[at] == vs[start]);
    assert(all[at + 1] == vs[start + 1]);
    assert(all[at + 2] == vs[start + 2]);
    assert(all[at + 3] == vs[start + 3]);
    assert(all[at + 4] == vs[start + 4]);
    assert(all[at + 5] == vs[start + 5]);
}

/// Markers stay where other vertices come before and after.
proof fn lemma_markers_are_kept<W>(
    vs: Seq<Vertex<W>>,
    before: Seq<Vertex<W>>,
    after: Seq<Vertex<W>>,
    start: int,
    id: Seq<char>,
    ports: Seq<PortGeom<W>>,
    hover: Hover<W>,
)
    requires
        shows_markers(vs, start, id, ports, hover),
    ensures
        shows_markers(before + vs + after, before.len() + start, id, ports, hover),
{
    let all = before + vs + after;
    let at = before.len() + start;
    assert forall|k: int| 0 <= k < ports.len() implies shows_rect(
        all,
        at + 6 * k,
        (#[trigger] ports[k]).pos,
        (-1400, -1400),
        (1400, 1400),
        all[at + 6 * k].paint,
    ) && shows_port(id, ports[k], hover, all[at + 6 * k].paint) by {
        lemma_rect_is_kept(
            vs,
            before,
            after,
            start + 6 * k,
            ports[k].pos,
            (-1400, -1400),
            (1400, 1400),
            vs[start + 6 * k].paint,
        );
        assert(before.len() + (start + 6 * k) == at + 6 * k);
    }
}

/// What shows a node still does where other vertices come before and after.
proof fn lemma_node_is_kept<W>(
    vs: Seq<Vertex<W>>,
    before: Seq<Vertex<W>>,
    after: Seq<Vertex<W>>,
    start: int,
    g: NodeGeom<W>,
    hover: Hover<W>,
)
    requires
        shows_node(vs, start, g, hover),
    ensures
        shows_node(before + vs + after, before.len() + start, g, hover),
{
    reveal(shows_node);
    let size = g.rect.size;
    let at = before.len() + start;
    let corner = g.rect.corner;
    lemma_rect_is_kept(
        vs,
        before,
        after,
        start,
        corner,
        (0, 0),
        (size.x as int, size.y as int),
        Paint::Body,
    );
    lemma_rect_is_kept(
        vs,
        before,
        after,
        start + 6,
        corner,
        (0, 0),
        (size.x as int, 6000),
        vs[start + 6].paint,
    );
    assert(before.len() + (start + 6) == at + 6);
    lemma_markers_are_kept(vs, before, after, start + 12, g.id@, g.inputs@, hover);
    assert(before.len() + (start + 12) == at + 12);
    let out = start + 12 + 6 * g.inputs@.len();
    lemma_markers_are_kept(vs, before, after, out, g.id@, g.outputs@, hover);
    assert(before.len() + out == at + 12 + 6 * g.inputs@.len());
}

/// A node is shown by its body, its header and the markers of its ports.
pub proof fn law_node_is_shown<W>(g: NodeGeom<W>, hover: Hover<W>)
    ensures
        node_vertices(g, hover).len() == vertex_count(g),
        shows_node(node_vertices(g, hover), 0, g, hover),
{
    reveal(shows_node);
    let vs = node_vertices(g, hover);
    let ins = port_vertices(g.id@, g.inputs@, hover, g.inputs@.len());
    let outs = port_vertices(g.id@, g.outputs@, hover, g.outputs@.len());
    law_markers_are_around_their_ports(g.id@, g.inputs@, hover, g.inputs@.len());
    law_markers_are_around_their_ports(g.id@, g.outputs@, hover, g.outputs@.len());
    assert(g.inputs@.take(g.inputs@.len() as int) =~= g.inputs@);
    assert(g.outputs@.take(g.outputs@.len() as int) =~= g.outputs@);
    let none = Seq::<Vertex<W>>::empty();
    let zero = Microns { x: 0, y: 0 };
    let size = g.rect.size;
    let body = rect_vertices(g.rect.corner, zero, size, Paint::Body);
    let paint = header_paint(g, hover);
    let top = rect_vertices(g.rect.corner, zero, Microns { x: size.x, y: 6000 }, paint);
    let head = body + top;
    lemma_rect(g.rect.corner, zero, size, Paint::Body);
    lemma_rect(g.rect.corner, zero, Microns { x: size.x, y: 6000 }, paint);
    assert(vs == body + top + ins + outs);
    lemma_rect_is_kept(
        body,
        none,
        top + ins + outs,
        0,
        g.rect.corner,
        (0, 0),
        (size.x as int, size.y as int),
        Paint::Body,
    );
    assert(none + body + (top + ins + outs) =~= vs);
    lemma_rect_is_kept(
        top,
        body,
        ins + outs,
        0,
        g.rect.corner,
        (0, 0),
        (size.x as int, 6000),
        paint,
    );
    assert(body + top + (ins + outs) =~= vs);
    assert(vs[6] == top[0]);
    lemma_markers_are_kept(ins, head, outs, 0, g.id@, g.inputs@, hover);
    assert(head + ins + outs =~= vs);
    lemma_markers_are_kept(outs, head + ins, none, 0, g.id@, g.outputs@, hover);
    assert((head + ins) + outs + none =~= vs);
}

/// The triangles show every node, one after the other. The result says from which vertex on.
pub proof fn law_scene_shows_every_node<W>(
    geoms: Seq<NodeGeom<W>>,
    hover: Hover<W>,
    n: nat,
) -> (starts: Seq<int>)
    requires
        n <= geoms.len(),
    ensures
        starts.len() == n + 1,
        starts[0] == 0,
        starts[n as int] == triangles(geoms, hover, n).len(),
        forall|i: int|
            0 <= i < n ==> starts[i + 1] == #[trigger] starts[i] + vertex_count(geoms[i]),
        forall|i: int|
            0 <= i < n ==> shows_node(
                triangles(geoms, hover, n),
                #[trigger] starts[i],
                geoms[i],
                hover,
            ),
    decreases n,
{
    if n == 0 {
        seq![0int]
    } else {
        let m = (n - 1) as nat;
        let g = geoms[m as int];
        let before = triangles(geoms, hover, m);
        let own = node_vertices(g, hover);
        let all = triangles(geoms, hover, n);
        let none = Seq::<Vertex<W>>::empty();
        let starts = law_scene_shows_every_node(geoms, hover, m);
        let r = starts.push(all.len() as int);
        law_node_is_shown(g, hover);
        lemma_node_is_kept(own, before, none, 0, g, hover);
        assert(before + own + none =~= all);
        assert forall|i: int| 0 <= i < n implies shows_node(
            all,
            #[trigger] r[i],
            geoms[i],
            hover,
        ) by {
            if i < m {
                assert(r[i] == starts[i]);
                lemma_node_is_kept(before, none, own, starts[i], geoms[i], hover);
                assert(none + before + own =~= all);
            } else {
                assert(r[i] == before.len());
            }
        }
        assert forall|i: int| 0 <= i < n implies r[i + 1] == #[trigger] r[i] + vertex_count(
            geoms[i],
        ) by {
            assert(r[i] == starts[i]);
            if i < m {
                assert(r[i + 1] == starts[i + 1]);
            }
        }
        r
    }
}

/// The two vertices from `start` on are the line of the wire: from its own beginning to its own
/// end, lit up exactly if the wire is the hovered one.
pub open spec fn shows_wire<W>(
    vs: Seq<Vertex<W>>,
    start: int,
    wire: WireSeg<W>,
    hover: Hover<W>,
) -> bool {
    let lit = hover is Wire && hover->Wire_0 == wire.index;
    &&& 0 <= start
    &&& start + 2 <= vs.len()
    &&& vs[start].anchor == wire.a
    &&& vs[start + 1].anchor == wire.b
    &&& vs[start].offset.x == 0 && vs[start].offset.y == 0
    &&& vs[start + 1].offset.x == 0 && vs[start + 1].offset.y == 0
    &&& vs[start].paint == vs[start + 1].paint
    &&& lit ==> vs[start].paint == Paint::PortHover
    &&& !lit ==> vs[start].paint == Paint::Port
}

/// Every wire is shown by a line from its own beginning to its own end, lit up exactly if it is the
/// hovered one; after them comes the line of the pending wire, if there is one, and nothing else.
pub proof fn law_scene_shows_every_wire<W>(
    wires: Seq<WireSeg<W>>,
    pending: Option<(W, W)>,
    hover: Hover<W>,
)
    ensures
        lines(wires, pending, hover).len() == 2 * wires.len() + if pending is Some {
            2int
        } else {
            0
        },
        forall|k: int|
            0 <= k < wires.len() ==> shows_wire(
                lines(wires, pending, hover),
                2 * k,
                #[trigger] wires[k],
                hover,
            ),
        pending matches Some(ends) ==> {
            let from = lines(wires, pending, hover)[2 * wires.len() as int];
            let to = lines(wires, pending, hover)[2 * wires.len() as int + 1];
            &&& from.anchor == ends.0
            &&& to.anchor == ends.1
            &&& from.offset.x == 0 && from.offset.y == 0
            &&& to.offset.x == 0 && to.offset.y == 0
            &&& from.paint == Paint::Pending
            &&& to.paint == Paint::Pending
        },
{
    let own = wire_lines(wires, hover, wires.len());
    let all = lines(wires, pending, hover);
    lemma_wire_lines(wires, hover, wires.len());
    assert forall|k: int| 0 <= k < wires.len() implies shows_wire(
        all,
        2 * k,
        #[trigger] wires[k],
        hover,
    ) by {
        assert(shows_wire(own, 2 * k, wires[k], hover));
        assert(all[2 * k] == own[2 * k]);
        assert(all[2 * k + 1] == own[2 * k + 1]);
    }
}

/// The lines of the first `n` wires.
proof fn lemma_wire_lines<W>(wires: Seq<WireSeg<W>>, hover: Hover<W>, n: nat)
    requires
        n <= wires.len(),
    ensures
        wire_lines(wires, hover, n).len() == 2 * n,
        forall|k: int|
            0 <= k < n ==> shows_wire(
                wire_lines(wires, hover, n),
                2 * k,
                #[trigger] wires[k],
                hover,
            ),
    decreases n,
{
    if n > 0 {
        let m = (n - 1) as nat;
        lemma_wire_lines(wires, hover, m);
        let before = wire_lines(wires, hover, m);
        let all = wire_lines(wires, hover, n);
        assert forall|k: int| 0 <= k < n implies shows_wire(
            all,
            2 * k,
            #[trigger] wires[k],
            hover,
        ) by {
            if k < m {
                assert(shows_wire(before, 2 * k, wires[k], hover));
                assert(all[2 * k] == before[2 * k]);
                assert(all[2 * k + 1] == before[2 * k + 1]);
            }
        }
    }
}

/// Every node has its icon, 4.2 mm wide and high, 1 mm right of and below the corner of its box,
/// from the band of its own type: the first entry of that type, or the first band if there is none.
pub proof fn law_every_node_has_its_icon<W>(
    geoms: Seq<NodeGeom<W>>,
    index: Seq<Seq<char>>,
    n: nat,
)
    requires
        n <= geoms.len(),
        index.len() <= usize::MAX,
    ensures
        icons_of(geoms, index, n).len() == 6 * n,
        forall|k: int|
            0 <= k < n ==> shows_icon(
                icons_of(geoms, index, n),
                6 * k,
                #[trigger] geoms[k],
                index,
            ),
    decreases n,
{
    if n > 0 {
        let m = (n - 1) as nat;
        law_every_node_has_its_icon(geoms, index, m);
        let before = icons_of(geoms, index, m);
        let all = icons_of(geoms, index, n);
        let g = geoms[m as int];
        let band = band_of(index, g.ty@);
        let own = icon_vertices(g, band);
        assert forall|k: int| 0 <= k < n implies shows_icon(
            all,
            6 * k,
            #[trigger] geoms[k],
            index,
        ) by {
            if k < m {
                assert(shows_icon(before, 6 * k, geoms[k], index));
                assert forall|j: int| 6 * k <= j < 6 * k + 6 implies #[trigger] all[j]
                    == before[j] by {}
            } else {
                assert forall|j: int| 0 <= j < 6 implies #[trigger] all[6 * k + j] == own[j] by {}
                assert(all[6 * k + 0] == own[0]);
                assert(all[6 * k + 1] == own[1]);
                assert(all[6 * k + 2] == own[2]);
                assert(all[6 * k + 3] == own[3]);
                assert(all[6 * k + 4] == own[4]);
                assert(all[6 * k + 5] == own[5]);
                if index.contains(g.ty@) {
                    index.index_of_first_ensures(g.ty@);
                }
            }
        }
    }
}

/// The six vertices from `start` on are the icon of the node.
pub open spec fn shows_icon<W>(
    vs: Seq<IconVertex<W>>,
    start: int,
    g: NodeGeom<W>,
    index: Seq<Seq<char>>,
) -> bool {
    &&& 0 <= start
    &&& start + 6 <= vs.len()
    &&& forall|j: int|
        start <= j < start + 6 ==> {
            let v = #[trigger] vs[j];
            &&& v.anchor == g.rect.corner
            &&& v.offset.x == if v.right {
                5200int
            } else {
                1000
            }
            &&& v.offset.y == if v.below {
                5200int
            } else {
                1000
            }
            &&& v.band == vs[start].band
        }
    &&& !vs[start].right && !vs[start].below
    &&& vs[start + 1].right && !vs[start + 1].below
    &&& vs[start + 2].right && vs[start + 2].below
    &&& !vs[start + 3].right && !vs[start + 3].below
    &&& vs[start + 4].right && vs[start + 4].below
    &&& !vs[start + 5].right && vs[start + 5].below
    &&& index.contains(g.ty@) ==> vs[start].band < index.len() && index[vs[start].band as int]
        == g.ty@ && forall|j: int| 0 <= j < vs[start].band ==> #[trigger] index[j] != g.ty@
    &&& !index.contains(g.ty@) ==> vs[start].band == 0
}

/// The lesser of two numbers is one of them, and neither is below it.
pub proof fn law_lesser_is_the_minimum(a: u32, b: u32)
    ensures
        lesser(a, b) <= a,
        lesser(a, b) <= b,
        lesser(a, b) == a || lesser(a, b) == b,
{
}

/// A rectangle cut to the surface has exactly those of its columns and rows of pixels that the
/// surface has, and begins nowhere outside of it.
pub proof fn law_cut_keeps_what_the_surface_has(r: PixelRect, width: u32, height: u32)
    ensures
        cut(r, width, height).x <= width,
        cut(r, width, height).y <= height,
        cut(r, width, height).w <= width - cut(r, width, height).x,
        cut(r, width, height).h <= height - cut(r, width, height).y,
        r.x <= width ==> cut(r, width, height).x == r.x,
        r.y <= height ==> cut(r, width, height).y == r.y,
        forall|x: int|
            #![trigger x + r.x]
            cut(r, width, height).x <= x < cut(r, width, height).x + cut(r, width, height).w <==> {
                &&& r.x <= x
                &&& x < r.x + r.w
                &&& x < width
            },
        forall|y: int|
            #![trigger y + r.y]
            cut(r, width, height).y <= y < cut(r, width, height).y + cut(r, width, height).h <==> {
                &&& r.y <= y
                &&& y < r.y + r.h
                &&& y < height
            },
{
}

/// The preferred format is the first of those with sRGB encoding; if none has it, the first of all.
pub proof fn law_first_srgb_format_is_preferred(srgb: Seq<bool>, i: int)
    requires
        is_preferred(srgb, i),
    ensures
        i == 0 || 0 < i < srgb.len(),
        i > 0 ==> srgb[i],
        forall|j: int| 0 <= j < i ==> !#[trigger] srgb[j],
        forall|j: int| 0 <= j < srgb.len() && #[trigger] srgb[j] ==> 0 <= i < srgb.len() && srgb[i],
{
}

} // verus!
