//! The editable patch graph: the ports of nodes, and where nodes and ports are drawn.
//!
//! Lengths are whole micrometers. Points of the world plane are values of a type `W` that the
//! caller chooses and this module only carries: a function that turns a center and an offset into
//! a point comes from the caller. Distances come in as keys, integers that order as the distances
//! do.

use vstd::prelude::*;

use crate::model::{
    audio_output, clone_names, names, InputNames, Inputs, Node, NodeModel, Patch, Registry, Wire,
};
use crate::text::{decimal, decimal_string, same_text};

verus! {

/// Width of a node.
pub const NODE_W_UM: i128 = 28000;

/// Height of the header of a node.
pub const HEADER_H_UM: i128 = 6000;

/// Height of a row of ports.
pub const PORT_ROW_UM: i128 = 5000;

/// Padding below the last row of ports.
pub const PAD_UM: i128 = 2500;

/// Half the side of the square marker of a port.
pub const PORT_R_UM: i128 = 1400;

/// A displacement or an extent in micrometers.
#[derive(Clone, Copy, Debug, PartialEq, Eq, Structural)]
pub struct Microns {
    pub x: i128,
    pub y: i128,
}

/// The box of a node with `rows` rows of ports.
pub open spec fn box_size(rows: nat) -> Microns {
    let shown = if rows < 1 {
        1
    } else {
        rows as int
    };
    Microns { x: NODE_W_UM, y: (HEADER_H_UM + shown * PORT_ROW_UM + PAD_UM) as i128 }
}

/// The box of a node with `rows` rows of ports.
pub fn size_from_rows(rows: usize) -> (r: Microns)
    ensures
        r == box_size(rows as nat),
{
    let shown: i128 = if rows < 1 {
        1
    } else {
        rows as i128
    };
    Microns { x: NODE_W_UM, y: HEADER_H_UM + shown * PORT_ROW_UM + PAD_UM }
}

/// Where the center of a node is: at its position in the layout, or, for a node that has none, at
/// a place that depends on its index only.
#[derive(Clone, Copy, Debug)]
pub enum Center<P> {
    Placed(P),
    Fallback(Microns),
}

/// The staggered place of the `i`-th node of a patch if it has no position.
pub open spec fn fallback_center(i: int) -> Microns {
    Microns {
        x: ((i % 5) * 40000 - 80000) as i128,
        y: ((i / 5) * 40000 - 40000) as i128,
    }
}

/// The box of a node: its top left corner, and its extent.
#[derive(Clone, Copy, Debug)]
pub struct Rect<W> {
    pub corner: W,
    pub size: Microns,
}

/// A port with the point at the center of its marker.
#[derive(Debug)]
pub struct PortGeom<W> {
    pub name: String,
    pub is_output: bool,
    pub pos: W,
}

/// A node as it is drawn.
#[derive(Debug)]
pub struct NodeGeom<W> {
    pub id: String,
    pub ty: String,
    pub known: bool,
    pub rect: Rect<W>,
    pub inputs: Vec<PortGeom<W>>,
    pub outputs: Vec<PortGeom<W>>,
}

/// A reference to a port of a node, produced by hit-testing.
#[derive(Debug)]
pub struct PortRef<W> {
    pub node: String,
    pub port: String,
    pub is_output: bool,
    pub pos: W,
}

impl<W: Copy> PortRef<W> {
    /// A copy of the reference.
    pub fn copied(&self) -> (r: Self)
        ensures
            r == *self,
    {
        PortRef {
            node: self.node.clone(),
            port: self.port.clone(),
            is_output: self.is_output,
            pos: self.pos,
        }
    }
}

/// A wire resolved to the points it is drawn between, with its index in the patch.
#[derive(Clone, Copy, Debug)]
pub struct WireSeg<W> {
    pub index: usize,
    pub a: W,
    pub b: W,
}

/// How far a point is from the center of a port: keys of the horizontal, the vertical and the
/// squared distance.
#[derive(Clone, Copy, Debug)]
pub struct Gap {
    pub dx: u32,
    pub dy: u32,
    pub d2: u32,
}

/// The point is on the square marker that reaches as far as `reach` from its center.
pub open spec fn on_marker(gap: Gap, reach: u32) -> bool {
    gap.dx <= reach && gap.dy <= reach
}

/// The editable patch, with the module types it may use.
pub struct GraphView<P> {
    pub patch: Patch<P>,
    pub registry: Registry,
}

/// The number of channels of the sink: two unless set, and at least one.
pub open spec fn channel_count(channels: Option<i64>) -> int {
    let n = match channels {
        Some(n) => n as int,
        None => 2,
    };
    if n < 1 {
        1
    } else {
        n
    }
}

/// The name of the sink's input for channel `c`.
pub open spec fn channel_name(c: int) -> Seq<char> {
    "ch"@ + decimal(c as nat)
}

/// How many of `wires` lead to input `port` of node `node`.
pub open spec fn wires_into(wires: Seq<Wire>, node: Seq<char>, port: Seq<char>) -> nat {
    wires.filter(|w: Wire| w.to@ == (node, port)).len()
}

/// The names of the inlets of a node: the channels of the sink, the fixed inputs of a module, or
/// for a variadic input one inlet for each wire and a spare one.
pub open spec fn input_names(wires: Seq<Wire>, node: NodeModel) -> Seq<Seq<char>> {
    if node.ty == audio_output() {
        Seq::new(channel_count(node.channels) as nat, |c: int| channel_name(c))
    } else {
        match node.desc {
            None => Seq::empty(),
            Some(d) => match d.inputs {
                InputNames::Fixed(list) => list,
                InputNames::Variadic(port) => Seq::new(
                    wires_into(wires, node.id, port) + 1,
                    |i: int| port,
                ),
            },
        }
    }
}

/// The names of the outputs of a node; the sink has none.
pub open spec fn output_names(node: NodeModel) -> Seq<Seq<char>> {
    if node.ty == audio_output() {
        Seq::empty()
    } else {
        match node.desc {
            None => Seq::empty(),
            Some(d) => d.outputs,
        }
    }
}

/// The type of the node is the sink's or a registered one.
pub open spec fn is_known(node: NodeModel) -> bool {
    node.ty == audio_output() || node.desc is Some
}

/// The number of rows of ports of a node.
pub open spec fn port_rows(wires: Seq<Wire>, node: NodeModel) -> nat {
    let ins = input_names(wires, node).len();
    let outs = output_names(node).len();
    if ins < outs {
        outs
    } else {
        ins
    }
}

/// How many of `wires` lead to input `port` of node `node`.
fn count_wires_into(wires: &Vec<Wire>, node: &str, port: &str) -> (r: usize)
    ensures
        r == wires_into(wires@, node@, port@),
        r <= wires@.len(),
{
    let ghost hit = |w: Wire| w.to@ == (node@, port@);
    let mut count: usize = 0;
    let mut i: usize = 0;
    assert(wires@.take(0) =~= Seq::empty());
    reveal(Seq::filter);
    while i < wires.len()
        invariant
            i <= wires.len(),
            count <= i,
            hit == (|w: Wire| w.to@ == (node@, port@)),
            count == wires@.take(i as int).filter(hit).len(),
        decreases wires.len() - i,
    {
        reveal(Seq::filter);
        assert(wires@.take(i + 1).drop_last() =~= wires@.take(i as int));
        if wires[i].to.is(node, port) {
            count += 1;
        }
        i += 1;
    }
    assert(wires@.take(wires.len() as int) =~= wires@);
    count
}

/// The inputs of the sink.
fn channel_inputs(channels: Option<i64>) -> (r: Vec<String>)
    ensures
        names(r@) == Seq::new(channel_count(channels) as nat, |c: int| channel_name(c)),
{
    let set: i64 = match channels {
        Some(n) => n,
        None => 2,
    };
    let count: u64 = if set < 1 {
        1
    } else {
        set as u64
    };
    let mut r: Vec<String> = Vec::new();
    let mut c: u64 = 0;
    while c < count
        invariant
            c <= count,
            count == channel_count(channels),
            names(r@) == Seq::new(c as nat, |k: int| channel_name(k)),
        decreases count - c,
    {
        let mut name: String = "ch".to_owned();
        let digits = decimal_string(c);
        name = vstd::string::StringExecFns::concat(name, digits.as_str());
        let ghost before = r@;
        r.push(name);
        proof {
            assert(names(r@) =~= names(before).push(channel_name(c as int)));
            assert(names(r@) =~= Seq::new((c + 1) as nat, |k: int| channel_name(k)));
        }
        c += 1;
    }
    r
}

/// `count + 1` times the name of a variadic input.
fn repeated_name(name: &String, count: usize) -> (r: Vec<String>)
    ensures
        names(r@) == Seq::new(count as nat + 1, |i: int| name@),
{
    let mut r: Vec<String> = Vec::new();
    let mut k: usize = 0;
    while k < count
        invariant
            k <= count,
            names(r@) == Seq::new(k as nat, |i: int| name@),
        decreases count - k,
    {
        let ghost before = r@;
        r.push(name.clone());
        assert(names(r@) =~= names(before).push(name@));
        k += 1;
        assert(names(r@) =~= Seq::new(k as nat, |i: int| name@));
    }
    let ghost before = r@;
    r.push(name.clone());
    assert(names(r@) =~= names(before).push(name@));
    assert(names(r@) =~= Seq::new(count as nat + 1, |i: int| name@));
    r
}

impl<P: Copy> GraphView<P> {
    /// No id has two positions.
    pub open spec fn wf(&self) -> bool {
        self.patch.wf()
    }

    /// A view of `patch`.
    pub fn new(patch: Patch<P>, registry: Registry) -> (r: Self)
        ensures
            r.patch == patch,
            r.registry == registry,
    {
        GraphView { patch, registry }
    }

    /// The port names of a node, as `(inputs, outputs, known)`. An unknown type has no ports.
    pub fn node_ports(&self, node: &Node) -> (r: (Vec<String>, Vec<String>, bool))
        ensures
            names(r.0@) == input_names(self.patch.wires@, node@),
            names(r.1@) == output_names(node@),
            r.2 == is_known(node@),
    {
        if same_text(node.ty.as_str(), "audio_output") {
            let outs: Vec<String> = Vec::new();
            assert(names(outs@) =~= Seq::empty());
            return (channel_inputs(node.channels), outs, true);
        }
        match &node.desc {
            None => {
                let ins: Vec<String> = Vec::new();
                let outs: Vec<String> = Vec::new();
                assert(names(ins@) =~= Seq::empty());
                assert(names(outs@) =~= Seq::empty());
                (ins, outs, false)
            },
            Some(d) => {
                let ins = match &d.inputs {
                    Inputs::Fixed(list) => clone_names(list),
                    Inputs::Variadic(port) => {
                        let connected: usize = count_wires_into(
                            &self.patch.wires,
                            node.id.as_str(),
                            port.as_str(),
                        );
                        repeated_name(port, connected)
                    },
                };
                (ins, clone_names(&d.outputs), true)
            },
        }
    }

    /// The number of rows of ports of a node.
    pub fn node_rows(&self, node: &Node) -> (r: usize)
        ensures
            r == port_rows(self.patch.wires@, node@),
    {
        let (ins, outs, _) = self.node_ports(node);
        assert(names(ins@).len() == ins@.len());
        assert(names(outs@).len() == outs@.len());
        if ins.len() < outs.len() {
            outs.len()
        } else {
            ins.len()
        }
    }

    /// The box of a node, from its rows of ports.
    pub fn node_size(&self, node: &Node) -> (r: Microns)
        ensures
            r == box_size(port_rows(self.patch.wires@, node@)),
    {
        size_from_rows(self.node_rows(node))
    }
}

/// Half the box of a node with `rows` rows of ports.
pub open spec fn half_box(rows: nat) -> Microns {
    let size = box_size(rows);
    Microns { x: (size.x / 2) as i128, y: (size.y / 2) as i128 }
}

/// From the center of a node with `rows` rows of ports to the top left corner of its box.
pub open spec fn corner_offset(rows: nat) -> Microns {
    let half = half_box(rows);
    Microns { x: (-half.x) as i128, y: (-half.y) as i128 }
}

/// From the center of a node with `rows` rows of ports to the port in row `row`: on the left edge
/// for an input, on the right edge for an output, in the middle of its row below the header.
pub open spec fn port_offset(rows: nat, row: int, is_output: bool) -> Microns {
    let half = half_box(rows);
    Microns {
        x: if is_output {
            half.x
        } else {
            (-half.x) as i128
        },
        y: (-half.y + HEADER_H_UM + row * PORT_ROW_UM + PORT_ROW_UM / 2) as i128,
    }
}

/// Where the center of the `i`-th node is.
pub open spec fn center_of<P>(patch: Patch<P>, i: int) -> Center<P> {
    let id = patch.nodes@[i].id@;
    if patch.layout@.contains_key(id) {
        Center::Placed(patch.layout@[id])
    } else {
        Center::Fallback(fallback_center(i))
    }
}

/// `ports` are the ports called `list`, each at the point that `at` gives for its offset.
pub open spec fn ports_drawn<P, W, F: Fn(Center<P>, Microns) -> W>(
    at: F,
    center: Center<P>,
    rows: nat,
    list: Seq<Seq<char>>,
    is_output: bool,
    ports: Seq<PortGeom<W>>,
) -> bool {
    &&& ports.len() == list.len()
    &&& forall|k: int|
        0 <= k < ports.len() ==> {
            &&& (#[trigger] ports[k]).name@ == list[k]
            &&& ports[k].is_output == is_output
            &&& at.ensures((center, port_offset(rows, k, is_output)), ports[k].pos)
        }
}

/// `geom` is the `i`-th node of the patch as it is drawn, with points that `at` gives.
pub open spec fn node_drawn<P, W, F: Fn(Center<P>, Microns) -> W>(
    at: F,
    patch: Patch<P>,
    i: int,
    geom: NodeGeom<W>,
) -> bool {
    let node = patch.nodes@[i]@;
    let rows = port_rows(patch.wires@, node);
    let center = center_of(patch, i);
    &&& geom.id@ == node.id
    &&& geom.ty@ == node.ty
    &&& geom.known == is_known(node)
    &&& geom.rect.size == box_size(rows)
    &&& at.ensures((center, corner_offset(rows)), geom.rect.corner)
    &&& ports_drawn(at, center, rows, input_names(patch.wires@, node), false, geom.inputs@)
    &&& ports_drawn(at, center, rows, output_names(node), true, geom.outputs@)
}

/// The ports called `list` of a node with `rows` rows.
fn draw_ports<P: Copy, W, F: Fn(Center<P>, Microns) -> W>(
    at: &F,
    center: Center<P>,
    rows: usize,
    list: &Vec<String>,
    is_output: bool,
) -> (r: Vec<PortGeom<W>>)
    requires
        forall|c: Center<P>, d: Microns| #[trigger] at.requires((c, d)),
    ensures
        ports_drawn(*at, center, rows as nat, names(list@), is_output, r@),
{
    let size = size_from_rows(rows);
    let half = Microns { x: size.x / 2, y: size.y / 2 };
    let x: i128 = if is_output {
        half.x
    } else {
        -half.x
    };
    let mut r: Vec<PortGeom<W>> = Vec::new();
    let mut k: usize = 0;
    while k < list.len()
        invariant
            forall|c: Center<P>, d: Microns| #[trigger] at.requires((c, d)),
            k <= list.len(),
            half == half_box(rows as nat),
            0 <= half.y <= 0x1_0000_0000_0000_0000 * 2501,
            x == if is_output {
                half.x as int
            } else {
                -half.x
            },
            r@.len() == k,
            forall|j: int|
                0 <= j < k ==> {
                    &&& (#[trigger] r@[j]).name@ == names(list@)[j]
                    &&& r@[j].is_output == is_output
                    &&& at.ensures((center, port_offset(rows as nat, j, is_output)), r@[j].pos)
                },
        decreases list.len() - k,
    {
        let y: i128 = -half.y + HEADER_H_UM + (k as i128) * PORT_ROW_UM + PORT_ROW_UM / 2;
        let offset = Microns { x, y };
        assert(offset == port_offset(rows as nat, k as int, is_output));
        let pos = at(center, offset);
        r.push(PortGeom { name: list[k].clone(), is_output, pos });
        k += 1;
    }
    r
}

impl<P: Copy> GraphView<P> {
    /// The geometry of every node, with the points that `at` gives for a center and an offset from
    /// it. Nodes without a position get a staggered place, so that they are at least visible.
    pub fn geoms<W, F: Fn(Center<P>, Microns) -> W>(&self, at: &F) -> (r: Vec<NodeGeom<W>>)
        requires
            self.wf(),
            forall|c: Center<P>, d: Microns| #[trigger] at.requires((c, d)),
        ensures
            r@.len() == self.patch.nodes@.len(),
            forall|i: int|
                0 <= i < r@.len() ==> node_drawn(*at, self.patch, i, #[trigger] r@[i]),
    {
        let mut out: Vec<NodeGeom<W>> = Vec::new();
        let mut i: usize = 0;
        while i < self.patch.nodes.len()
            invariant
                self.wf(),
                forall|c: Center<P>, d: Microns| #[trigger] at.requires((c, d)),
                i <= self.patch.nodes@.len(),
                out@.len() == i,
                forall|j: int| 0 <= j < i ==> node_drawn(*at, self.patch, j, #[trigger] out@[j]),
            decreases self.patch.nodes.len() - i,
        {
            let node = &self.patch.nodes[i];
            let (ins, outs, known) = self.node_ports(node);
            assert(names(ins@).len() == ins@.len());
            assert(names(outs@).len() == outs@.len());
            let rows: usize = if ins.len() < outs.len() {
                outs.len()
            } else {
                ins.len()
            };
            let size = size_from_rows(rows);
            let center = match self.patch.layout.get(node.id.as_str()) {
                Some(p) => Center::Placed(*p),
                None => {
                    let column: i128 = (i % 5) as i128;
                    let row: i128 = (i / 5) as i128;
                    Center::Fallback(
                        Microns { x: column * 40000 - 80000, y: row * 40000 - 40000 },
                    )
                },
            };
            let offset = Microns { x: -(size.x / 2), y: -(size.y / 2) };
            proof {
                assert(center == center_of(self.patch, i as int));
                assert(rows == port_rows(self.patch.wires@, node@));
                assert(offset == corner_offset(rows as nat));
            }
            let corner = at(center, offset);
            let inputs = draw_ports(at, center, rows, &ins, false);
            let outputs = draw_ports(at, center, rows, &outs, true);
            out.push(
                NodeGeom {
                    id: node.id.clone(),
                    ty: node.ty.clone(),
                    known,
                    rect: Rect { corner, size },
                    inputs,
                    outputs,
                },
            );
            i += 1;
        }
        out
    }
}

/// Every port is on the left or right edge of its box, and its marker is between the header and
/// the bottom of the box.
pub proof fn law_ports_fit_their_box(rows: nat, row: int, is_output: bool)
    requires
        rows <= usize::MAX,
        0 <= row < rows,
    ensures
        ({
            let half = half_box(rows);
            let port = port_offset(rows, row, is_output);
            &&& 2 * half.x == box_size(rows).x && 2 * half.y == box_size(rows).y
            &&& port.x == if is_output {
                half.x as int
            } else {
                -half.x
            }
            &&& -half.y + HEADER_H_UM <= port.y - PORT_R_UM
            &&& port.y + PORT_R_UM <= half.y - PAD_UM
        }),
{
}

/// The markers of the ports on one side of a box do not overlap, and stand in order from top to
/// bottom.
pub proof fn law_markers_do_not_overlap(rows: nat, above: int, below: int, is_output: bool)
    requires
        rows <= usize::MAX,
        0 <= above < below < rows,
    ensures
        port_offset(rows, below, is_output).y - port_offset(rows, above, is_output).y > 2
            * PORT_R_UM,
{
}

} // verus!
