//! What a drawn node looks like, in terms of the node itself.

use vstd::prelude::*;

use crate::graph::{
    box_size, input_names, is_known, node_drawn, output_names, port_rows, Center, Microns,
    NodeGeom, PortGeom,
};
use crate::model::{Inputs, Node, Patch, Wire};

verus! {

/// A filter keeps as many items as there are places that it accepts.
pub proof fn lemma_filter_counts<T>(s: Seq<T>, keep: spec_fn(T) -> bool)
    ensures
        Set::new(|j: int| 0 <= j < s.len() && keep(s[j])).finite(),
        s.filter(keep).len() == Set::new(|j: int| 0 <= j < s.len() && keep(s[j])).len(),
    decreases s.len(),
{
    reveal(Seq::filter);
    let places = Set::new(|j: int| 0 <= j < s.len() && keep(s[j]));
    if s.len() == 0 {
        assert(places =~= Set::empty());
    } else {
        let rest = s.drop_last();
        let before = Set::new(|j: int| 0 <= j < rest.len() && keep(rest[j]));
        lemma_filter_counts(rest, keep);
        let last = s.len() - 1;
        if keep(s.last()) {
            assert(places =~= before.insert(last));
            assert(!before.contains(last));
        } else {
            assert(places =~= before);
        }
    }
}

/// What is shown of a node's ports: for the sink an input for each channel, two unless set and at
/// least one; for any other known type all outputs of its descriptor, and all its fixed inputs, or
/// as many inlets of its variadic input as wires lead to it and one more; for an unknown type
/// nothing.
pub proof fn law_ports_are_those_of_the_descriptor(wires: Seq<Wire>, node: Node)
    ensures
        is_known(node@) == (node.ty@ == "audio_output"@ || node.desc is Some),
        node.ty@ == "audio_output"@ ==> {
            &&& output_names(node@).len() == 0
            &&& node.channels is None ==> input_names(wires, node@).len() == 2
            &&& node.channels matches Some(n) ==> input_names(wires, node@).len() == if n >= 1 {
                n as int
            } else {
                1
            }
            &&& forall|c: int|
                0 <= c < input_names(wires, node@).len() ==> #[trigger] input_names(
                    wires,
                    node@,
                )[c] == "ch"@ + crate::text::decimal(c as nat)
        },
        node.ty@ != "audio_output"@ && node.desc is None ==> {
            &&& output_names(node@).len() == 0
            &&& input_names(wires, node@).len() == 0
        },
        node.ty@ != "audio_output"@ ==> (node.desc matches Some(d) ==> {
            &&& output_names(node@).len() == d.outputs@.len()
            &&& forall|k: int|
                0 <= k < d.outputs@.len() ==> #[trigger] output_names(node@)[k] == d.outputs@[k]@
            &&& match d.inputs {
                Inputs::Fixed(list) => {
                    &&& input_names(wires, node@).len() == list@.len()
                    &&& forall|k: int|
                        0 <= k < list@.len() ==> #[trigger] input_names(wires, node@)[k]
                            == list@[k]@
                },
                Inputs::Variadic(port) => {
                    &&& input_names(wires, node@).len() == Set::new(
                        |j: int|
                            0 <= j < wires.len() && wires[j].to.0@ == node.id@ && wires[j].to.1@
                                == port@,
                    ).len() + 1
                    &&& forall|k: int|
                        0 <= k < input_names(wires, node@).len() ==> #[trigger] input_names(
                            wires,
                            node@,
                        )[k] == port@
                },
            }
        }),
{
    if node.ty@ != "audio_output"@ {
        if let Some(d) = node.desc {
            if let Inputs::Variadic(port) = d.inputs {
                let into = |w: Wire| w.to@ == (node@.id, port@);
                lemma_filter_counts(wires, into);
                assert(Set::new(|j: int| 0 <= j < wires.len() && into(wires[j])) =~= Set::new(
                    |j: int|
                        0 <= j < wires.len() && wires[j].to.0@ == node.id@ && wires[j].to.1@
                            == port@,
                ));
            }
        }
    }
}

/// A box is 28 mm wide, and as high as its header, its rows of ports, of which there is at least
/// one, and its padding.
pub proof fn law_box_holds_its_rows(rows: nat)
    requires
        rows <= usize::MAX,
    ensures
        box_size(rows).x == 28000,
        rows == 0 ==> box_size(rows).y == 13500,
        rows > 0 ==> box_size(rows).y == 6000 + 5000 * rows + 2500,
{
}

/// The `k`-th port of one side is at the `k`-th row of the box, on its own edge, and is shown under
/// its own name.
pub open spec fn port_in_place<P, W, F: Fn(Center<P>, Microns) -> W>(
    at: F,
    center: Center<P>,
    high: int,
    port: PortGeom<W>,
    k: int,
    is_output: bool,
) -> bool {
    &&& port.is_output == is_output
    &&& exists|d: Microns|
        {
            &&& #[trigger] at.ensures((center, d), port.pos)
            &&& d.x == if is_output {
                14000int
            } else {
                -14000
            }
            &&& d.y + d.y == 2 * (6000 + 5000 * k) + 5000 - high
        }
}

/// A node is drawn around its position in the layout, or around a place on a grid of five columns
/// if it has none. Its box is centered there and has room for all its ports; each port is in its
/// own row, inputs on the left edge and outputs on the right.
pub proof fn law_node_is_drawn_with_its_ports<P, W, F: Fn(Center<P>, Microns) -> W>(
    at: F,
    patch: Patch<P>,
    i: int,
    geom: NodeGeom<W>,
) -> (center: Center<P>)
    requires
        0 <= i < patch.nodes@.len(),
        node_drawn(at, patch, i, geom),
    ensures
        geom.id@ == patch.nodes@[i].id@,
        geom.ty@ == patch.nodes@[i].ty@,
        geom.known == (patch.nodes@[i].ty@ == "audio_output"@ || patch.nodes@[i].desc is Some),
        patch.layout@.contains_key(geom.id@) ==> center == Center::<P>::Placed(
            patch.layout@[geom.id@],
        ),
        !patch.layout@.contains_key(geom.id@) ==> {
            &&& center matches Center::Fallback(m)
            &&& i < 0x1_0000_0000_0000_0000_0000 ==> m.x == (i % 5) * 40000 - 80000 && m.y == (i
                / 5) * 40000 - 40000
        },
        geom.rect.size.x == 28000,
        geom.rect.size.y == 8500 + 5000 * if geom.inputs@.len() == 0 && geom.outputs@.len() == 0 {
            1int
        } else if geom.inputs@.len() >= geom.outputs@.len() {
            geom.inputs@.len() as int
        } else {
            geom.outputs@.len() as int
        },
        exists|d: Microns| #[trigger]
            at.ensures((center, d), geom.rect.corner) && d.x == -14000 && 2 * d.y
                == -geom.rect.size.y,
        geom.inputs@.len() == input_names(patch.wires@, patch.nodes@[i]@).len(),
        forall|k: int|
            0 <= k < geom.inputs@.len() ==> (#[trigger] geom.inputs@[k]).name@ == input_names(
                patch.wires@,
                patch.nodes@[i]@,
            )[k] && port_in_place(
                at,
                center,
                geom.rect.size.y as int,
                geom.inputs@[k],
                k,
                false,
            ),
        geom.outputs@.len() == output_names(patch.nodes@[i]@).len(),
        forall|k: int|
            0 <= k < geom.outputs@.len() ==> (#[trigger] geom.outputs@[k]).name@ == output_names(
                patch.nodes@[i]@,
            )[k] && port_in_place(
                at,
                center,
                geom.rect.size.y as int,
                geom.outputs@[k],
                k,
                true,
            ),
{
    let rows = port_rows(patch.wires@, patch.nodes@[i]@);
    let center = crate::graph::center_of(patch, i);
    assert(geom.inputs@.len() == geom.inputs.len());
    assert(geom.outputs@.len() == geom.outputs.len());
    assert(rows <= usize::MAX);
    assert(at.ensures((center, crate::graph::corner_offset(rows)), geom.rect.corner));
    assert forall|k: int| 0 <= k < geom.inputs@.len() implies port_in_place(
        at,
        center,
        geom.rect.size.y as int,
        #[trigger] geom.inputs@[k],
        k,
        false,
    ) by {
        let d = crate::graph::port_offset(rows, k, false);
        assert(k < rows);
        assert(at.ensures((center, d), geom.inputs@[k].pos));
    }
    assert forall|k: int| 0 <= k < geom.outputs@.len() implies port_in_place(
        at,
        center,
        geom.rect.size.y as int,
        #[trigger] geom.outputs@[k],
        k,
        true,
    ) by {
        let d = crate::graph::port_offset(rows, k, true);
        assert(k < rows);
        assert(at.ensures((center, d), geom.outputs@[k].pos));
    }
    center
}

/// Every output of a module is drawn under its own name, whatever kind of inputs the module has.
pub proof fn law_every_output_is_drawn<P, W, F: Fn(Center<P>, Microns) -> W>(
    at: F,
    patch: Patch<P>,
    i: int,
    geom: NodeGeom<W>,
)
    requires
        0 <= i < patch.nodes@.len(),
        node_drawn(at, patch, i, geom),
        patch.nodes@[i].ty@ != "audio_output"@,
        patch.nodes@[i].desc is Some,
    ensures
        geom.outputs@.len() == (patch.nodes@[i].desc->0).outputs@.len(),
        forall|k: int|
            0 <= k < geom.outputs@.len() ==> (#[trigger] geom.outputs@[k]).name@ == (
            patch.nodes@[i].desc->0).outputs@[k]@ && geom.outputs@[k].is_output,
{
    law_ports_are_those_of_the_descriptor(patch.wires@, patch.nodes@[i]);
    law_node_is_drawn_with_its_ports(at, patch, i, geom);
}

/// Every fixed input of a module is drawn under its own name; a variadic input is drawn once for
/// each wire that leads to it and once more; the sink has an input for each channel.
pub proof fn law_every_input_is_drawn<P, W, F: Fn(Center<P>, Microns) -> W>(
    at: F,
    patch: Patch<P>,
    i: int,
    geom: NodeGeom<W>,
)
    requires
        0 <= i < patch.nodes@.len(),
        node_drawn(at, patch, i, geom),
    ensures
        forall|k: int| 0 <= k < geom.inputs@.len() ==> !(#[trigger] geom.inputs@[k]).is_output,
        patch.nodes@[i].ty@ == "audio_output"@ ==> {
            &&& patch.nodes@[i].channels is None ==> geom.inputs@.len() == 2
            &&& patch.nodes@[i].channels matches Some(n) ==> geom.inputs@.len() == if n >= 1 {
                n as int
            } else {
                1
            }
            &&& forall|c: int|
                0 <= c < geom.inputs@.len() ==> (#[trigger] geom.inputs@[c]).name@ == "ch"@
                    + crate::text::decimal(c as nat)
        },
        patch.nodes@[i].ty@ != "audio_output"@ ==> (patch.nodes@[i].desc matches Some(d)
            ==> match d.inputs {
            Inputs::Fixed(list) => {
                &&& geom.inputs@.len() == list@.len()
                &&& forall|k: int|
                    0 <= k < list@.len() ==> (#[trigger] geom.inputs@[k]).name@ == list@[k]@
            },
            Inputs::Variadic(port) => {
                &&& geom.inputs@.len() == Set::new(
                    |j: int|
                        0 <= j < patch.wires@.len() && patch.wires@[j].to.0@ == patch.nodes@[i].id@
                            && patch.wires@[j].to.1@ == port@,
                ).len() + 1
                &&& forall|k: int|
                    0 <= k < geom.inputs@.len() ==> (#[trigger] geom.inputs@[k]).name@ == port@
            },
        }),
{
    law_ports_are_those_of_the_descriptor(patch.wires@, patch.nodes@[i]);
    law_node_is_drawn_with_its_ports(at, patch, i, geom);
}

/// A node has as many rows as the longer of its two sides has ports.
pub proof fn law_rows_fit_both_sides(wires: Seq<Wire>, node: Node)
    ensures
        port_rows(wires, node@) >= input_names(wires, node@).len(),
        port_rows(wires, node@) >= output_names(node@).len(),
        port_rows(wires, node@) == input_names(wires, node@).len() || port_rows(wires, node@)
            == output_names(node@).len(),
{
}

} // verus!
