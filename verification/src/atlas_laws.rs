//! What the icon atlas shows, pixel by pixel.

use vstd::prelude::*;

use crate::atlas::{atlas_byte, distinct_types, is_lit};
use crate::editor::Editor;
use crate::model::{Icon, Node};

verus! {

/// The types are in the order of the nodes that first have them. The result says which nodes these
/// are.
pub proof fn law_types_are_in_the_order_of_the_nodes(nodes: Seq<Node>) -> (first: Seq<int>)
    ensures
        first.len() == distinct_types(nodes).len(),
        forall|k: int|
            0 <= k < first.len() ==> 0 <= #[trigger] first[k] < nodes.len() && nodes[first[k]].ty@
                == distinct_types(nodes)[k],
        forall|k: int, i: int|
            #![trigger first[k], nodes[i]]
            0 <= k < first.len() && 0 <= i < first[k] ==> nodes[i].ty@ != distinct_types(nodes)[k],
        forall|j: int, k: int|
            0 <= j < k < first.len() ==> #[trigger] first[j] < #[trigger] first[k],
        forall|i: int|
            0 <= i < nodes.len() ==> distinct_types(nodes).contains((#[trigger] nodes[i]).ty@),
    decreases nodes.len(),
{
    if nodes.len() == 0 {
        Seq::empty()
    } else {
        let rest = nodes.drop_last();
        let last = nodes.len() - 1;
        let before = distinct_types(rest);
        let all = distinct_types(nodes);
        let had = law_types_are_in_the_order_of_the_nodes(rest);
        let first = if before.contains(nodes.last().ty@) {
            had
        } else {
            had.push(last)
        };
        assert forall|k: int| 0 <= k < first.len() implies 0 <= #[trigger] first[k] < nodes.len()
            && nodes[first[k]].ty@ == all[k] by {
            if k < had.len() {
                assert(rest[had[k]] == nodes[had[k]]);
            }
        }
        assert forall|k: int, i: int|
            #![trigger first[k], nodes[i]]
            0 <= k < first.len() && 0 <= i < first[k] implies nodes[i].ty@ != all[k] by {
            assert(rest[i] == nodes[i]);
            if k < had.len() {
                assert(had[k] == first[k]);
            } else {
                assert(before.contains(rest[i].ty@));
            }
        }
        assert forall|i: int| 0 <= i < nodes.len() implies all.contains(
            (#[trigger] nodes[i]).ty@,
        ) by {
            if i < last {
                assert(rest[i] == nodes[i]);
            }
            if before.contains(nodes[i].ty@) {
                let k = choose|k: int| 0 <= k < before.len() && before[k] == nodes[i].ty@;
                assert(all[k] == nodes[i].ty@);
            } else {
                assert(all[before.len() as int] == nodes[i].ty@);
            }
        }
        first
    }
}

/// The editor has the icon of every type that a node has, next to the type.
pub proof fn law_every_type_has_its_icon<P: Copy, W: Copy, S>(editor: Editor<P, W, S>, i: int) -> (k:
    int)
    requires
        editor.has_atlas(),
        0 <= i < editor.view.patch.nodes@.len(),
    ensures
        editor.icons@.len() == editor.icon_index.types@.len(),
        0 <= k < editor.icons@.len(),
        editor.icon_index.types@[k]@ == editor.view.patch.nodes@[i].ty@,
        editor.icons@[k] == editor.view.registry.icon_of(editor.view.patch.nodes@[i].ty@),
        forall|j: int|
            0 <= j < editor.icons@.len() && j != k ==> (
            #[trigger] editor.icon_index.types@[j])@ != editor.view.patch.nodes@[i].ty@,
{
    let nodes = editor.view.patch.nodes@;
    let types = distinct_types(nodes);
    law_types_are_in_the_order_of_the_nodes(nodes);
    crate::atlas::law_atlas_lists_each_type_once(nodes);
    assert(types.contains(nodes[i].ty@));
    let k = choose|k: int| 0 <= k < types.len() && types[k] == nodes[i].ty@;
    assert(editor.icon_index@[k] == editor.icon_index.types@[k]@);
    assert forall|j: int| 0 <= j < editor.icons@.len() && j != k implies (
    #[trigger] editor.icon_index.types@[j])@ != nodes[i].ty@ by {
        assert(editor.icon_index@[j] == editor.icon_index.types@[j]@);
        assert(types[j] != types[k]);
    }
    k
}

/// The leftmost pixel of a row is its highest bit, and each further one the next lower bit.
pub proof fn law_pixels_are_bits_from_the_highest_on(bits: u32, x: u32)
    requires
        x < 32,
    ensures
        is_lit(bits, x as int) == (bits & (0x8000_0000u32 >> x) != 0),
        is_lit(bits, 0) == (bits >= 0x8000_0000),
        is_lit(bits, 31) == (bits % 2 == 1),
{
    let by = (31 - x) as u32;
    assert(((bits >> by) & 1 == 1) == (bits & (0x8000_0000u32 >> x) != 0)) by (bit_vector)
        requires
            x < 32,
            by == 31 - x,
    ;
    assert(((bits >> 31u32) & 1 == 1) == (bits >= 0x8000_0000)) by (bit_vector);
    assert(((bits >> 0u32) & 1 == 1) == (bits % 2 == 1)) by (bit_vector);
}

/// In the atlas row `row` of icon `k` is row `32 * k + row` of the image: its lit pixels are full
/// and its others empty, and right of them all is empty.
pub proof fn law_atlas_shows_the_icons_below_each_other(
    icons: Seq<Icon>,
    k: int,
    row: int,
    x: u32,
)
    requires
        0 <= k < icons.len(),
        0 <= row < 32,
    ensures
        x < 32 && icons[k]@[row] & (0x8000_0000u32 >> x) != 0 ==> atlas_byte(
            icons,
            32 * k + row,
            x as int,
        ) == 255,
        !(x < 32 && icons[k]@[row] & (0x8000_0000u32 >> x) != 0) ==> atlas_byte(
            icons,
            32 * k + row,
            x as int,
        ) == 0,
{
    let y = 32 * k + row;
    assert(y / 32 == k && y % 32 == row);
    if x < 32 {
        law_pixels_are_bits_from_the_highest_on(icons[k]@[row], x);
    }
}

} // verus!
