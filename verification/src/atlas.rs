//! Icons: which ones a patch needs, and the image that holds them all.

use vstd::prelude::*;

use crate::graph::GraphView;
use crate::model::{names, Icon, Node};
use crate::text::same_text;

verus! {

/// Width and height of an icon in pixels.
pub const ICON_PX: usize = 32;

/// Bytes from one row of the atlas image to the next; texture uploads need a multiple of 256.
pub const ATLAS_STRIDE: usize = 256;

/// Gray level of the lit pixels of an icon on the palette; the others are transparent.
pub const ICON_GRAY: u8 = 225;

/// The types of the nodes, each once, in the order in which they first occur.
pub open spec fn distinct_types(nodes: Seq<Node>) -> Seq<Seq<char>>
    decreases nodes.len(),
{
    if nodes.len() == 0 {
        Seq::empty()
    } else {
        let before = distinct_types(nodes.drop_last());
        if before.contains(nodes.last().ty@) {
            before
        } else {
            before.push(nodes.last().ty@)
        }
    }
}

/// Where the icon of each type is in the atlas.
#[derive(Debug)]
pub struct IconIndex {
    pub types: Vec<String>,
}

impl View for IconIndex {
    type V = Seq<Seq<char>>;

    open spec fn view(&self) -> Seq<Seq<char>> {
        names(self.types@)
    }
}

impl IconIndex {
    /// Where the icon of type `ty` is.
    pub fn get(&self, ty: &str) -> (r: Option<usize>)
        ensures
            match r {
                Some(k) => {
                    &&& k < self@.len()
                    &&& self@[k as int] == ty@
                    &&& forall|j: int| 0 <= j < k ==> #[trigger] self@[j] != ty@
                },
                None => !self@.contains(ty@),
            },
    {
        let mut k: usize = 0;
        while k < self.types.len()
            invariant
                k <= self.types@.len(),
                forall|j: int| 0 <= j < k ==> #[trigger] self@[j] != ty@,
            decreases self.types.len() - k,
        {
            if same_text(self.types[k].as_str(), ty) {
                assert(self@[k as int] == ty@);
                return Some(k);
            }
            k += 1;
        }
        None
    }
}

impl<P: Copy> GraphView<P> {
    /// The icons of the types of the nodes, each type once, and where the icon of each type is.
    pub fn icon_atlas(&self) -> (r: (Vec<Icon>, IconIndex))
        ensures
            r.1@ == distinct_types(self.patch.nodes@),
            r.0@ == r.1@.map_values(|ty: Seq<char>| self.registry.icon_of(ty)),
    {
        let mut list: Vec<Icon> = Vec::new();
        let mut index = IconIndex { types: Vec::new() };
        let ghost icon = |ty: Seq<char>| self.registry.icon_of(ty);
        let ghost nodes = self.patch.nodes@;
        let mut i: usize = 0;
        proof {
            assert(nodes.take(0) =~= Seq::empty());
            assert(index@ =~= Seq::empty());
            assert(list@ =~= index@.map_values(icon));
        }
        while i < self.patch.nodes.len()
            invariant
                nodes == self.patch.nodes@,
                i <= nodes.len(),
                icon == (|ty: Seq<char>| self.registry.icon_of(ty)),
                index@ == distinct_types(nodes.take(i as int)),
                list@ == index@.map_values(icon),
            decreases self.patch.nodes.len() - i,
        {
            let ty = self.patch.nodes[i].ty.as_str();
            proof {
                assert(nodes.take(i + 1).drop_last() =~= nodes.take(i as int));
                assert(nodes.take(i + 1).last() == nodes[i as int]);
            }
            let found = index.get(ty);
            proof {
                if let Some(k) = found {
                    assert(index@.contains(ty@));
                }
            }
            if found.is_none() {
                let ghost before = index@;
                list.push(self.registry.icon_for(ty));
                index.types.push(ty.to_owned());
                proof {
                    assert(index@ =~= before.push(ty@));
                    assert(list@ =~= index@.map_values(icon));
                }
            }
            i += 1;
        }
        assert(nodes.take(i as int) =~= nodes);
        (list, index)
    }
}

/// Every type of node is listed, and none twice.
pub proof fn law_atlas_lists_each_type_once(nodes: Seq<Node>)
    ensures
        distinct_types(nodes).no_duplicates(),
        forall|ty: Seq<char>| #[trigger]
            distinct_types(nodes).contains(ty) <==> exists|i: int|
                0 <= i < nodes.len() && (#[trigger] nodes[i]).ty@ == ty,
    decreases nodes.len(),
{
    if nodes.len() > 0 {
        let rest = nodes.drop_last();
        let before = distinct_types(rest);
        let all = distinct_types(nodes);
        let last = nodes.last().ty@;
        law_atlas_lists_each_type_once(rest);
        assert forall|ty: Seq<char>| #[trigger] all.contains(ty) <==> exists|i: int|
            0 <= i < nodes.len() && (#[trigger] nodes[i]).ty@ == ty by {
            if all.contains(ty) {
                if before.contains(ty) {
                    let i = choose|i: int| 0 <= i < rest.len() && (#[trigger] rest[i]).ty@ == ty;
                    assert(nodes[i].ty@ == ty);
                } else {
                    let k = choose|k: int| 0 <= k < all.len() && all[k] == ty;
                    assert(k == before.len()) by {
                        if k < before.len() {
                            assert(before[k] == ty);
                        }
                    }
                    assert(nodes[nodes.len() - 1].ty@ == ty);
                }
            }
            if exists|i: int| 0 <= i < nodes.len() && (#[trigger] nodes[i]).ty@ == ty {
                let i = choose|i: int| 0 <= i < nodes.len() && (#[trigger] nodes[i]).ty@ == ty;
                if i < rest.len() {
                    assert(rest[i].ty@ == ty);
                    assert(before.contains(ty));
                    let k = choose|k: int| 0 <= k < before.len() && before[k] == ty;
                    assert(all[k] == ty);
                } else if !before.contains(ty) {
                    assert(all[before.len() as int] == ty);
                }
            }
        }
    }
}

/// The pixel in column `x` of a row is lit; the leftmost pixel is the highest bit.
pub open spec fn is_lit(bits: u32, x: int) -> bool {
    (bits >> ((31 - x) as u32)) & 1 == 1
}

/// Whether the pixel in column `x` of a row is lit.
fn pixel_lit(bits: u32, x: usize) -> (r: bool)
    requires
        x < 32,
    ensures
        r == is_lit(bits, x as int),
{
    let by: u32 = 31 - x as u32;
    (bits >> by) & 1 == 1
}

/// The pixels of an icon row by row: whether each is lit.
pub fn icon_pixels(icon: &Icon) -> (r: Vec<bool>)
    ensures
        r@.len() == 1024,
        forall|row: int, x: int|
            0 <= row < 32 && 0 <= x < 32 ==> #[trigger] r@[row * 32 + x] == is_lit(
                icon@[row],
                x,
            ),
{
    let mut r: Vec<bool> = Vec::new();
    let mut i: usize = 0;
    while i < 1024
        invariant
            i <= 1024,
            r@.len() == i,
            forall|j: int| 0 <= j < i ==> #[trigger] r@[j] == is_lit(icon@[j / 32], j % 32),
        decreases 1024 - i,
    {
        let row: usize = i / 32;
        let x: usize = i % 32;
        r.push(pixel_lit(icon[row], x));
        i += 1;
    }
    assert forall|row: int, x: int| 0 <= row < 32 && 0 <= x < 32 implies #[trigger] r@[row * 32 + x]
        == is_lit(icon@[row], x) by {
        let j = row * 32 + x;
        assert(j / 32 == row && j % 32 == x);
        assert(0 <= j < 1024);
    }
    r
}

/// The byte of the atlas image in column `x` of row `y`: the icons stand one below the other, at
/// the left; lit pixels are full, all else is empty.
pub open spec fn atlas_byte(icons: Seq<Icon>, y: int, x: int) -> u8 {
    if x < 32 && is_lit(icons[y / 32]@[y % 32], x) {
        255
    } else {
        0
    }
}

/// The atlas image: one byte per pixel, 256 bytes per row, 32 rows per icon.
pub fn atlas_image(icons: &Vec<Icon>) -> (r: Vec<u8>)
    requires
        icons@.len() * 8192 <= usize::MAX,
    ensures
        r@.len() == icons@.len() * 8192,
        forall|i: int|
            0 <= i < r@.len() ==> #[trigger] r@[i] == atlas_byte(icons@, i / 256, i % 256),
{
    let total: usize = icons.len() * 8192;
    let mut r: Vec<u8> = Vec::new();
    let mut i: usize = 0;
    while i < total
        invariant
            i <= total,
            total == icons@.len() * 8192,
            r@.len() == i,
            forall|j: int|
                0 <= j < i ==> #[trigger] r@[j] == atlas_byte(icons@, j / 256, j % 256),
        decreases total - i,
    {
        let y: usize = i / ATLAS_STRIDE;
        let x: usize = i % ATLAS_STRIDE;
        let band: usize = y / ICON_PX;
        let row: usize = y % ICON_PX;
        assert(band < icons@.len());
        r.push(
            if x < 32 && pixel_lit(icons[band][row], x) {
                255
            } else {
                0
            },
        );
        i += 1;
    }
    r
}

} // verus!
