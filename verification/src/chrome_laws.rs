//! What the chrome shows and how the dock is arranged, spelled out.

use vstd::prelude::*;

use crate::chrome::{
    hover_words, is_palette, status_parts, was_rescued, was_tabbed, Chrome,
};
use crate::dock::{
    are_loose, are_wrapped, face, face_at, found_in_tabs, has_child, is_canvas_tree,
    is_default_tree, is_panel, is_parent, is_tabbed, panels_tabbed, parent_is_tabs, tree_name,
    tree_root, tree_tiles, DockTile, Kind, Pane,
};
use crate::edit::node_with_id;
use crate::editor::Hover;
use crate::model::{Node, Patch, Registry};
use crate::text::{comes_before, decimal};

use egui_tiles::Tree;

verus! {

/// A numeral has only the digits from `0` to `9`, none of them a leading zero but in the numeral
/// of zero, and its last digit and those before it are the remainder and the numeral of the tenth
/// part.
pub proof fn law_numerals_are_decimal(n: nat)
    ensures
        decimal(n).len() > 0,
        forall|k: int|
            0 <= k < decimal(n).len() ==> '0' as int <= #[trigger] decimal(n)[k] as int <= '9' as int,
        n > 0 ==> decimal(n)[0] != '0',
        n < 10 ==> decimal(n).len() == 1,
        decimal(n).last() as int == '0' as int + n % 10,
        n >= 10 ==> decimal(n).drop_last() == decimal(n / 10),
    decreases n,
{
    if n >= 10 {
        law_numerals_are_decimal(n / 10);
        let s = decimal(n);
        let t = decimal(n / 10);
        assert(s.drop_last() =~= t);
        assert forall|k: int| 0 <= k < s.len() implies '0' as int <= #[trigger] s[k] as int
            <= '9' as int by {
            if k < t.len() {
                assert(s[k] == t[k]);
            }
        }
        assert(s[0] == t[0]);
    }
}

/// The strings are the same up to place `k`, where the first ends or has the lesser character.
pub open spec fn is_lesser_at(a: Seq<char>, b: Seq<char>, k: int) -> bool {
    &&& 0 <= k <= a.len()
    &&& k < b.len()
    &&& forall|j: int| 0 <= j < k ==> #[trigger] a[j] == b[j]
    &&& k < a.len() ==> (a[k] as int) < (b[k] as int)
}

/// A string comes before another exactly if it is lesser at the first place where they differ.
pub proof fn law_strings_are_ordered_by_their_first_difference(a: Seq<char>, b: Seq<char>)
    ensures
        comes_before(a, b) <==> exists|k: int| is_lesser_at(a, b, k),
    decreases a.len(),
{
    if a.len() > 0 && b.len() > 0 && a[0] == b[0] {
        let (x, y) = (a.drop_first(), b.drop_first());
        law_strings_are_ordered_by_their_first_difference(x, y);
        if comes_before(x, y) {
            let k = choose|k: int| is_lesser_at(x, y, k);
            assert forall|j: int| 0 <= j < k + 1 implies #[trigger] a[j] == b[j] by {
                if j > 0 {
                    assert(x[j - 1] == y[j - 1]);
                }
            }
            assert(is_lesser_at(a, b, k + 1));
        }
        if exists|k: int| is_lesser_at(a, b, k) {
            let k = choose|k: int| is_lesser_at(a, b, k);
            assert(k > 0);
            assert forall|j: int| 0 <= j < k - 1 implies #[trigger] x[j] == y[j] by {
                assert(a[j + 1] == b[j + 1]);
            }
            assert(is_lesser_at(x, y, k - 1));
        }
    } else if b.len() > 0 {
        if a.len() == 0 || (a[0] as int) < (b[0] as int) {
            assert(is_lesser_at(a, b, 0));
        } else {
            assert forall|k: int| !is_lesser_at(a, b, k) by {
                if is_lesser_at(a, b, k) && k > 0 {
                    assert(a[0] == b[0]);
                }
            }
        }
    }
}

/// The palette has every registered module and source and the output, has nothing else, has none
/// twice, and is in the order of strings.
pub proof fn law_palette_lists_what_can_be_placed(registry: Registry, list: Seq<Seq<char>>)
    requires
        is_palette(registry, list),
    ensures
        forall|i: int|
            0 <= i < registry.modules@.len() ==> list.contains(
                (#[trigger] registry.modules@[i]).type_id@,
            ),
        forall|i: int|
            0 <= i < registry.sources@.len() ==> list.contains(
                (#[trigger] registry.sources@[i]).type_id@,
            ),
        list.contains("audio_output"@),
        forall|s: Seq<char>| #[trigger]
            list.contains(s) ==> s == "audio_output"@ || (exists|i: int|
                0 <= i < registry.modules@.len() && (#[trigger] registry.modules@[i]).type_id@ == s)
                || (exists|i: int|
                0 <= i < registry.sources@.len() && (#[trigger] registry.sources@[i]).type_id@
                    == s),
        forall|i: int, j: int|
            0 <= i < j < list.len() ==> #[trigger] list[i] != #[trigger] list[j] && exists|k: int|
                is_lesser_at(list[i], list[j], k),
{
    assert forall|i: int, j: int| 0 <= i < j < list.len() implies #[trigger] list[i]
        != #[trigger] list[j] && exists|k: int| is_lesser_at(list[i], list[j], k) by {
        assert(comes_before(list[i], list[j]));
        crate::text::lemma_one_comes_before(list[i], list[j]);
        law_strings_are_ordered_by_their_first_difference(list[i], list[j]);
    }
}

/// The status bar begins with whether the sound plays and ends with what is hovered, if anything
/// is; the number of nodes stands before that; and the status stands in between exactly if it says
/// something else.
pub proof fn law_status_bar_says_it_all(
    playing: bool,
    status: Seq<char>,
    nodes: nat,
    hover: Option<Seq<char>>,
)
    ensures
        ({
            let parts = status_parts(playing, status, nodes, hover);
            let more = status != ""@ && status != "playing"@ && status != "stopped"@;
            let at: int = if more {
                2
            } else {
                1
            };
            &&& parts.len() == at + 1 + if hover is Some {
                1int
            } else {
                0
            }
            &&& playing ==> parts[0] == "playing"@
            &&& !playing ==> parts[0] == "stopped"@
            &&& more ==> parts[1] == status
            &&& parts[at] == decimal(nodes) + " nodes"@
            &&& hover is Some ==> parts[at + 1] == hover->0
        }),
{
}

/// What is hovered in words: of a node its id and type, if it is there; of a port its side, its
/// node and its name; of a wire, if it is there, both its ends; and nothing where nothing is.
pub proof fn law_hover_is_put_in_words<P, W>(patch: Patch<P>, hover: Hover<W>)
    ensures
        hover is Nothing ==> hover_words(patch, hover) is None,
        hover matches Hover::Port(p) ==> {
            &&& p.is_output ==> hover_words(patch, hover) == Some(
                "output"@ + "  "@ + p.node@ + "."@ + p.port@,
            )
            &&& !p.is_output ==> hover_words(patch, hover) == Some(
                "input"@ + "  "@ + p.node@ + "."@ + p.port@,
            )
        },
        hover matches Hover::Wire(i) ==> {
            &&& i >= patch.wires@.len() ==> hover_words(patch, hover) is None
            &&& i < patch.wires@.len() ==> {
                let w = patch.wires@[i as int];
                hover_words(patch, hover) == Some(
                    "wire  "@ + w.from.0@ + "."@ + w.from.1@ + " -> "@ + w.to.0@ + "."@ + w.to.1@,
                )
            }
        },
        hover matches Hover::Node(id) ==> {
            &&& hover_words(patch, hover) is None ==> forall|j: int|
                0 <= j < patch.nodes@.len() ==> (#[trigger] patch.nodes@[j]).id@ != id@
            &&& hover_words(patch, hover) is Some ==> exists|j: int|
                {
                    &&& 0 <= j < patch.nodes@.len()
                    &&& (#[trigger] patch.nodes@[j]).id@ == id@
                    &&& hover_words(patch, hover) == Some(
                        "node  "@ + id@ + "  ("@ + patch.nodes@[j].ty@ + ")"@,
                    )
                    &&& forall|i: int| 0 <= i < j ==> (#[trigger] patch.nodes@[i]).id@ != id@
                }
        },
{
    if let Hover::Node(id) = hover {
        lemma_first_node(patch.nodes@, id@);
    }
}

/// The node found by its id is the first one that has it.
proof fn lemma_first_node(nodes: Seq<Node>, id: Seq<char>)
    ensures
        node_with_id(nodes, id) is None ==> forall|j: int|
            0 <= j < nodes.len() ==> (#[trigger] nodes[j]).id@ != id,
        node_with_id(nodes, id) matches Some(n) ==> n.id == id && exists|j: int|
            {
                &&& 0 <= j < nodes.len()
                &&& (#[trigger] nodes[j]).id@ == id
                &&& n.ty == nodes[j].ty@
                &&& forall|i: int| 0 <= i < j ==> (#[trigger] nodes[i]).id@ != id
            },
    decreases nodes.len(),
{
    if nodes.len() > 0 {
        if nodes[0].id@ == id {
            assert(nodes[0].id@ == id && nodes[0]@.ty == nodes[0].ty@);
        } else {
            let rest = nodes.drop_first();
            lemma_first_node(rest, id);
            if node_with_id(nodes, id) is Some {
                let n = node_with_id(nodes, id)->0;
                let j = choose|j: int|
                    {
                        &&& 0 <= j < rest.len()
                        &&& (#[trigger] rest[j]).id@ == id
                        &&& n.ty == rest[j].ty@
                        &&& forall|i: int| 0 <= i < j ==> (#[trigger] rest[i]).id@ != id
                    };
                assert(nodes[j + 1] == rest[j]);
                assert forall|i: int| 0 <= i < j + 1 implies (#[trigger] nodes[i]).id@ != id by {
                    if i > 0 {
                        assert(nodes[i] == rest[i - 1]);
                    }
                }
            } else {
                assert forall|j: int| 0 <= j < nodes.len() implies (
                #[trigger] nodes[j]).id@ != id by {
                    if j > 0 {
                        assert(nodes[j] == rest[j - 1]);
                    }
                }
            }
        }
    }
}

/// The tile is a container of tabs with `id` among its children.
pub open spec fn has_tab(held: Map<u64, DockTile>, p: u64, id: u64) -> bool {
    &&& held.contains_key(p)
    &&& held[p] is Container
    &&& held[p]->Container_0 == Kind::Tabs
    &&& held[p]->Container_1.contains(id)
}

/// The tile is a container other than of tabs with `id` among its children.
pub open spec fn has_bare(held: Map<u64, DockTile>, p: u64, id: u64) -> bool {
    &&& held.contains_key(p)
    &&& held[p] is Container
    &&& held[p]->Container_0 != Kind::Tabs
    &&& held[p]->Container_1.contains(id)
}

/// The default layout: four tiles, the canvas, the palette, a container of tabs with the palette
/// alone, and at the root a row of that one and the canvas.
pub proof fn law_default_layout_is_palette_beside_canvas(
    tree: Tree<Pane>,
    canvas: u64,
    palette_tab: u64,
)
    requires
        is_default_tree(tree, canvas, palette_tab),
    ensures
        tree_name(tree) == "synth_dock"@,
        tree_tiles(tree).dom() == set![1u64, 2u64, 3u64, 4u64],
        canvas == 1,
        tree_tiles(tree)[1] == DockTile::Pane(Pane::Canvas),
        tree_tiles(tree)[2] == DockTile::Pane(Pane::Palette),
        palette_tab == 3,
        tree_tiles(tree)[3] == DockTile::Container(Kind::Tabs, seq![2u64]),
        tree_root(tree) == Some(4u64),
        tree_tiles(tree)[4] == DockTile::Container(Kind::Horizontal, seq![3u64, 1u64]),
{
}

/// The layout without the palette: the canvas alone, at the root.
pub proof fn law_canvas_layout_is_the_canvas_alone(tree: Tree<Pane>, canvas: u64)
    requires
        is_canvas_tree(tree, canvas),
    ensures
        tree_name(tree) == "synth_dock"@,
        tree_tiles(tree).dom() == set![1u64],
        canvas == 1,
        tree_root(tree) == Some(1u64),
        tree_tiles(tree)[1] == DockTile::Pane(Pane::Canvas),
{
}

/// If every panel is tabbed, each palette is in a container of tabs.
pub proof fn law_tabbed_panels_have_tabs(held: Map<u64, DockTile>, id: u64)
    requires
        panels_tabbed(held),
        held.contains_key(id),
        held[id] == DockTile::Pane(Pane::Palette),
    ensures
        exists|p: u64| has_tab(held, p, id),
{
    assert(is_panel(held, id));
    assert(is_tabbed(held, id));
    let p = choose|p: u64| #[trigger]
        has_child(held, p, id) && face(held[p]) == crate::dock::Face::Container(Kind::Tabs);
    assert(has_tab(held, p, id));
}

/// A canvas that no container of tabs has is left where it is, and the layout goes back to the
/// default one if only containers of tabs have it.
pub proof fn law_canvas_is_rescued_from_tabs(before: Chrome, after: Chrome)
    requires
        was_rescued(before, after),
    ensures
        after.palette_types == before.palette_types,
        (forall|p: u64| !has_tab(tree_tiles(before.tree), p, before.canvas_id)) ==> after == before,
        (exists|p: u64| has_tab(tree_tiles(before.tree), p, before.canvas_id)) && (forall|p: u64|
            !has_bare(tree_tiles(before.tree), p, before.canvas_id)) ==> {
            &&& after.unset_tab is Some
            &&& is_default_tree(after.tree, after.canvas_id, after.unset_tab->0)
        },
{
    let held = tree_tiles(before.tree);
    let id = before.canvas_id;
    let parent = choose|parent: Option<u64>|
        {
            &&& #[trigger] is_parent(held, id, parent)
            &&& if parent_is_tabs(held, parent) {
                after.is_default()
            } else {
                after == before
            }
        };
    lemma_parent(held, id, parent);
}

/// Of a parent that was found, whether it is one of tabs.
proof fn lemma_parent(held: Map<u64, DockTile>, id: u64, parent: Option<u64>)
    requires
        is_parent(held, id, parent),
    ensures
        parent_is_tabs(held, parent) ==> exists|p: u64| has_tab(held, p, id),
        !parent_is_tabs(held, parent) ==> (forall|p: u64| !has_tab(held, p, id)) || exists|p: u64|
            has_bare(held, p, id),
{
    match parent {
        Some(p) => {
            assert(has_child(held, p, id));
            if parent_is_tabs(held, parent) {
                assert(has_tab(held, p, id));
            } else {
                assert(has_bare(held, p, id));
            }
        },
        None => {
            assert forall|p: u64| !has_tab(held, p, id) by {
                assert(!has_child(held, p, id));
            }
        },
    }
}

/// Tabbing the panels touches only palettes. One that only containers of tabs have stays; one that
/// none has becomes a container of tabs with a new tile alone, and this is the palette. Nothing
/// else comes or goes, and root, name, canvas and palette types stay.
pub proof fn law_only_loose_panels_are_tabbed(before: Chrome, after: Chrome)
    requires
        was_tabbed(before, after),
    ensures
        tree_root(after.tree) == tree_root(before.tree),
        tree_name(after.tree) == tree_name(before.tree),
        after.canvas_id == before.canvas_id,
        after.unset_tab == before.unset_tab,
        after.palette_types == before.palette_types,
        ({
            let old_tiles = tree_tiles(before.tree);
            let new_tiles = tree_tiles(after.tree);
            &&& forall|id: u64|
                old_tiles.contains_key(id) ==> #[trigger] new_tiles.contains_key(id)
            &&& forall|id: u64| #[trigger]
                new_tiles.contains_key(id) && !old_tiles.contains_key(id) ==> new_tiles[id]
                    == DockTile::Pane(Pane::Palette)
            &&& forall|id: u64| #[trigger]
                old_tiles.contains_key(id) && old_tiles[id] != DockTile::Pane(Pane::Palette)
                    ==> new_tiles[id] == old_tiles[id]
            &&& forall|id: u64| #[trigger]
                old_tiles.contains_key(id) && old_tiles[id] == DockTile::Pane(Pane::Palette) && (
                exists|p: u64| has_tab(old_tiles, p, id)) && (forall|p: u64|
                    !has_bare(old_tiles, p, id)) ==> new_tiles[id] == old_tiles[id]
            &&& forall|id: u64| #[trigger]
                old_tiles.contains_key(id) && old_tiles[id] == DockTile::Pane(Pane::Palette) && (
                forall|p: u64| !has_tab(old_tiles, p, id)) ==> {
                    &&& new_tiles[id] is Container
                    &&& new_tiles[id]->Container_0 == Kind::Tabs
                    &&& new_tiles[id]->Container_1.len() == 1
                    &&& !old_tiles.contains_key(new_tiles[id]->Container_1[0])
                    &&& new_tiles.contains_key(new_tiles[id]->Container_1[0])
                }
        }),
{
    let a = tree_tiles(before.tree);
    let b = tree_tiles(after.tree);
    let (loose, inner) = choose|loose: Seq<u64>, inner: Seq<u64>| #[trigger]
        are_wrapped(a, b, loose, inner) && are_loose(a, loose);
    assert forall|id: u64| a.contains_key(id) implies #[trigger] b.contains_key(id) by {
        if loose.contains(id) {
            let k = choose|k: int| 0 <= k < loose.len() && loose[k] == id;
            assert(b.contains_key(inner[k]));
        }
    }
    assert forall|id: u64| #[trigger] b.contains_key(id) && !a.contains_key(id) implies b[id]
        == DockTile::Pane(Pane::Palette) by {
        let k = choose|k: int| 0 <= k < inner.len() && inner[k] == id;
        assert(b[inner[k]] == a[loose[k]]);
        lemma_panel(a, loose[k]);
    }
    assert forall|id: u64| #[trigger] a.contains_key(id) && a[id] != DockTile::Pane(
        Pane::Palette,
    ) implies b[id] == a[id] by {
        if loose.contains(id) {
            let k = choose|k: int| 0 <= k < loose.len() && loose[k] == id;
            lemma_panel(a, loose[k]);
        }
        assert(b.contains_key(id));
    }
    assert forall|id: u64| #[trigger] a.contains_key(id) && a[id] == DockTile::Pane(Pane::Palette)
        && (exists|p: u64| has_tab(a, p, id)) && (forall|p: u64|
        !has_bare(a, p, id)) implies b[id] == a[id] by {
        if loose.contains(id) {
            let k = choose|k: int| 0 <= k < loose.len() && loose[k] == id;
            assert(found_in_tabs(a, loose[k], false));
            let parent = choose|parent: Option<u64>| #[trigger]
                is_parent(a, id, parent) && false == parent_is_tabs(a, parent);
            lemma_parent(a, id, parent);
        }
        assert(b.contains_key(id));
    }
    assert forall|id: u64| #[trigger] a.contains_key(id) && a[id] == DockTile::Pane(Pane::Palette)
        && (forall|p: u64| !has_tab(a, p, id)) implies {
        &&& b[id] is Container
        &&& b[id]->Container_0 == Kind::Tabs
        &&& b[id]->Container_1.len() == 1
        &&& !a.contains_key(b[id]->Container_1[0])
        &&& b.contains_key(b[id]->Container_1[0])
    } by {
        assert(is_panel(a, id));
        if !loose.contains(id) {
            let parent = choose|parent: Option<u64>| #[trigger]
                is_parent(a, id, parent) && true == parent_is_tabs(a, parent);
            lemma_parent(a, id, parent);
        }
        let k = choose|k: int| 0 <= k < loose.len() && loose[k] == id;
        assert(b.contains_key(inner[k]));
        assert(b[loose[k]] == DockTile::Container(Kind::Tabs, seq![inner[k]]));
    }
}

/// A panel is a palette.
proof fn lemma_panel(held: Map<u64, DockTile>, id: u64)
    requires
        is_panel(held, id),
    ensures
        held.contains_key(id),
        held[id] == DockTile::Pane(Pane::Palette),
{
    match held[id] {
        DockTile::Pane(p) => {
            match p {
                Pane::Canvas => {},
                Pane::Palette => {},
            }
        },
        DockTile::Container(_, _) => {},
    }
}

/// A tile shows a pane or is a container of its kind, and where there is no tile nothing is.
pub proof fn law_faces_are_of_the_tiles(held: Map<u64, DockTile>, id: u64)
    ensures
        !held.contains_key(id) ==> face_at(held, id) is None,
        held.contains_key(id) && held[id] is Pane ==> face_at(held, id) == Some(
            crate::dock::Face::Pane(held[id]->Pane_0),
        ),
        held.contains_key(id) && held[id] is Container ==> face_at(held, id) == Some(
            crate::dock::Face::Container(held[id]->Container_0),
        ),
{
}

} // verus!
