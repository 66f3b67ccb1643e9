//! The tiles around the canvas, in a tree of `egui_tiles`.

use egui_tiles::{Container, LinearDir, Tile, TileId, Tiles, Tree};
use vstd::prelude::*;

verus! {

/// What a tile without children shows.
#[derive(Clone, Copy, Debug, PartialEq, Eq, Structural)]
pub enum Pane {
    Canvas,
    Palette,
}

/// How a tile shows its children.
#[derive(Clone, Copy, Debug, PartialEq, Eq, Structural)]
pub enum Kind {
    Tabs,
    Horizontal,
    Vertical,
    Grid,
}

/// A tile: a pane, or a container of other tiles, which are given by their ids.
pub enum DockTile {
    Pane(Pane),
    Container(Kind, Seq<u64>),
}

/// What a tile is, without its children.
#[derive(Clone, Copy, Debug, PartialEq, Eq, Structural)]
pub enum Face {
    Pane(Pane),
    Container(Kind),
}

/// What a tile is, without its children.
pub open spec fn face(tile: DockTile) -> Face {
    match tile {
        DockTile::Pane(p) => Face::Pane(p),
        DockTile::Container(kind, _) => Face::Container(kind),
    }
}

#[verifier::external_type_specification]
#[verifier::external_body]
#[verifier::reject_recursive_types(T)]
pub struct ExTiles<T>(egui_tiles::Tiles<T>);

#[verifier::external_type_specification]
#[verifier::external_body]
#[verifier::reject_recursive_types(T)]
pub struct ExTree<T>(egui_tiles::Tree<T>);

/// The tiles by their ids. Which tab is open, how space is shared and what is invisible is not
/// part of it.
pub uninterp spec fn tiles_held(tiles: Tiles<Pane>) -> Map<u64, DockTile>;

/// The first id that the tiles try for a new tile.
pub uninterp spec fn next_id(tiles: Tiles<Pane>) -> u64;

/// The tiles of the tree by their ids.
pub uninterp spec fn tree_tiles(tree: Tree<Pane>) -> Map<u64, DockTile>;

/// The first id that the tree's tiles try for a new tile.
pub uninterp spec fn tree_next_id(tree: Tree<Pane>) -> u64;

/// The tile at the root of the tree.
pub uninterp spec fn tree_root(tree: Tree<Pane>) -> Option<u64>;

/// The name that the tree was made with.
pub uninterp spec fn tree_name(tree: Tree<Pane>) -> Seq<char>;

/// No tiles.
pub open spec fn nothing_held() -> Map<u64, DockTile> {
    Map::empty()
}

/// There are ids for `k` more tiles below the greatest number.
pub open spec fn has_room(held: Map<u64, DockTile>, next: u64, k: nat) -> bool {
    exists|b: int| #[trigger] is_bound(held, next, b) && b + k <= u64::MAX
}

/// All ids in use, and those tried before the next one, are below `b`.
pub open spec fn is_bound(held: Map<u64, DockTile>, next: u64, b: int) -> bool {
    next <= b && forall|id: u64| #[trigger] held.contains_key(id) ==> id < b
}

/// `id` is the first id from `next` on that is not in use.
pub open spec fn is_fresh(held: Map<u64, DockTile>, next: u64, id: u64) -> bool {
    &&& next <= id
    &&& !held.contains_key(id)
    &&& forall|j: u64| next <= j < id ==> #[trigger] held.contains_key(j)
}

/// `egui_tiles::Tiles::default`: no tiles, and the first id tried is one.
#[verifier::external_body]
fn no_tiles() -> (r: Tiles<Pane>)
    ensures
        tiles_held(r) == nothing_held(),
        next_id(r) == 1,
{
    Tiles::default()
}

/// `egui_tiles::Tiles::insert_pane`: adds a pane under the first id that is not in use, from the
/// next one on.
#[verifier::external_body]
fn insert_pane(tiles: &mut Tiles<Pane>, pane: Pane) -> (id: u64)
    requires
        has_room(tiles_held(*old(tiles)), next_id(*old(tiles)), 1),
    ensures
        is_fresh(tiles_held(*old(tiles)), next_id(*old(tiles)), id),
        tiles_held(*final(tiles)) == tiles_held(*old(tiles)).insert(id, DockTile::Pane(pane)),
        next_id(*final(tiles)) == id + 1,
{
    tiles.insert_pane(pane).0
}

/// A reference to the field `tiles` of `egui_tiles::Tree`; what is done through it is done to the
/// tree, of which nothing else changes.
#[verifier::external_body]
fn tiles_mut(tree: &mut Tree<Pane>) -> (r: &mut Tiles<Pane>)
    ensures
        tiles_held(*r) == tree_tiles(*old(tree)),
        next_id(*r) == tree_next_id(*old(tree)),
        tree_tiles(*final(tree)) == tiles_held(*final(r)),
        tree_next_id(*final(tree)) == next_id(*final(r)),
        tree_root(*final(tree)) == tree_root(*old(tree)),
        tree_name(*final(tree)) == tree_name(*old(tree)),
{
    &mut tree.tiles
}

/// A reference to the field `tiles` of `egui_tiles::Tree`.
#[verifier::external_body]
fn tiles_of(tree: &Tree<Pane>) -> (r: &Tiles<Pane>)
    ensures
        tiles_held(*r) == tree_tiles(*tree),
        next_id(*r) == tree_next_id(*tree),
{
    &tree.tiles
}

/// `egui_tiles::Tiles::insert_tab_tile`: adds a container that shows one of its children at a time,
/// under the first id that is not in use, from the next one on.
#[verifier::external_body]
fn insert_tab_tile(tiles: &mut Tiles<Pane>, children: Vec<u64>) -> (id: u64)
    requires
        has_room(tiles_held(*old(tiles)), next_id(*old(tiles)), 1),
    ensures
        is_fresh(tiles_held(*old(tiles)), next_id(*old(tiles)), id),
        tiles_held(*final(tiles)) == tiles_held(*old(tiles)).insert(
            id,
            DockTile::Container(Kind::Tabs, children@),
        ),
        next_id(*final(tiles)) == id + 1,
{
    tiles.insert_tab_tile(children.into_iter().map(TileId).collect()).0
}

/// `egui_tiles::Tiles::insert_horizontal_tile`: adds a container that shows its children side by
/// side, under the first id that is not in use, from the next one on.
#[verifier::external_body]
fn insert_horizontal_tile(tiles: &mut Tiles<Pane>, children: Vec<u64>) -> (id: u64)
    requires
        has_room(tiles_held(*old(tiles)), next_id(*old(tiles)), 1),
    ensures
        is_fresh(tiles_held(*old(tiles)), next_id(*old(tiles)), id),
        tiles_held(*final(tiles)) == tiles_held(*old(tiles)).insert(
            id,
            DockTile::Container(Kind::Horizontal, children@),
        ),
        next_id(*final(tiles)) == id + 1,
{
    tiles.insert_horizontal_tile(children.into_iter().map(TileId).collect()).0
}

/// `egui_tiles::Tiles::insert` of a container that `egui_tiles::Container::new_tabs` makes: the
/// tile with this id becomes a container that shows one of its children at a time.
#[verifier::external_body]
fn put_tabs(tiles: &mut Tiles<Pane>, id: u64, children: Vec<u64>)
    ensures
        tiles_held(*final(tiles)) == tiles_held(*old(tiles)).insert(
            id,
            DockTile::Container(Kind::Tabs, children@),
        ),
        next_id(*final(tiles)) == next_id(*old(tiles)),
{
    let ids = children.into_iter().map(TileId).collect();
    tiles.insert(TileId(id), Tile::Container(Container::new_tabs(ids)));
}

/// What the tile with this id is, without its children.
pub open spec fn face_at(held: Map<u64, DockTile>, id: u64) -> Option<Face> {
    if held.contains_key(id) {
        Some(face(held[id]))
    } else {
        None
    }
}

/// `egui_tiles::Tiles::get`: the tile with this id, if there is one; its children are left out.
#[verifier::external_body]
fn get(tiles: &Tiles<Pane>, id: u64) -> (r: Option<Face>)
    ensures
        r == face_at(tiles_held(*tiles), id),
{
    tiles.get(TileId(id)).map(|tile| match tile {
        Tile::Pane(pane) => Face::Pane(*pane),
        Tile::Container(Container::Tabs(_)) => Face::Container(Kind::Tabs),
        Tile::Container(Container::Linear(linear)) => match linear.dir {
            LinearDir::Horizontal => Face::Container(Kind::Horizontal),
            LinearDir::Vertical => Face::Container(Kind::Vertical),
        },
        Tile::Container(Container::Grid(_)) => Face::Container(Kind::Grid),
    })
}

/// The tile with id `parent` is a container that has `child`.
pub open spec fn has_child(held: Map<u64, DockTile>, parent: u64, child: u64) -> bool {
    &&& held.contains_key(parent)
    &&& held[parent] matches DockTile::Container(_, children) && children.contains(child)
}

/// `parent` is a container that has `child`; there is none if no container has it.
pub open spec fn is_parent(held: Map<u64, DockTile>, child: u64, parent: Option<u64>) -> bool {
    match parent {
        Some(p) => has_child(held, p, child),
        None => forall|p: u64| !#[trigger] has_child(held, p, child),
    }
}

/// `egui_tiles::Tiles::parent_of`: a container that has the tile; which one, if several have it,
/// is open.
#[verifier::external_body]
fn parent_of(tiles: &Tiles<Pane>, child: u64) -> (r: Option<u64>)
    ensures
        is_parent(tiles_held(*tiles), child, r),
{
    tiles.parent_of(TileId(child)).map(|id| id.0)
}

/// `egui_tiles::Tiles::tile_ids`: the ids of all tiles, each once, in any order.
#[verifier::external_body]
fn tile_ids(tiles: &Tiles<Pane>) -> (r: Vec<u64>)
    ensures
        r@.no_duplicates(),
        forall|id: u64| #[trigger] r@.contains(id) == tiles_held(*tiles).contains_key(id),
{
    tiles.tile_ids().map(|id| id.0).collect()
}

/// `egui_tiles::Tree::new`: a tree of these tiles with this root.
#[verifier::external_body]
fn new_tree(name: &'static str, root: u64, tiles: Tiles<Pane>) -> (r: Tree<Pane>)
    ensures
        tree_name(r) == name@,
        tree_root(r) == Some(root),
        tree_tiles(r) == tiles_held(tiles),
        tree_next_id(r) == next_id(tiles),
{
    Tree::new(name, TileId(root), tiles)
}

/// Adding a tile under a fresh id uses up one.
proof fn lemma_room(held: Map<u64, DockTile>, next: u64, k: nat, id: u64, tile: DockTile)
    requires
        has_room(held, next, k),
        k > 0,
        is_fresh(held, next, id),
    ensures
        id < u64::MAX,
        has_room(held.insert(id, tile), (id + 1) as u64, (k - 1) as nat),
        has_room(held, next, 1),
{
    let b = choose|b: int| #[trigger] is_bound(held, next, b) && b + k <= u64::MAX;
    if id > b {
        assert(held.contains_key(b as u64));
    }
    let more = held.insert(id, tile);
    assert(is_bound(more, (id + 1) as u64, b + 1));
}

/// The tree of the default layout: the palette in a tab tile to the left of the canvas.
pub open spec fn is_default_tree(tree: Tree<Pane>, canvas: u64, palette_tab: u64) -> bool {
    &&& canvas == 1
    &&& palette_tab == 3
    &&& tree_name(tree) == "synth_dock"@
    &&& tree_root(tree) == Some(4u64)
    &&& tree_next_id(tree) == 5
    &&& tree_tiles(tree) == nothing_held().insert(1, DockTile::Pane(Pane::Canvas)).insert(
        2,
        DockTile::Pane(Pane::Palette),
    ).insert(3, DockTile::Container(Kind::Tabs, seq![2])).insert(
        4,
        DockTile::Container(Kind::Horizontal, seq![3, 1]),
    )
}

/// The tree of the layout without the palette: the canvas alone.
pub open spec fn is_canvas_tree(tree: Tree<Pane>, canvas: u64) -> bool {
    &&& canvas == 1
    &&& tree_name(tree) == "synth_dock"@
    &&& tree_root(tree) == Some(1u64)
    &&& tree_next_id(tree) == 2
    &&& tree_tiles(tree) == nothing_held().insert(1, DockTile::Pane(Pane::Canvas))
}

/// No tiles leave room for many.
proof fn lemma_empty_room()
    ensures
        has_room(nothing_held(), 1, 4),
{
    assert(is_bound(nothing_held(), 1, 1));
}

/// The default layout: the palette, which can be dragged by its tab, to the left of the canvas. The
/// result is the tree with the ids of the canvas and of the palette's tab tile.
pub fn default_tree() -> (r: (Tree<Pane>, u64, u64))
    ensures
        is_default_tree(r.0, r.1, r.2),
{
    let mut tiles = no_tiles();
    let ghost t0 = nothing_held();
    proof {
        lemma_empty_room();
        lemma_room(t0, 1, 4, 1, DockTile::Pane(Pane::Canvas));
    }
    let canvas: u64 = insert_pane(&mut tiles, Pane::Canvas);
    let ghost t1 = tiles_held(tiles);
    proof {
        assert(canvas == 1) by {
            if canvas > 1 {
                assert(t0.contains_key(1));
            }
        }
        lemma_room(t0, 1, 4, canvas, DockTile::Pane(Pane::Canvas));
        assert(is_fresh(t1, 2, 2));
        lemma_room(t1, 2, 3, 2, DockTile::Pane(Pane::Palette));
    }
    let palette: u64 = insert_pane(&mut tiles, Pane::Palette);
    let ghost t2 = tiles_held(tiles);
    proof {
        assert(palette == 2) by {
            if palette > 2 {
                assert(t1.contains_key(2));
            }
        }
        assert(is_fresh(t2, 3, 3));
        lemma_room(t2, 3, 2, 3, DockTile::Pane(Pane::Palette));
    }
    let tab_children: Vec<u64> = vec![palette];
    let ghost in_tab = tab_children@;
    let palette_tab: u64 = insert_tab_tile(&mut tiles, tab_children);
    let ghost t3 = tiles_held(tiles);
    proof {
        assert(palette_tab == 3) by {
            if palette_tab > 3 {
                assert(t2.contains_key(3));
            }
        }
        assert(in_tab =~= seq![2u64]);
        lemma_room(t2, 3, 2, 3, DockTile::Container(Kind::Tabs, in_tab));
        assert(is_fresh(t3, 4, 4));
        lemma_room(t3, 4, 1, 4, DockTile::Pane(Pane::Palette));
    }
    let root_children: Vec<u64> = vec![palette_tab, canvas];
    let ghost in_root = root_children@;
    let root: u64 = insert_horizontal_tile(&mut tiles, root_children);
    proof {
        assert(root == 4) by {
            if root > 4 {
                assert(t3.contains_key(4));
            }
        }
        assert(in_root =~= seq![3u64, 1u64]);
    }
    (new_tree("synth_dock", root, tiles), canvas, palette_tab)
}

/// The layout with the palette hidden: just the canvas.
pub fn canvas_only_tree() -> (r: (Tree<Pane>, u64))
    ensures
        is_canvas_tree(r.0, r.1),
{
    let mut tiles = no_tiles();
    proof {
        lemma_empty_room();
        lemma_room(nothing_held(), 1, 4, 1, DockTile::Pane(Pane::Canvas));
    }
    let canvas: u64 = insert_pane(&mut tiles, Pane::Canvas);
    assert(canvas == 1) by {
        if canvas > 1 {
            assert(nothing_held().contains_key(1));
        }
    }
    (new_tree("synth_dock", canvas, tiles), canvas)
}

/// A container of tabs has the tile.
pub open spec fn is_tabbed(held: Map<u64, DockTile>, id: u64) -> bool {
    exists|p: u64| #[trigger] has_child(held, p, id) && face(held[p]) == Face::Container(Kind::Tabs)
}

/// At most one container has the tile.
pub open spec fn has_one_parent(held: Map<u64, DockTile>, id: u64) -> bool {
    forall|p: u64, q: u64| #[trigger]
        has_child(held, p, id) && #[trigger] has_child(held, q, id) ==> p == q
}

/// The parent is a container of tabs.
pub open spec fn parent_is_tabs(held: Map<u64, DockTile>, parent: Option<u64>) -> bool {
    parent matches Some(p) && face_at(held, p) == Some(Face::Container(Kind::Tabs))
}

/// Whether the container found to have the tile is one of tabs.
fn in_tabs(tiles: &Tiles<Pane>, id: u64) -> (r: bool)
    ensures
        exists|parent: Option<u64>| #[trigger]
            is_parent(tiles_held(*tiles), id, parent) && r == parent_is_tabs(
                tiles_held(*tiles),
                parent,
            ),
{
    let parent: Option<u64> = parent_of(tiles, id);
    assert(is_parent(tiles_held(*tiles), id, parent));
    match parent {
        Some(p) => match get(tiles, p) {
            Some(Face::Container(Kind::Tabs)) => true,
            _ => false,
        },
        None => false,
    }
}

/// Whether the tree shows the palette.
pub fn palette_shown(tree: &Tree<Pane>) -> (r: bool)
    ensures
        r == exists|id: u64| #[trigger]
            face_at(tree_tiles(*tree), id) == Some(Face::Pane(Pane::Palette)),
{
    let tiles = tiles_of(tree);
    let ghost held = tiles_held(*tiles);
    let ids = tile_ids(tiles);
    let mut i: usize = 0;
    while i < ids.len()
        invariant
            i <= ids@.len(),
            held == tiles_held(*tiles),
            held == tree_tiles(*tree),
            forall|id: u64| #[trigger] ids@.contains(id) == held.contains_key(id),
            forall|j: int|
                0 <= j < i ==> face_at(held, #[trigger] ids@[j]) != Some(
                    Face::Pane(Pane::Palette),
                ),
        decreases ids.len() - i,
    {
        if let Some(Face::Pane(Pane::Palette)) = get(tiles, ids[i]) {
            assert(face_at(held, ids@[i as int]) == Some(Face::Pane(Pane::Palette)));
            return true;
        }
        i += 1;
    }
    assert forall|id: u64| #[trigger] face_at(held, id) != Some(Face::Pane(Pane::Palette)) by {
        if held.contains_key(id) {
            assert(ids@.contains(id));
        }
    }
    false
}

/// Whether the canvas has ended up in a container of tabs, where it would get a tab bar.
pub fn canvas_in_tabs(tree: &Tree<Pane>, canvas: u64) -> (r: bool)
    ensures
        exists|parent: Option<u64>| #[trigger]
            is_parent(tree_tiles(*tree), canvas, parent) && r == parent_is_tabs(
                tree_tiles(*tree),
                parent,
            ),
        has_one_parent(tree_tiles(*tree), canvas) ==> r == is_tabbed(tree_tiles(*tree), canvas),
{
    let ghost held = tree_tiles(*tree);
    let r = in_tabs(tiles_of(tree), canvas);
    proof {
        let parent = choose|parent: Option<u64>| #[trigger]
            is_parent(held, canvas, parent) && r == parent_is_tabs(held, parent);
        if let Some(p) = parent {
            assert(has_child(held, p, canvas));
        }
    }
    r
}

/// The tile is a panel: a pane other than the canvas.
pub open spec fn is_panel(held: Map<u64, DockTile>, id: u64) -> bool {
    held.contains_key(id) && (held[id] matches DockTile::Pane(p) && p != Pane::Canvas)
}

/// Every panel is in a container of tabs.
pub open spec fn panels_tabbed(held: Map<u64, DockTile>) -> bool {
    forall|id: u64| #[trigger] is_panel(held, id) ==> is_tabbed(held, id)
}

/// The container found to have the tile is one of tabs, or not, as `tabs` says.
pub open spec fn found_in_tabs(held: Map<u64, DockTile>, id: u64, tabs: bool) -> bool {
    exists|parent: Option<u64>| #[trigger]
        is_parent(held, id, parent) && tabs == parent_is_tabs(held, parent)
}

/// `loose` are the panels that were not found in a container of tabs.
pub open spec fn are_loose(held: Map<u64, DockTile>, loose: Seq<u64>) -> bool {
    &&& loose.no_duplicates()
    &&& forall|k: int|
        0 <= k < loose.len() ==> is_panel(held, #[trigger] loose[k]) && found_in_tabs(
            held,
            loose[k],
            false,
        )
    &&& forall|id: u64| #[trigger]
        is_panel(held, id) && !loose.contains(id) ==> found_in_tabs(held, id, true)
}

/// `after` is `before` with each of `loose` turned into a container of tabs that has the pane
/// under a new id, given by `inner`.
pub open spec fn are_wrapped(
    before: Map<u64, DockTile>,
    after: Map<u64, DockTile>,
    loose: Seq<u64>,
    inner: Seq<u64>,
) -> bool {
    &&& inner.len() == loose.len()
    &&& inner.no_duplicates()
    &&& forall|k: int|
        0 <= k < inner.len() ==> {
            &&& !before.contains_key(#[trigger] inner[k])
            &&& after.contains_key(inner[k])
            &&& after[inner[k]] == before[loose[k]]
            &&& after.contains_key(loose[k])
            &&& after[loose[k]] == DockTile::Container(Kind::Tabs, seq![inner[k]])
        }
    &&& forall|id: u64|
        before.contains_key(id) && !loose.contains(id) ==> #[trigger] after.contains_key(id)
            && after[id] == before[id]
    &&& forall|id: u64| #[trigger]
        after.contains_key(id) ==> before.contains_key(id) || inner.contains(id)
}

/// The panels that are not found in a container of tabs.
fn loose_panels(tiles: &Tiles<Pane>) -> (r: (Vec<u64>, Vec<Pane>))
    ensures
        are_loose(tiles_held(*tiles), r.0@),
        r.1@.len() == r.0@.len(),
        forall|k: int|
            0 <= k < r.0@.len() ==> tiles_held(*tiles)[#[trigger] r.0@[k]] == DockTile::Pane(
                r.1@[k],
            ),
        tiles_held(*tiles).dom().finite(),
        r.0@.len() <= tiles_held(*tiles).dom().len(),
{
    let ghost held = tiles_held(*tiles);
    let ids = tile_ids(tiles);
    let mut loose: Vec<u64> = Vec::new();
    let mut panes: Vec<Pane> = Vec::new();
    let mut i: usize = 0;
    while i < ids.len()
        invariant
            i <= ids@.len(),
            held == tiles_held(*tiles),
            ids@.no_duplicates(),
            forall|id: u64| #[trigger] ids@.contains(id) == held.contains_key(id),
            loose@.no_duplicates(),
            loose@.len() <= i,
            panes@.len() == loose@.len(),
            forall|k: int|
                0 <= k < loose@.len() ==> ids@.take(i as int).contains(#[trigger] loose@[k])
                    && is_panel(held, loose@[k]) && found_in_tabs(held, loose@[k], false)
                    && held[loose@[k]] == DockTile::Pane(panes@[k]),
            forall|j: int|
                0 <= j < i && is_panel(held, #[trigger] ids@[j]) && !loose@.contains(ids@[j])
                    ==> found_in_tabs(held, ids@[j], true),
        decreases ids.len() - i,
    {
        let id: u64 = ids[i];
        let ghost before = loose@;
        let mut is_loose = false;
        if let Some(Face::Pane(pane)) = get(tiles, id) {
            if pane != Pane::Canvas {
                let tabs = in_tabs(tiles, id);
                assert(found_in_tabs(held, id, tabs));
                if !tabs {
                    loose.push(id);
                    panes.push(pane);
                    is_loose = true;
                }
            }
        }
        proof {
            let seen = ids@.take(i as int);
            let now = ids@.take(i + 1);
            assert(now =~= seen.push(id));
            assert(!seen.contains(id)) by {
                if seen.contains(id) {
                    let a = choose|a: int| 0 <= a < seen.len() && seen[a] == id;
                    assert(ids@[a] == ids@[i as int]);
                }
            }
            assert forall|k: int| 0 <= k < loose@.len() implies now.contains(
                #[trigger] loose@[k],
            ) by {
                if k < before.len() {
                    assert(loose@[k] == before[k]);
                    let a = choose|a: int| 0 <= a < seen.len() && seen[a] == before[k];
                    assert(now[a] == before[k]);
                } else {
                    assert(now[i as int] == id);
                }
            }
            assert(loose@.no_duplicates()) by {
                if is_loose {
                    assert(!before.contains(id)) by {
                        if before.contains(id) {
                            let a = choose|a: int| 0 <= a < before.len() && before[a] == id;
                            assert(seen.contains(before[a]));
                        }
                    }
                }
            }
            assert forall|j: int|
                0 <= j < i + 1 && is_panel(held, #[trigger] ids@[j]) && !loose@.contains(
                    ids@[j],
                ) implies found_in_tabs(held, ids@[j], true) by {
                if j < i {
                    if before.contains(ids@[j]) {
                        let a = choose|a: int| 0 <= a < before.len() && before[a] == ids@[j];
                        assert(loose@[a] == ids@[j]);
                    }
                } else if is_loose {
                    assert(loose@[before.len() as int] == id);
                }
            }
        }
        i += 1;
    }
    proof {
        assert(ids@.take(i as int) =~= ids@);
        assert forall|id: u64| #[trigger] is_panel(held, id) && !loose@.contains(
            id,
        ) implies found_in_tabs(held, id, true) by {
            assert(ids@.contains(id));
            let j = choose|j: int| 0 <= j < ids@.len() && ids@[j] == id;
            assert(is_panel(held, ids@[j]));
        }
        ids@.unique_seq_to_set();
        assert(ids@.to_set() =~= held.dom());
    }
    (loose, panes)
}

/// Wraps every panel that is not in a container of tabs in one, so that each keeps a tab by which
/// it can be dragged. The panel's tile becomes the container, so its parent need not change. The
/// canvas is never wrapped.
pub fn wrap_panels(tree: &mut Tree<Pane>)
    requires
        has_room(
            tree_tiles(*old(tree)),
            tree_next_id(*old(tree)),
            tree_tiles(*old(tree)).dom().len(),
        ),
    ensures
        exists|loose: Seq<u64>, inner: Seq<u64>| #[trigger]
            are_wrapped(tree_tiles(*old(tree)), tree_tiles(*final(tree)), loose, inner)
                && are_loose(tree_tiles(*old(tree)), loose),
        panels_tabbed(tree_tiles(*final(tree))),
        tree_root(*final(tree)) == tree_root(*old(tree)),
        tree_name(*final(tree)) == tree_name(*old(tree)),
{
    let ghost before = tree_tiles(*tree);
    let (loose, panes) = loose_panels(tiles_of(tree));
    let ghost mut inner: Seq<u64> = Seq::empty();
    let mut k: usize = 0;
    proof {
        lemma_less_room(
            before,
            tree_next_id(*tree),
            before.dom().len(),
            loose@.len(),
        );
        assert(loose@.take(0) =~= Seq::empty());
        assert(are_wrapped(before, before, loose@.take(0), inner));
    }
    while k < loose.len()
        invariant
            k <= loose@.len(),
            before == tree_tiles(*old(tree)),
            are_loose(before, loose@),
            panes@.len() == loose@.len(),
            forall|j: int|
                0 <= j < loose@.len() ==> before[#[trigger] loose@[j]] == DockTile::Pane(panes@[j]),
            has_room(tree_tiles(*tree), tree_next_id(*tree), (loose@.len() - k) as nat),
            are_wrapped(before, tree_tiles(*tree), loose@.take(k as int), inner),
            tree_root(*tree) == tree_root(*old(tree)),
            tree_name(*tree) == tree_name(*old(tree)),
        decreases loose.len() - k,
    {
        let ghost held = tree_tiles(*tree);
        let ghost next = tree_next_id(*tree);
        let id: u64 = loose[k];
        let pane = panes[k];
        let tiles = tiles_mut(tree);
        proof {
            lemma_less_room(held, next, (loose@.len() - k) as nat, 1);
        }
        let new: u64 = insert_pane(tiles, pane);
        proof {
            lemma_room(
                held,
                next,
                (loose@.len() - k) as nat,
                new,
                DockTile::Pane(pane),
            );
        }
        let children: Vec<u64> = vec![new];
        let ghost listed = children@;
        put_tabs(tiles, id, children);
        proof {
            assert(listed =~= seq![new]);
            let added = held.insert(new, DockTile::Pane(pane));
            let after = added.insert(id, DockTile::Container(Kind::Tabs, seq![new]));
            assert(is_panel(before, loose@[k as int]));
            lemma_wrap_one(before, held, loose@, inner, k as int, new);
            inner = inner.push(new);
            lemma_room_same_ids(
                added,
                after,
                (new + 1) as u64,
                (loose@.len() - k - 1) as nat,
            );
        }
        k += 1;
    }
    proof {
        assert(loose@.take(k as int) =~= loose@);
        lemma_wrapped_panels(before, tree_tiles(*tree), loose@, inner);
    }
}

proof fn lemma_less_room(held: Map<u64, DockTile>, next: u64, k: nat, j: nat)
    requires
        has_room(held, next, k),
        j <= k,
    ensures
        has_room(held, next, j),
{
    let b = choose|b: int| #[trigger] is_bound(held, next, b) && b + k <= u64::MAX;
    assert(is_bound(held, next, b));
}

proof fn lemma_room_same_ids(
    a: Map<u64, DockTile>,
    b: Map<u64, DockTile>,
    next: u64,
    k: nat,
)
    requires
        has_room(a, next, k),
        forall|id: u64| #[trigger] b.contains_key(id) ==> a.contains_key(id),
    ensures
        has_room(b, next, k),
{
    let m = choose|m: int| #[trigger] is_bound(a, next, m) && m + k <= u64::MAX;
    assert(is_bound(b, next, m));
}

/// One more panel is wrapped.
proof fn lemma_wrap_one(
    before: Map<u64, DockTile>,
    held: Map<u64, DockTile>,
    loose: Seq<u64>,
    inner: Seq<u64>,
    k: int,
    new: u64,
)
    requires
        0 <= k < loose.len(),
        loose.no_duplicates(),
        forall|j: int| 0 <= j < loose.len() ==> before.contains_key(#[trigger] loose[j]),
        are_wrapped(before, held, loose.take(k), inner),
        !held.contains_key(new),
    ensures
        held.contains_key(loose[k]),
        are_wrapped(
            before,
            held.insert(new, before[loose[k]]).insert(
                loose[k],
                DockTile::Container(Kind::Tabs, seq![new]),
            ),
            loose.take(k + 1),
            inner.push(new),
        ),
{
    let id = loose[k];
    let done = loose.take(k);
    let now = loose.take(k + 1);
    let after = held.insert(new, before[id]).insert(
        id,
        DockTile::Container(Kind::Tabs, seq![new]),
    );
    let more = inner.push(new);
    assert(before.contains_key(loose[k]));
    assert(!done.contains(id)) by {
        if done.contains(id) {
            let a = choose|a: int| 0 <= a < done.len() && done[a] == id;
            assert(loose[a] == loose[k]);
        }
    }
    assert(held.contains_key(id));
    assert(!before.contains_key(new)) by {
        if before.contains_key(new) {
            if done.contains(new) {
                let a = choose|a: int| 0 <= a < done.len() && done[a] == new;
                assert(held.contains_key(done[a])) by {
                    assert(!before.contains_key(inner[a]));
                }
            } else {
                assert(held.contains_key(new));
            }
        }
    }
    assert forall|j: int| 0 <= j < more.len() implies {
        &&& !before.contains_key(#[trigger] more[j])
        &&& after.contains_key(more[j])
        &&& after[more[j]] == before[now[j]]
        &&& after.contains_key(now[j])
        &&& after[now[j]] == DockTile::Container(Kind::Tabs, seq![more[j]])
    } by {
        if j < k {
            assert(more[j] == inner[j]);
            assert(now[j] == done[j]);
            assert(!before.contains_key(inner[j]));
            assert(loose[j] != loose[k]);
            assert(before.contains_key(loose[j]));
        }
    }
    assert(more.no_duplicates()) by {
        assert forall|i: int, j: int| 0 <= i < j < more.len() implies more[i] != more[j] by {
            assert(!before.contains_key(inner[i]));
            if j == k {
                assert(held.contains_key(inner[i]));
            }
        }
    }
    assert forall|x: u64| before.contains_key(x) && !now.contains(
        x,
    ) implies #[trigger] after.contains_key(x) && after[x] == before[x] by {
        assert(now[k] == id);
        if done.contains(x) {
            let a = choose|a: int| 0 <= a < done.len() && done[a] == x;
            assert(now[a] == x);
        }
        assert(held.contains_key(x));
    }
    assert forall|x: u64| #[trigger] after.contains_key(x) implies before.contains_key(x)
        || more.contains(x) by {
        if x == new {
            assert(more[k] == new);
        } else if x != id {
            assert(held.contains_key(x));
            if inner.contains(x) {
                let a = choose|a: int| 0 <= a < inner.len() && inner[a] == x;
                assert(more[a] == x);
            }
        }
    }
}

/// When the loose panels are wrapped, every panel is in a container of tabs.
proof fn lemma_wrapped_panels(
    before: Map<u64, DockTile>,
    after: Map<u64, DockTile>,
    loose: Seq<u64>,
    inner: Seq<u64>,
)
    requires
        are_loose(before, loose),
        are_wrapped(before, after, loose, inner),
    ensures
        panels_tabbed(after),
{
    assert forall|id: u64| #[trigger] is_panel(after, id) implies is_tabbed(after, id) by {
        if before.contains_key(id) {
            if loose.contains(id) {
                let k = choose|k: int| 0 <= k < loose.len() && loose[k] == id;
                assert(!before.contains_key(inner[k]));
            } else {
                assert(after[id] == before[id]);
                assert(is_panel(before, id));
                let parent = choose|parent: Option<u64>| #[trigger]
                    is_parent(before, id, parent) && parent_is_tabs(before, parent);
                let p = parent->0;
                assert(has_child(before, p, id));
                assert(!loose.contains(p)) by {
                    if loose.contains(p) {
                        let k = choose|k: int| 0 <= k < loose.len() && loose[k] == p;
                        assert(is_panel(before, loose[k]));
                    }
                }
                assert(after.contains_key(p));
                assert(has_child(after, p, id));
            }
        } else {
            let k = choose|k: int| 0 <= k < inner.len() && inner[k] == id;
            assert(!before.contains_key(inner[k]));
            assert(seq![inner[k]][0] == id);
            assert(has_child(after, loose[k], id));
        }
    }
}

/// Wrapping the loose panels leaves the canvas, and everything else that is no panel, as it is.
pub proof fn law_only_panels_are_wrapped(
    before: Map<u64, DockTile>,
    after: Map<u64, DockTile>,
    loose: Seq<u64>,
    inner: Seq<u64>,
    id: u64,
)
    requires
        are_loose(before, loose),
        are_wrapped(before, after, loose, inner),
        before.contains_key(id),
        !is_panel(before, id),
    ensures
        after.contains_key(id) && after[id] == before[id],
{
    if loose.contains(id) {
        let k = choose|k: int| 0 <= k < loose.len() && loose[k] == id;
        assert(is_panel(before, loose[k]));
    }
    assert(after.contains_key(id));
}

/// Wrapping the loose panels puts the canvas into no other container: it stays out of tabs if it was
/// out of them, and in one container at most if it was.
pub proof fn law_wrapping_keeps_the_canvas_bare(
    before: Map<u64, DockTile>,
    after: Map<u64, DockTile>,
    loose: Seq<u64>,
    inner: Seq<u64>,
    canvas: u64,
)
    requires
        are_loose(before, loose),
        are_wrapped(before, after, loose, inner),
        before.contains_key(canvas),
        before[canvas] == DockTile::Pane(Pane::Canvas),
    ensures
        after.contains_key(canvas) && after[canvas] == DockTile::Pane(Pane::Canvas),
        !is_tabbed(before, canvas) ==> !is_tabbed(after, canvas),
        has_one_parent(before, canvas) ==> has_one_parent(after, canvas),
{
    law_only_panels_are_wrapped(before, after, loose, inner, canvas);
    assert forall|p: u64| #[trigger] has_child(after, p, canvas) implies has_child(
        before,
        p,
        canvas,
    ) && after[p] == before[p] by {
        if loose.contains(p) {
            let k = choose|k: int| 0 <= k < loose.len() && loose[k] == p;
            assert(!before.contains_key(inner[k]));
            assert(after[p] == DockTile::Container(Kind::Tabs, seq![inner[k]]));
            let j = choose|j: int|
                0 <= j < seq![inner[k]].len() && seq![inner[k]][j] == canvas;
        } else if before.contains_key(p) {
            assert(after.contains_key(p));
        } else {
            let k = choose|k: int| 0 <= k < inner.len() && inner[k] == p;
            assert(!before.contains_key(inner[k]));
            assert(is_panel(before, loose[k]));
        }
    }
}

/// In a new layout every panel is in a container of tabs, and the canvas, which is where it is said
/// to be, is not.
pub proof fn law_new_layouts_are_sound(tree: Tree<Pane>, canvas: u64, palette_tab: u64)
    requires
        is_default_tree(tree, canvas, palette_tab) || is_canvas_tree(tree, canvas),
    ensures
        panels_tabbed(tree_tiles(tree)),
        tree_tiles(tree).contains_key(canvas),
        tree_tiles(tree)[canvas] == DockTile::Pane(Pane::Canvas),
        !is_tabbed(tree_tiles(tree), canvas),
        has_one_parent(tree_tiles(tree), canvas),
{
    let held = tree_tiles(tree);
    if is_default_tree(tree, canvas, palette_tab) {
        assert(seq![2u64][0] == 2);
        assert(has_child(held, 3, 2));
        assert forall|p: u64| #[trigger] has_child(held, p, 1) implies p == 4 by {
            if p == 3 {
                let k = choose|k: int| 0 <= k < seq![2u64].len() && seq![2u64][k] == 1u64;
            }
        }
    }
}

/// A new layout has room for wrapping its panels.
pub proof fn law_new_layouts_have_room(tree: Tree<Pane>, canvas: u64, palette_tab: u64)
    requires
        is_default_tree(tree, canvas, palette_tab) || is_canvas_tree(tree, canvas),
    ensures
        has_room(tree_tiles(tree), tree_next_id(tree), tree_tiles(tree).dom().len()),
{
    let held = tree_tiles(tree);
    let ids: Set<u64> = Set::empty().insert(1);
    if is_canvas_tree(tree, canvas) {
        assert(held.dom() =~= ids);
        assert(is_bound(held, 2, 2));
    } else {
        let all = ids.insert(2).insert(3).insert(4);
        assert(held.dom() =~= all);
        assert(is_bound(held, 5, 5));
    }
}

} // verus!
