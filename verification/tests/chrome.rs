use egui_tiles::{Container, ContainerKind, Tile, TileId, Tiles};
use synth_ui::chrome::{palette_types, pane_title, play_label, status_line, Chrome};
use synth_ui::dock::{canvas_only_tree, default_tree, palette_shown, Pane};
use synth_ui::model::{Descriptor, Inputs, ModuleType, Registry};

fn registry(sources: &[&str], modules: &[&str]) -> Registry {
    let types = |list: &[&str]| {
        list.iter()
            .map(|ty| ModuleType {
                type_id: ty.to_string(),
                desc: Descriptor { inputs: Inputs::Fixed(vec![]), outputs: vec![] },
            })
            .collect()
    };
    Registry {
        sources: types(sources),
        modules: types(modules),
        icons: vec![],
        audio_output: [0; 32],
        unknown: [0; 32],
    }
}

fn chrome() -> Chrome {
    Chrome::new(&registry(&[], &[]))
}

fn kind(tiles: &Tiles<Pane>, id: u64) -> Option<ContainerKind> {
    tiles.get(TileId(id)).and_then(|t| t.kind())
}

fn children(tiles: &Tiles<Pane>, id: u64) -> Vec<u64> {
    match tiles.get(TileId(id)) {
        Some(Tile::Container(c)) => c.children_vec().iter().map(|t| t.0).collect(),
        _ => panic!("no container"),
    }
}

#[test]
fn the_palette_lists_every_type_once_in_order() {
    let r = registry(&["sine", "const"], &["mix", "const", "adsr", "zoo"]);
    assert_eq!(palette_types(&r), ["adsr", "audio_output", "const", "mix", "sine", "zoo"]);
    assert_eq!(palette_types(&registry(&[], &["audio_output"])), ["audio_output"]);
    assert_eq!(Chrome::new(&r).palette_types.len(), 6);
}

#[test]
fn the_status_bar_says_what_there_is_to_say() {
    assert_eq!(status_line(true, "playing", 3, None), ["playing", "3 nodes"]);
    assert_eq!(status_line(false, "", 0, None), ["stopped", "0 nodes"]);
    assert_eq!(
        status_line(false, "audio error: busy", 12, Some("node  a  (mix)")),
        ["stopped", "audio error: busy", "12 nodes", "node  a  (mix)"]
    );
    assert_eq!(play_label(true), "Stop");
    assert_eq!(play_label(false), "Play");
    assert_eq!(pane_title(Pane::Palette), "Modules");
    assert_eq!(pane_title(Pane::Canvas), "Canvas");
}

#[test]
fn the_default_layout_has_the_palette_left_of_the_canvas() {
    let (tree, canvas, palette_tab) = default_tree();
    assert_eq!(tree.tiles.len(), 4);
    assert_eq!(tree.tiles.get_pane(&TileId(canvas)), Some(&Pane::Canvas));
    let root = tree.root.unwrap().0;
    assert_eq!(kind(&tree.tiles, root), Some(ContainerKind::Horizontal));
    assert_eq!(children(&tree.tiles, root), [palette_tab, canvas]);
    assert_eq!(kind(&tree.tiles, palette_tab), Some(ContainerKind::Tabs));
    let palette = children(&tree.tiles, palette_tab)[0];
    assert_eq!(tree.tiles.get_pane(&TileId(palette)), Some(&Pane::Palette));
    assert_eq!((canvas, palette, palette_tab, root), (1, 2, 3, 4));
    assert_eq!(tree.id(), egui::Id::new("synth_dock"));
    assert!(palette_shown(&tree));
}

#[test]
fn the_layout_without_the_palette_is_just_the_canvas() {
    let (tree, canvas) = canvas_only_tree();
    assert_eq!(tree.tiles.len(), 1);
    assert_eq!(tree.root, Some(TileId(canvas)));
    assert_eq!(tree.tiles.get_pane(&TileId(canvas)), Some(&Pane::Canvas));
    assert_eq!(tree.id(), egui::Id::new("synth_dock"));
    assert!(!palette_shown(&tree));
}

#[test]
fn the_palette_can_be_hidden_and_shown() {
    let mut c = chrome();
    assert!(c.shows_palette());
    assert_eq!(c.unset_tab, Some(3));
    c.show_palette(false);
    assert!(!c.shows_palette());
    assert_eq!(c.unset_tab, None);
    c.show_palette(true);
    assert!(c.shows_palette());
    assert_eq!(c.unset_tab, Some(3));
}

#[test]
fn a_canvas_in_tabs_is_rescued() {
    let mut c = chrome();
    c.unset_tab = None;
    c.rescue_canvas();
    assert_eq!(c.unset_tab, None);
    // A panel was dropped onto the middle of the canvas.
    let tabs = Container::new_tabs(vec![TileId(3), TileId(c.canvas_id)]);
    c.tree.tiles.insert(TileId(4), Tile::Container(tabs));
    c.rescue_canvas();
    assert_eq!(kind(&c.tree.tiles, 4), Some(ContainerKind::Horizontal));
    assert_eq!(c.unset_tab, Some(3));
    // Other containers are left alone.
    let column = Container::new_vertical(vec![TileId(3), TileId(c.canvas_id)]);
    c.tree.tiles.insert(TileId(4), Tile::Container(column));
    c.rescue_canvas();
    assert_eq!(kind(&c.tree.tiles, 4), Some(ContainerKind::Vertical));
}

#[test]
fn bare_panels_are_wrapped_in_tabs() {
    let mut c = chrome();
    c.ensure_panels_tabbed();
    assert_eq!(c.tree.tiles.len(), 4);
    // The palette was dragged out of its tab tile, next to the canvas.
    let row = Container::new_horizontal(vec![TileId(2), TileId(c.canvas_id)]);
    c.tree.tiles.insert(TileId(4), Tile::Container(row));
    c.tree.tiles.remove(TileId(3));
    c.ensure_panels_tabbed();
    assert_eq!(kind(&c.tree.tiles, 2), Some(ContainerKind::Tabs));
    let inner = children(&c.tree.tiles, 2);
    assert_eq!(inner.len(), 1);
    assert_eq!(c.tree.tiles.get_pane(&TileId(inner[0])), Some(&Pane::Palette));
    assert_eq!(children(&c.tree.tiles, 4), [2, 1]);
    assert_eq!(c.tree.tiles.get_pane(&TileId(1)), Some(&Pane::Canvas));
    let count = c.tree.tiles.len();
    c.ensure_panels_tabbed();
    assert_eq!(c.tree.tiles.len(), count);
}

#[test]
fn panels_in_grids_and_columns_are_wrapped_too() {
    for container in [
        Container::new_grid(vec![TileId(2), TileId(1)]),
        Container::new_vertical(vec![TileId(2), TileId(1)]),
    ] {
        let mut c = chrome();
        c.tree.tiles.remove(TileId(3));
        c.tree.tiles.insert(TileId(4), Tile::Container(container));
        c.ensure_panels_tabbed();
        assert_eq!(kind(&c.tree.tiles, 2), Some(ContainerKind::Tabs));
        assert!(c.shows_palette());
    }
}

#[test]
fn settling_rescues_the_canvas_and_tabs_the_panels() {
    // A panel was dropped onto the middle of the canvas.
    let mut c = chrome();
    let tabs = Container::new_tabs(vec![TileId(2), TileId(c.canvas_id)]);
    c.tree.tiles.insert(TileId(4), Tile::Container(tabs));
    c.settle();
    assert_eq!(kind(&c.tree.tiles, 4), Some(ContainerKind::Horizontal));
    assert_eq!(c.unset_tab, Some(3));
    // The palette was dragged out of its tab tile.
    c.unset_tab = None;
    c.tree.tiles.remove(TileId(3));
    let row = Container::new_horizontal(vec![TileId(2), TileId(c.canvas_id)]);
    c.tree.tiles.insert(TileId(4), Tile::Container(row));
    c.settle();
    assert_eq!(c.unset_tab, None);
    assert_eq!(kind(&c.tree.tiles, 2), Some(ContainerKind::Tabs));
    assert_eq!(c.tree.tiles.get_pane(&TileId(c.canvas_id)), Some(&Pane::Canvas));
    let parent = c.tree.tiles.parent_of(TileId(c.canvas_id)).unwrap();
    assert_eq!(kind(&c.tree.tiles, parent.0), Some(ContainerKind::Horizontal));
    assert_eq!(c.tree.id(), egui::Id::new("synth_dock"));
    // The layout without the palette stays as it is.
    c.show_palette(false);
    c.settle();
    assert_eq!(c.tree.tiles.len(), 1);
}
