//! What the chrome around the canvas shows: the palette, the bars and the dock.

use egui_tiles::Tree;
use vstd::prelude::*;
use vstd::string::StringExecFns;

use crate::dock::{
    are_loose, are_wrapped, canvas_in_tabs, canvas_only_tree, default_tree, face_at,
    has_one_parent, has_room, is_canvas_tree, is_default_tree, is_parent, is_tabbed,
    law_new_layouts_are_sound, law_new_layouts_have_room, law_wrapping_keeps_the_canvas_bare,
    palette_shown, panels_tabbed, parent_is_tabs, tree_name, tree_next_id, tree_root, tree_tiles,
    wrap_panels, DockTile, Face, Pane,
};
use crate::edit::node_with_id;
use crate::editor::{Editor, Hover};
use crate::model::{audio_output, names, ModuleType, Patch, Registry};
use crate::text::{
    comes_before, decimal, decimal_string, is_before, lemma_before_is_transitive,
    lemma_one_comes_before, same_text,
};

verus! {

/// Each name comes before the next: they are in order, and none occurs twice.
pub open spec fn in_order(list: Seq<Seq<char>>) -> bool {
    forall|i: int, j: int|
        0 <= i < j < list.len() ==> comes_before(#[trigger] list[i], #[trigger] list[j])
}

/// Adds a name to a list in order, unless it is there.
fn insert_in_order(list: &mut Vec<String>, name: &str)
    requires
        in_order(names(old(list)@)),
    ensures
        in_order(names(final(list)@)),
        forall|s: Seq<char>| #[trigger]
            names(final(list)@).contains(s) <==> names(old(list)@).contains(s) || s == name@,
{
    let ghost given = names(list@);
    let mut i: usize = 0;
    while i < list.len() && is_before(list[i].as_str(), name)
        invariant
            i <= list@.len(),
            given == names(list@),
            forall|j: int| 0 <= j < i ==> comes_before(#[trigger] given[j], name@),
        decreases list.len() - i,
    {
        i += 1;
    }
    if i < list.len() && same_text(list[i].as_str(), name) {
        assert(given[i as int] == name@);
        return;
    }
    list.insert(i, name.to_owned());
    proof {
        let now = names(list@);
        assert(now =~= given.insert(i as int, name@));
        if i < given.len() {
            lemma_one_comes_before(given[i as int], name@);
        }
        assert forall|a: int, b: int| 0 <= a < b < now.len() implies comes_before(
            #[trigger] now[a],
            #[trigger] now[b],
        ) by {
            if a < i && b > i {
                assert(comes_before(given[a], given[b - 1]));
            } else if a == i {
                if b > i + 1 {
                    lemma_before_is_transitive(name@, given[i as int], given[b - 1]);
                }
            } else if a > i {
                assert(comes_before(given[a - 1], given[b - 1]));
            }
        }
        assert forall|s: Seq<char>| #[trigger] now.contains(s) <==> given.contains(s) || s
            == name@ by {
            if now.contains(s) {
                let k = choose|k: int| 0 <= k < now.len() && now[k] == s;
                if k < i {
                    assert(given[k] == s);
                } else if k > i {
                    assert(given[k - 1] == s);
                }
            }
            if given.contains(s) {
                let k = choose|k: int| 0 <= k < given.len() && given[k] == s;
                if k < i {
                    assert(now[k] == s);
                } else {
                    assert(now[k + 1] == s);
                }
            }
            if s == name@ {
                assert(now[i as int] == s);
            }
        }
    }
}

/// One of `types` is called `ty`.
pub open spec fn has_type(types: Seq<ModuleType>, ty: Seq<char>) -> bool {
    exists|i: int| 0 <= i < types.len() && (#[trigger] types[i]).type_id@ == ty
}

/// Adds the names of `types` to a list in order.
fn insert_types(list: &mut Vec<String>, types: &Vec<ModuleType>)
    requires
        in_order(names(old(list)@)),
    ensures
        in_order(names(final(list)@)),
        forall|s: Seq<char>| #[trigger]
            names(final(list)@).contains(s) <==> names(old(list)@).contains(s) || has_type(
                types@,
                s,
            ),
{
    let ghost given = names(list@);
    let mut i: usize = 0;
    while i < types.len()
        invariant
            i <= types@.len(),
            in_order(names(list@)),
            forall|s: Seq<char>| #[trigger]
                names(list@).contains(s) <==> given.contains(s) || has_type(
                    types@.take(i as int),
                    s,
                ),
        decreases types.len() - i,
    {
        insert_in_order(list, types[i].type_id.as_str());
        proof {
            let seen = types@.take(i as int);
            let now = types@.take(i + 1);
            assert forall|s: Seq<char>| #[trigger] has_type(now, s) <==> has_type(seen, s) || s
                == types@[i as int].type_id@ by {
                if has_type(now, s) {
                    let k = choose|k: int| 0 <= k < now.len() && (#[trigger] now[k]).type_id@ == s;
                    if k < i {
                        assert(seen[k].type_id@ == s);
                    }
                }
                if has_type(seen, s) {
                    let k = choose|k: int| 0 <= k < seen.len() && (#[trigger] seen[k]).type_id@ == s;
                    assert(now[k].type_id@ == s);
                }
                if s == types@[i as int].type_id@ {
                    assert(now[i as int].type_id@ == s);
                }
            }
            assert forall|s: Seq<char>| #[trigger] names(list@).contains(s) <==> given.contains(s)
                || has_type(now, s) by {
                assert(has_type(now, s) <==> has_type(seen, s) || s
                    == types@[i as int].type_id@);
            }
        }
        i += 1;
    }
    assert(types@.take(i as int) =~= types@);
}

/// The types that can be placed: all registered ones and the sink, in order, each once.
pub open spec fn is_palette(registry: Registry, list: Seq<Seq<char>>) -> bool {
    &&& in_order(list)
    &&& forall|s: Seq<char>| #[trigger]
        list.contains(s) <==> has_type(registry.modules@, s) || has_type(registry.sources@, s) || s
            == audio_output()
}

/// The types that can be placed.
pub fn palette_types(registry: &Registry) -> (r: Vec<String>)
    ensures
        is_palette(*registry, names(r@)),
{
    let mut list: Vec<String> = Vec::new();
    insert_types(&mut list, &registry.modules);
    insert_types(&mut list, &registry.sources);
    insert_in_order(&mut list, "audio_output");
    list
}

/// The palette is determined by the registered types.
pub proof fn law_palette_is_unique(registry: Registry, a: Seq<Seq<char>>, b: Seq<Seq<char>>)
    requires
        is_palette(registry, a),
        is_palette(registry, b),
    ensures
        a == b,
{
    assert forall|s: Seq<char>| #[trigger] a.contains(s) <==> b.contains(s) by {
        assert(a.contains(s) <==> has_type(registry.modules@, s) || has_type(
            registry.sources@,
            s,
        ) || s == audio_output());
        assert(b.contains(s) <==> has_type(registry.modules@, s) || has_type(
            registry.sources@,
            s,
        ) || s == audio_output());
    }
    lemma_same_order(a, b);
}

proof fn lemma_same_order(a: Seq<Seq<char>>, b: Seq<Seq<char>>)
    requires
        in_order(a),
        in_order(b),
        forall|s: Seq<char>| #[trigger] a.contains(s) <==> b.contains(s),
    ensures
        a == b,
    decreases a.len(),
{
    if a.len() == 0 {
        if b.len() > 0 {
            assert(b.contains(b[0]));
            assert(a.contains(b[0]));
        }
        assert(a =~= b);
    } else {
        assert(a[a.len() - 1] == a.last());
        assert(a.contains(a.last()));
        let k = choose|k: int| 0 <= k < b.len() && b[k] == a.last();
        assert(b[b.len() - 1] == b.last());
        assert(b.contains(b.last()));
        assert(a.contains(b.last()));
        let m = choose|m: int| 0 <= m < a.len() && a[m] == b.last();
        let last_a = a.len() - 1;
        let last_b = b.len() - 1;
        if k < last_b && m < last_a {
            assert(comes_before(b[k], b[last_b]));
            assert(comes_before(a[m], a[last_a]));
            lemma_before_is_transitive(a.last(), b.last(), a.last());
            lemma_one_comes_before(a.last(), a.last());
        }
        assert(a.last() == b.last());
        let x = a.drop_last();
        let y = b.drop_last();
        assert forall|s: Seq<char>| #[trigger] x.contains(s) <==> y.contains(s) by {
            lemma_one_comes_before(a.last(), a.last());
            if x.contains(s) {
                let i = choose|i: int| 0 <= i < x.len() && x[i] == s;
                assert(comes_before(a[i], a[last_a]));
                assert(a.contains(a[i]));
                let j = choose|j: int| 0 <= j < b.len() && b[j] == s;
                assert(j < last_b);
                assert(y[j] == s);
            }
            if y.contains(s) {
                let j = choose|j: int| 0 <= j < y.len() && y[j] == s;
                assert(comes_before(b[j], b[last_b]));
                assert(b.contains(b[j]));
                assert(a.contains(s));
                let i = choose|i: int| 0 <= i < a.len() && a[i] == s;
                assert(i < last_a);
                assert(x[i] == s);
            }
        }
        lemma_same_order(x, y);
        assert(a =~= x.push(a.last()));
        assert(b =~= y.push(b.last()));
    }
}

/// The label of the button that starts and stops the sound.
pub fn play_label(playing: bool) -> (r: String)
    ensures
        r@ == if playing {
            "Stop"@
        } else {
            "Play"@
        },
{
    if playing {
        "Stop".to_owned()
    } else {
        "Play".to_owned()
    }
}

/// The parts of the status bar: whether the sound plays; the status of the sound, if it says
/// more; the number of nodes; and what is hovered.
pub open spec fn status_parts(
    playing: bool,
    status: Seq<char>,
    nodes: nat,
    hover: Option<Seq<char>>,
) -> Seq<Seq<char>> {
    let state = if playing {
        "playing"@
    } else {
        "stopped"@
    };
    let first = if status == ""@ || status == "playing"@ || status == "stopped"@ {
        seq![state]
    } else {
        seq![state, status]
    };
    let count = first.push(decimal(nodes) + " nodes"@);
    match hover {
        Some(detail) => count.push(detail),
        None => count,
    }
}

/// The parts of the status bar.
pub fn status_line(
    playing: bool,
    status: &str,
    nodes: usize,
    hover: Option<&str>,
) -> (r: Vec<String>)
    ensures
        names(r@) == status_parts(
            playing,
            status@,
            nodes as nat,
            match hover {
                Some(detail) => Some(detail@),
                None => None,
            },
        ),
{
    let mut r: Vec<String> = Vec::new();
    let state: String = if playing {
        "playing".to_owned()
    } else {
        "stopped".to_owned()
    };
    r.push(state);
    if !same_text(status, "") && !same_text(status, "playing") && !same_text(status, "stopped") {
        r.push(status.to_owned());
    }
    let mut count: String = decimal_string(nodes as u64);
    count.append(" nodes");
    r.push(count);
    if let Some(detail) = hover {
        r.push(detail.to_owned());
    }
    assert(names(r@) =~= status_parts(
        playing,
        status@,
        nodes as nat,
        match hover {
            Some(detail) => Some(detail@),
            None => None,
        },
    ));
    r
}

/// What is hovered, in words.
pub open spec fn hover_words<P, W>(patch: Patch<P>, hover: Hover<W>) -> Option<Seq<char>> {
    match hover {
        Hover::Nothing => None,
        Hover::Node(id) => match node_with_id(patch.nodes@, id@) {
            Some(n) => Some("node  "@ + n.id + "  ("@ + n.ty + ")"@),
            None => None,
        },
        Hover::Port(p) => Some(
            if p.is_output {
                "output"@
            } else {
                "input"@
            } + "  "@ + p.node@ + "."@ + p.port@,
        ),
        Hover::Wire(i) => if i < patch.wires@.len() {
            let w = patch.wires@[i as int]@;
            Some("wire  "@ + w.0.0 + "."@ + w.0.1 + " -> "@ + w.1.0 + "."@ + w.1.1)
        } else {
            None
        },
    }
}

impl<P: Copy, W: Copy, S> Editor<P, W, S> {
    /// What is hovered, in words, for the status bar.
    pub fn hover_detail(&self) -> (r: Option<String>)
        ensures
            crate::hit::text(r) == hover_words(self.view.patch, self.hover),
    {
        match &self.hover {
            Hover::Nothing => None,
            Hover::Node(id) => {
                let nodes = &self.view.patch.nodes;
                let mut i: usize = 0;
                assert(nodes@.skip(0) =~= nodes@);
                while i < nodes.len()
                    invariant
                        i <= nodes@.len(),
                        node_with_id(nodes@, id@) == node_with_id(nodes@.skip(i as int), id@),
                        nodes@ == self.view.patch.nodes@,
                        self.hover == Hover::<W>::Node(*id),
                    decreases nodes.len() - i,
                {
                    if same_text(nodes[i].id.as_str(), id.as_str()) {
                        let mut r: String = "node  ".to_owned();
                        r.append(nodes[i].id.as_str());
                        r.append("  (");
                        r.append(nodes[i].ty.as_str());
                        r.append(")");
                        return Some(r);
                    }
                    assert(nodes@.skip(i as int).drop_first() =~= nodes@.skip(i + 1));
                    i += 1;
                }
                None
            },
            Hover::Port(p) => {
                let mut r: String = if p.is_output {
                    "output".to_owned()
                } else {
                    "input".to_owned()
                };
                r.append("  ");
                r.append(p.node.as_str());
                r.append(".");
                r.append(p.port.as_str());
                Some(r)
            },
            Hover::Wire(i) => {
                if *i >= self.view.patch.wires.len() {
                    return None;
                }
                let w = &self.view.patch.wires[*i];
                let mut r: String = "wire  ".to_owned();
                r.append(w.from.node());
                r.append(".");
                r.append(w.from.port());
                r.append(" -> ");
                r.append(w.to.node());
                r.append(".");
                r.append(w.to.port());
                Some(r)
            },
        }
    }
}

/// The state of the chrome: the dock tree, the canvas in it, and the palette.
pub struct Chrome {
    pub tree: Tree<Pane>,
    /// The tile of the canvas.
    pub canvas_id: u64,
    /// The tab tile of the palette in a default layout whose shares of the width are not set yet.
    pub unset_tab: Option<u64>,
    pub palette_types: Vec<String>,
}

/// The canvas was found in a container of tabs and the layout is the default one, or it was not and
/// nothing changed.
pub open spec fn was_rescued(before: Chrome, after: Chrome) -> bool {
    &&& after.palette_types == before.palette_types
    &&& exists|parent: Option<u64>|
        {
            &&& #[trigger] is_parent(tree_tiles(before.tree), before.canvas_id, parent)
            &&& if parent_is_tabs(tree_tiles(before.tree), parent) {
                after.is_default()
            } else {
                after == before
            }
        }
}

/// Only the panels that were not found in a container of tabs were wrapped in one.
pub open spec fn was_tabbed(before: Chrome, after: Chrome) -> bool {
    &&& exists|loose: Seq<u64>, inner: Seq<u64>| #[trigger]
        are_wrapped(tree_tiles(before.tree), tree_tiles(after.tree), loose, inner) && are_loose(
            tree_tiles(before.tree),
            loose,
        )
    &&& tree_root(after.tree) == tree_root(before.tree)
    &&& tree_name(after.tree) == tree_name(before.tree)
    &&& after.canvas_id == before.canvas_id
    &&& after.unset_tab == before.unset_tab
    &&& after.palette_types == before.palette_types
}

impl Chrome {
    /// The tile that is said to be the canvas is the canvas.
    pub open spec fn has_canvas(&self) -> bool {
        &&& tree_tiles(self.tree).contains_key(self.canvas_id)
        &&& tree_tiles(self.tree)[self.canvas_id] == DockTile::Pane(Pane::Canvas)
    }

    /// The dock has the default layout.
    pub open spec fn is_default(&self) -> bool {
        self.unset_tab matches Some(tab) && is_default_tree(self.tree, self.canvas_id, tab)
    }

    /// The default layout, and a palette of the types that can be placed.
    pub fn new(registry: &Registry) -> (r: Self)
        ensures
            r.is_default(),
            is_palette(*registry, names(r.palette_types@)),
    {
        let (tree, canvas_id, tab) = default_tree();
        Chrome { tree, canvas_id, unset_tab: Some(tab), palette_types: palette_types(registry) }
    }

    /// Goes back to the default layout.
    fn reset(&mut self)
        ensures
            final(self).is_default(),
            final(self).palette_types == old(self).palette_types,
    {
        let (tree, canvas_id, tab) = default_tree();
        self.tree = tree;
        self.canvas_id = canvas_id;
        self.unset_tab = Some(tab);
    }

    /// Whether the palette is shown.
    pub fn shows_palette(&self) -> (r: bool)
        ensures
            r == exists|id: u64| #[trigger]
                face_at(tree_tiles(self.tree), id) == Some(
                    Face::Pane(Pane::Palette),
                ),
    {
        palette_shown(&self.tree)
    }

    /// Shows or hides the palette by going back to the layout with it or to the one without.
    pub fn show_palette(&mut self, shown: bool)
        ensures
            shown ==> final(self).is_default(),
            !shown ==> is_canvas_tree(final(self).tree, final(self).canvas_id),
            !shown ==> final(self).unset_tab is None,
            final(self).palette_types == old(self).palette_types,
    {
        if shown {
            self.reset();
        } else {
            let (tree, canvas_id) = canvas_only_tree();
            self.tree = tree;
            self.canvas_id = canvas_id;
            self.unset_tab = None;
        }
    }

    /// Goes back to the default layout if the canvas is in a container of tabs, where it would get
    /// a tab bar. Afterwards it is in none, if it was in one container at most.
    pub fn rescue_canvas(&mut self)
        ensures
            was_rescued(*old(self), *final(self)),
            has_one_parent(tree_tiles(old(self).tree), old(self).canvas_id) ==> !is_tabbed(
                tree_tiles(final(self).tree),
                final(self).canvas_id,
            ),
    {
        if canvas_in_tabs(&self.tree, self.canvas_id) {
            self.reset();
            proof {
                law_new_layouts_are_sound(self.tree, self.canvas_id, self.unset_tab->0);
            }
        }
    }

    /// Wraps every panel that is not in a container of tabs in one.
    pub fn ensure_panels_tabbed(&mut self)
        requires
            has_room(
                tree_tiles(old(self).tree),
                tree_next_id(old(self).tree),
                tree_tiles(old(self).tree).dom().len(),
            ),
        ensures
            was_tabbed(*old(self), *final(self)),
            panels_tabbed(tree_tiles(final(self).tree)),
    {
        wrap_panels(&mut self.tree);
    }

    /// Puts the dock in order after the user may have dragged panels about: the canvas is rescued
    /// from tabs, then every panel gets a tab. Afterwards every panel is in a container of tabs,
    /// and the canvas, if it was in one container at most, is in none.
    pub fn settle(&mut self)
        requires
            has_room(
                tree_tiles(old(self).tree),
                tree_next_id(old(self).tree),
                tree_tiles(old(self).tree).dom().len(),
            ),
        ensures
            exists|mid: Chrome| #[trigger]
                was_rescued(*old(self), mid) && was_tabbed(mid, *final(self)),
            panels_tabbed(tree_tiles(final(self).tree)),
            final(self).palette_types == old(self).palette_types,
            old(self).has_canvas() ==> final(self).has_canvas(),
            old(self).has_canvas() && has_one_parent(
                tree_tiles(old(self).tree),
                old(self).canvas_id,
            ) ==> {
                &&& !is_tabbed(tree_tiles(final(self).tree), final(self).canvas_id)
                &&& has_one_parent(tree_tiles(final(self).tree), final(self).canvas_id)
            },
    {
        self.rescue_canvas();
        let ghost mid = *self;
        proof {
            assert(was_rescued(*old(self), mid));
            if mid.is_default() {
                law_new_layouts_have_room(mid.tree, mid.canvas_id, mid.unset_tab->0);
                law_new_layouts_are_sound(mid.tree, mid.canvas_id, mid.unset_tab->0);
            }
        }
        self.ensure_panels_tabbed();
        proof {
            let before = tree_tiles(mid.tree);
            let after = tree_tiles(self.tree);
            let (loose, inner) = choose|loose: Seq<u64>, inner: Seq<u64>| #[trigger]
                are_wrapped(before, after, loose, inner) && are_loose(before, loose);
            if mid.has_canvas() {
                law_wrapping_keeps_the_canvas_bare(before, after, loose, inner, mid.canvas_id);
            }
        }
    }
}

/// The title on the tab of a pane.
pub fn pane_title(pane: Pane) -> (r: String)
    ensures
        r@ == match pane {
            Pane::Canvas => "Canvas"@,
            Pane::Palette => "Modules"@,
        },
{
    match pane {
        Pane::Canvas => "Canvas".to_owned(),
        Pane::Palette => "Modules".to_owned(),
    }
}

} // verus!
