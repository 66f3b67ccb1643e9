//! What keys and the controls of the chrome do.

use vstd::prelude::*;

use crate::audio::{is_stopped, was_toggled, StartError};
use crate::edit::node_added;
use crate::editor::{sound_follows, Editor, Hover};
use crate::graph::{GraphView, Microns};
use crate::layout::{autolayout_full, can_lay_out, rearranged};
use crate::model::{Patch, Registry};

verus! {

/// A key that does something, or any other.
#[derive(Debug)]
pub enum Key {
    Space,
    L,
    Other,
}

/// A change of a key.
#[derive(Debug)]
pub struct KeyPress {
    pub key: Key,
    /// It went down, not up.
    pub pressed: bool,
    /// It was held down already.
    pub repeat: bool,
    /// A text field takes the key.
    pub captured: bool,
}

/// Something that the chrome asks for. What is read from files, and where on the canvas a position
/// is, comes with it.
pub enum ChromeAction<P> {
    ToggleAudio,
    Arrange,
    /// A module type was dropped from the palette onto the canvas.
    AddNode { ty: String, center: P },
    New,
    /// A patch was read from a file, or why it could not be.
    Open(Result<Patch<P>, String>),
    Save,
    Quit,
}

/// Everything but the patch and the sound is the same.
pub open spec fn same_pointer<P, W, S>(a: Editor<P, W, S>, b: Editor<P, W, S>) -> bool {
    &&& a.drag == b.drag
    &&& a.cursor == b.cursor
    &&& a.icons == b.icons
    &&& a.icon_index == b.icon_index
}

/// Only the sound was toggled.
pub open spec fn toggled<P, W, S, O: Fn(&Patch<P>, &Registry) -> Result<S, StartError>>(
    open: O,
    before: Editor<P, W, S>,
    after: Editor<P, W, S>,
) -> bool {
    &&& same_pointer(before, after)
    &&& after.hover == before.hover
    &&& after.view == before.view
    &&& was_toggled(
        before.audio,
        after.audio,
        before.view.patch,
        before.view.registry,
        open,
    )
}

/// Only the nodes were arranged anew.
pub open spec fn tidied<P, W, S, F: Fn(Microns) -> P>(
    spot: F,
    before: Editor<P, W, S>,
    after: Editor<P, W, S>,
) -> bool {
    &&& same_pointer(before, after)
    &&& after.hover == before.hover
    &&& after.audio == before.audio
    &&& rearranged(spot, before.view, after.view)
}

/// The key does something: it went down just now, and no text field takes it.
pub open spec fn takes_effect(press: KeyPress) -> bool {
    press.pressed && !press.repeat && !press.captured
}

/// What an action does. `retype` says that the types of the nodes may have changed.
pub open spec fn acted<
    P,
    W,
    S,
    F: Fn(Microns) -> P,
    O: Fn(&Patch<P>, &Registry) -> Result<S, StartError>,
>(
    spot: F,
    open: O,
    action: ChromeAction<P>,
    before: Editor<P, W, S>,
    after: Editor<P, W, S>,
    retype: bool,
) -> bool {
    match action {
        ChromeAction::ToggleAudio => !retype && toggled(open, before, after),
        ChromeAction::Arrange => !retype && tidied(spot, before, after),
        ChromeAction::AddNode { ty, center } => {
            &&& retype
            &&& same_pointer(before, after)
            &&& after.hover == before.hover
            &&& exists|id: Seq<char>| #[trigger]
                node_added(before.view, after.view, ty@, center, id)
            &&& sound_follows(open, before, after, true)
        },
        ChromeAction::New => {
            &&& retype
            &&& same_pointer(before, after)
            &&& after.hover == Hover::<W>::Nothing
            &&& after.view.registry == before.view.registry
            &&& after.view.patch.nodes@.len() == 0
            &&& after.view.patch.wires@.len() == 0
            &&& after.view.patch.layout@ == Map::<Seq<char>, P>::empty()
            &&& is_stopped(after.audio)
        },
        ChromeAction::Open(Ok(patch)) => {
            &&& retype
            &&& same_pointer(before, after)
            &&& after.hover == Hover::<W>::Nothing
            &&& if patch.layout@ == Map::<Seq<char>, P>::empty() {
                rearranged(
                    spot,
                    GraphView { patch, registry: before.view.registry },
                    after.view,
                )
            } else {
                after.view == (GraphView { patch, registry: before.view.registry })
            }
            &&& sound_follows(open, before, after, true)
        },
        ChromeAction::Open(Err(_)) => !retype && after == before,
        ChromeAction::Save => !retype && after == before,
        ChromeAction::Quit => !retype && after == before,
    }
}

/// The patch is small enough for what the action does to it.
pub open spec fn can_act<P, W, S>(action: ChromeAction<P>, editor: Editor<P, W, S>) -> bool {
    match action {
        ChromeAction::Arrange => can_lay_out(editor.view.patch.nodes@.len()),
        ChromeAction::AddNode { .. } => editor.view.patch.nodes@.len() < usize::MAX,
        ChromeAction::Open(Ok(patch)) => patch.wf() && can_lay_out(patch.nodes@.len()),
        _ => true,
    }
}

impl<P: Copy, W: Copy, S> Editor<P, W, S> {
    /// Space starts and stops the sound, L arranges the nodes. The result says whether the key did
    /// something.
    pub fn on_key<
        F: Fn(Microns) -> P,
        O: Fn(&Patch<P>, &Registry) -> Result<S, StartError>,
    >(&mut self, press: &KeyPress, spot: &F, open: &O) -> (r: bool)
        requires
            old(self).wf(),
            press.key is L ==> can_lay_out(old(self).view.patch.nodes@.len()),
            forall|m: Microns| #[trigger] spot.requires((m,)),
            forall|p: &Patch<P>, r: &Registry| #[trigger] open.requires((p, r)),
        ensures
            final(self).wf(),
            r == (takes_effect(*press) && !(press.key is Other)),
            if !r {
                *final(self) == *old(self)
            } else if press.key is Space {
                toggled(*open, *old(self), *final(self))
            } else {
                tidied(*spot, *old(self), *final(self))
            },
    {
        if !press.pressed || press.repeat || press.captured {
            return false;
        }
        match press.key {
            Key::Space => {
                self.audio.toggle(&self.view.patch, &self.view.registry, open);
                true
            },
            Key::L => {
                autolayout_full(&mut self.view, spot);
                true
            },
            Key::Other => false,
        }
    }

    /// Does what the chrome asks for, but for files and the window. The result says whether the
    /// types of the nodes may have changed, so that the icons are to be collected again.
    pub fn apply_action<
        F: Fn(Microns) -> P,
        O: Fn(&Patch<P>, &Registry) -> Result<S, StartError>,
    >(&mut self, action: ChromeAction<P>, spot: &F, open: &O) -> (r: bool)
        requires
            old(self).wf(),
            can_act(action, *old(self)),
            forall|m: Microns| #[trigger] spot.requires((m,)),
            forall|p: &Patch<P>, r: &Registry| #[trigger] open.requires((p, r)),
        ensures
            final(self).wf(),
            acted(*spot, *open, action, *old(self), *final(self), r),
    {
        match action {
            ChromeAction::ToggleAudio => {
                self.audio.toggle(&self.view.patch, &self.view.registry, open);
                false
            },
            ChromeAction::Arrange => {
                autolayout_full(&mut self.view, spot);
                false
            },
            ChromeAction::AddNode { ty, center } => {
                self.view.add_node(ty.as_str(), center);
                self.audio.rebuild_if_playing(&self.view.patch, &self.view.registry, open);
                true
            },
            ChromeAction::New => {
                self.view.patch = Patch::empty();
                self.hover = Hover::Nothing;
                self.audio.stop();
                true
            },
            ChromeAction::Open(Ok(patch)) => {
                self.view.patch = patch;
                if self.view.patch.layout.is_empty() {
                    autolayout_full(&mut self.view, spot);
                }
                self.hover = Hover::Nothing;
                self.audio.rebuild_if_playing(&self.view.patch, &self.view.registry, open);
                true
            },
            ChromeAction::Open(Err(_)) => false,
            ChromeAction::Save => false,
            ChromeAction::Quit => false,
        }
    }
}

} // verus!
