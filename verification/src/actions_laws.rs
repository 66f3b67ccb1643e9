//! What keys and the chrome do to the editor, field by field.

use vstd::prelude::*;

use crate::actions::{
    acted, can_act, takes_effect, tidied, toggled, ChromeAction, KeyPress,
};
use crate::audio::{was_toggled, StartError};
use crate::edit::node_added;
use crate::editor::{sound_follows, Editor};
use crate::graph::{GraphView, Microns};
use crate::layout::rearranged;
use crate::model::{Patch, Registry};

verus! {

/// The drag, the cursor and the icons are the same.
pub open spec fn keeps_drag_and_icons<P, W, S>(
    before: Editor<P, W, S>,
    after: Editor<P, W, S>,
) -> bool {
    &&& after.drag == before.drag
    &&& after.cursor == before.cursor
    &&& after.icons == before.icons
    &&& after.icon_index == before.icon_index
}

/// A key counts when it goes down: not when it goes up, not again while it is held, and not when a
/// text field takes it.
pub proof fn law_keys_count_once(press: KeyPress)
    ensures
        takes_effect(press) ==> press.pressed,
        takes_effect(press) ==> !press.repeat,
        takes_effect(press) ==> !press.captured,
        press.pressed && !press.repeat && !press.captured ==> takes_effect(press),
{
}

/// Toggling the sound touches nothing but the sound.
pub proof fn law_toggling_touches_the_sound_alone<
    P,
    W,
    S,
    O: Fn(&Patch<P>, &Registry) -> Result<S, StartError>,
>(open: O, before: Editor<P, W, S>, after: Editor<P, W, S>)
    requires
        toggled(open, before, after),
    ensures
        keeps_drag_and_icons(before, after),
        after.hover == before.hover,
        after.view.patch == before.view.patch,
        after.view.registry == before.view.registry,
        was_toggled(before.audio, after.audio, after.view.patch, after.view.registry, open),
{
}

/// Arranging touches nothing but the layout.
pub proof fn law_arranging_touches_the_layout_alone<P, W, S, F: Fn(Microns) -> P>(
    spot: F,
    before: Editor<P, W, S>,
    after: Editor<P, W, S>,
)
    requires
        tidied(spot, before, after),
    ensures
        keeps_drag_and_icons(before, after),
        after.hover == before.hover,
        after.audio == before.audio,
        after.view.patch.nodes == before.view.patch.nodes,
        after.view.patch.wires == before.view.patch.wires,
        after.view.registry == before.view.registry,
        rearranged(spot, before.view, after.view),
{
}

/// What the chrome asks for is done: the sound is toggled, the nodes are arranged, a node is added,
/// the patch is emptied and the sound stopped, or another patch is taken over, arranged if it has
/// no layout. Saving, quitting and a file that cannot be read change nothing. The icons are to be
/// collected again exactly where the nodes may have changed.
pub proof fn law_chrome_is_obeyed<
    P,
    W,
    S,
    F: Fn(Microns) -> P,
    O: Fn(&Patch<P>, &Registry) -> Result<S, StartError>,
>(
    spot: F,
    open: O,
    action: ChromeAction<P>,
    before: Editor<P, W, S>,
    after: Editor<P, W, S>,
    retype: bool,
)
    requires
        acted(spot, open, action, before, after, retype),
    ensures
        keeps_drag_and_icons(before, after),
        after.view.registry == before.view.registry,
        retype == (action is AddNode || action is New || (action is Open && action->Open_0 is Ok)),
        action is Save || action is Quit || (action is Open && action->Open_0 is Err) ==> {
            &&& after.view == before.view
            &&& after.audio == before.audio
            &&& after.hover == before.hover
        },
        action is ToggleAudio ==> {
            &&& after.view == before.view
            &&& after.hover == before.hover
            &&& was_toggled(
                before.audio,
                after.audio,
                after.view.patch,
                after.view.registry,
                open,
            )
        },
        action is Arrange ==> {
            &&& rearranged(spot, before.view, after.view)
            &&& after.hover == before.hover
            &&& after.audio == before.audio
        },
        action matches ChromeAction::AddNode { ty, center } ==> {
            &&& exists|id: Seq<char>| #[trigger]
                node_added(before.view, after.view, ty@, center, id)
            &&& after.hover == before.hover
            &&& sound_follows(open, before, after, true)
        },
        action is New ==> {
            &&& after.view.patch.nodes@.len() == 0
            &&& after.view.patch.wires@.len() == 0
            &&& forall|id: Seq<char>| !(#[trigger] after.view.patch.layout@.contains_key(id))
            &&& after.hover is Nothing
            &&& after.audio.stream is None
            &&& !after.audio.playing
            &&& after.audio.status@ == "stopped"@
        },
        action matches ChromeAction::Open(Ok(patch)) ==> {
            &&& after.hover is Nothing
            &&& sound_follows(open, before, after, true)
            &&& after.view.patch.nodes == patch.nodes
            &&& after.view.patch.wires == patch.wires
            &&& (exists|id: Seq<char>| #[trigger] patch.layout@.contains_key(id))
                ==> after.view.patch.layout == patch.layout
            &&& (forall|id: Seq<char>| !(#[trigger] patch.layout@.contains_key(id))) ==> rearranged(
                spot,
                GraphView { patch, registry: before.view.registry },
                after.view,
            )
        },
{
    if let ChromeAction::Open(Ok(patch)) = action {
        if forall|id: Seq<char>| !(#[trigger] patch.layout@.contains_key(id)) {
            assert(patch.layout@ =~= Map::<Seq<char>, P>::empty());
        }
    }
}

/// All but arranging, adding and opening is always possible; these only need that the nodes, of
/// which no machine has so many, can be counted.
pub proof fn law_chrome_can_be_obeyed<P, W, S>(action: ChromeAction<P>, editor: Editor<P, W, S>)
    ensures
        !(action is Arrange || action is AddNode || action is Open) ==> can_act(action, editor),
        action is Open && action->Open_0 is Err ==> can_act(action, editor),
        editor.view.patch.nodes@.len() <= 0x1_0000_0000_0000 && action is Arrange ==> can_act(
            action,
            editor,
        ),
        editor.view.patch.nodes@.len() < usize::MAX && action is AddNode ==> can_act(
            action,
            editor,
        ),
        action matches ChromeAction::Open(Ok(patch)) ==> (patch.wf() && patch.nodes@.len()
            <= 0x1_0000_0000_0000 ==> can_act(action, editor)),
{
}

} // verus!
