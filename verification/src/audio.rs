//! Starting and stopping the sound.
//!
//! Building the engine and opening the device is done by a function of the caller; what it gives
//! back, of a type `S` that is only carried, plays until it is dropped.

use vstd::prelude::*;
use vstd::string::StringExecFns;

use crate::model::{Patch, Registry};

verus! {

/// Why the sound did not start.
#[derive(Debug)]
pub enum StartError {
    /// The engine could not be built from the patch.
    Build(String),
    /// The device could not be opened.
    Device(String),
}

impl StartError {
    /// The error in words.
    pub open spec fn words(&self) -> Seq<char> {
        match self {
            StartError::Build(e) => "build error: "@ + e@,
            StartError::Device(e) => "audio error: "@ + e@,
        }
    }

    /// The error in words.
    pub fn message(&self) -> (r: String)
        ensures
            r@ == self.words(),
    {
        match self {
            StartError::Build(e) => {
                let mut r: String = "build error: ".to_owned();
                r.append(e.as_str());
                r
            },
            StartError::Device(e) => {
                let mut r: String = "audio error: ".to_owned();
                r.append(e.as_str());
                r
            },
        }
    }
}

/// The sound that plays, if any, and a status line.
pub struct Audio<S> {
    pub stream: Option<S>,
    pub playing: bool,
    pub status: String,
}

/// The sound stopped: nothing plays, and the status says so.
pub open spec fn is_stopped<S>(audio: Audio<S>) -> bool {
    &&& audio.stream is None
    &&& !audio.playing
    &&& audio.status@ == "stopped"@
}

/// An attempt to start the sound ended with `outcome`: it plays, or nothing does, and the status
/// says which.
pub open spec fn has_settled<S>(audio: Audio<S>, outcome: Result<S, StartError>) -> bool {
    match outcome {
        Ok(stream) => {
            &&& audio.stream == Some(stream)
            &&& audio.playing
            &&& audio.status@ == "playing"@
        },
        Err(e) => {
            &&& audio.stream is None
            &&& !audio.playing
            &&& audio.status@ == e.words()
        },
    }
}

/// An attempt to start the sound for the patch was made with `open`.
pub open spec fn was_started<P, S, O: Fn(&Patch<P>, &Registry) -> Result<S, StartError>>(
    audio: Audio<S>,
    patch: Patch<P>,
    registry: Registry,
    open: O,
) -> bool {
    exists|outcome: Result<S, StartError>|
        open.ensures((&patch, &registry), outcome) && #[trigger] has_settled(audio, outcome)
}

/// The sound was stopped if it played, and an attempt to start it was made otherwise.
pub open spec fn was_toggled<P, S, O: Fn(&Patch<P>, &Registry) -> Result<S, StartError>>(
    before: Audio<S>,
    after: Audio<S>,
    patch: Patch<P>,
    registry: Registry,
    open: O,
) -> bool {
    if before.playing {
        is_stopped(after)
    } else {
        was_started(after, patch, registry, open)
    }
}

impl<S> Default for Audio<S> {
    /// Nothing plays yet.
    fn default() -> (r: Self)
        ensures
            r.wf(),
            r.stream is None,
            !r.playing,
            r.status@ == ""@,
    {
        Audio { stream: None, playing: false, status: "".to_owned() }
    }
}

impl<S> Audio<S> {
    /// It is playing if and only if something plays.
    pub open spec fn wf(&self) -> bool {
        self.playing == (self.stream is Some)
    }

    /// Stops the sound if it plays, starts it otherwise.
    pub fn toggle<P, O: Fn(&Patch<P>, &Registry) -> Result<S, StartError>>(
        &mut self,
        patch: &Patch<P>,
        registry: &Registry,
        open: &O,
    )
        requires
            open.requires((patch, registry)),
        ensures
            final(self).wf(),
            was_toggled(*old(self), *final(self), *patch, *registry, *open),
    {
        if self.playing {
            self.stop();
        } else {
            self.start(patch, registry, open);
        }
    }

    /// Starts the sound for the patch: what plays is released first, then `open` is asked for a
    /// new stream.
    pub fn start<P, O: Fn(&Patch<P>, &Registry) -> Result<S, StartError>>(
        &mut self,
        patch: &Patch<P>,
        registry: &Registry,
        open: &O,
    )
        requires
            open.requires((patch, registry)),
        ensures
            final(self).wf(),
            was_started(*final(self), *patch, *registry, *open),
    {
        self.stream = None;
        let outcome = open(patch, registry);
        self.settle(outcome);
    }

    /// Takes over how an attempt to start the sound ended.
    pub fn settle(&mut self, outcome: Result<S, StartError>)
        ensures
            final(self).wf(),
            has_settled(*final(self), outcome),
    {
        match outcome {
            Ok(stream) => {
                self.stream = Some(stream);
                self.playing = true;
                self.status = "playing".to_owned();
            },
            Err(e) => {
                self.stream = None;
                self.playing = false;
                self.status = e.message();
            },
        }
    }

    /// Stops the sound.
    pub fn stop(&mut self)
        ensures
            final(self).wf(),
            is_stopped(*final(self)),
    {
        self.stream = None;
        self.playing = false;
        self.status = "stopped".to_owned();
    }

    /// Starts the sound anew if it plays, so that it follows an edit of the patch.
    pub fn rebuild_if_playing<P, O: Fn(&Patch<P>, &Registry) -> Result<S, StartError>>(
        &mut self,
        patch: &Patch<P>,
        registry: &Registry,
        open: &O,
    )
        requires
            open.requires((patch, registry)),
        ensures
            old(self).wf() ==> final(self).wf(),
            !old(self).playing ==> *final(self) == *old(self),
            old(self).playing ==> was_started(*final(self), *patch, *registry, *open),
    {
        if self.playing {
            self.start(patch, registry, open);
        }
    }
}

} // verus!
