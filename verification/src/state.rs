//! Playback state shared by the player, the decoders and the alignment loop.
use vstd::prelude::*;

verus! {

/// Playback state.
#[derive(PartialEq, Eq, Structural, Debug, Clone, Copy)]
pub enum GluResourceState {
    Start,
    Stop,
    Pause,
}

impl GluResourceState {
    /// The state after the pause control: playing pauses, paused plays, and a
    /// stopped player stays stopped.
    pub open spec fn spec_toggled(self) -> GluResourceState {
        match self {
            GluResourceState::Start => GluResourceState::Pause,
            GluResourceState::Pause => GluResourceState::Start,
            GluResourceState::Stop => GluResourceState::Stop,
        }
    }

    /// The state after the pause control.
    pub fn toggled(self) -> (r: GluResourceState)
        ensures
            r == self.spec_toggled(),
    {
        if self == GluResourceState::Start {
            GluResourceState::Pause
        } else if self == GluResourceState::Pause {
            GluResourceState::Start
        } else {
            self
        }
    }
}

/// The pause control undoes itself: pressed twice it restores a playing or
/// paused player, and a stopped player stays stopped.
pub proof fn lemma_pause_twice_restores(s: GluResourceState)
    ensures
        s.spec_toggled().spec_toggled() == s,
        s == GluResourceState::Stop ==> s.spec_toggled() == GluResourceState::Stop,
        s != GluResourceState::Stop ==> s.spec_toggled() != s,
{
}

/// Refreshes a thread's copy of the playback state from what it observed of
/// the shared state (`None`: the shared state is gone; `Some(None)`: it could
/// not be read just now; `Some(Some(s))`: it reads `s`), and answers whether
/// the thread should quit: when the shared state is gone or the state is `Stop`.
pub fn peek_state(local_state: &mut GluResourceState, observed: Option<Option<GluResourceState>>) -> (quit: bool)
    ensures
        observed is None ==> quit && *final(local_state) == *old(local_state),
        observed == Some(None::<GluResourceState>) ==> *final(local_state) == *old(local_state)
            && quit == (*old(local_state) == GluResourceState::Stop),
        observed matches Some(Some(s)) ==> *final(local_state) == s && quit == (s
            == GluResourceState::Stop),
{
    match observed {
        None => true,
        Some(read) => {
            if let Some(s) = read {
                *local_state = s;
            }
            *local_state == GluResourceState::Stop
        },
    }
}

/// Commands to a decoder.
#[derive(PartialEq, Eq, Structural, Debug, Clone, Copy)]
pub enum GluResourceCommand {
    Stop,
    Start,
    Pause,
    Seek(i64),
}

impl GluResourceCommand {
    pub fn stop() -> (r: Self)
        ensures
            r == GluResourceCommand::Stop,
    {
        GluResourceCommand::Stop
    }

    pub fn start() -> (r: Self)
        ensures
            r == GluResourceCommand::Start,
    {
        GluResourceCommand::Start
    }

    pub fn pause() -> (r: Self)
        ensures
            r == GluResourceCommand::Pause,
    {
        GluResourceCommand::Pause
    }

    pub fn seek(timestamp: i64) -> (r: Self)
        ensures
            r == GluResourceCommand::Seek(timestamp),
    {
        GluResourceCommand::Seek(timestamp)
    }
}

} // verus!
