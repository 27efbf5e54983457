//! Structured events emitted by one `step`, and the turn status it returns.
//!
//! The simulation never produces text or animation frames; views replay these events.
use vstd::prelude::*;

verus! {

/// Events accumulated, in order, during one `step`.
#[derive(Clone, Copy, Debug, PartialEq, Eq)]
pub enum Event {
    Damaged { id: u32, amt: i32 },
    Died { id: u32 },
    Moved { id: u32, from: (i32, i32), to: (i32, i32) },
    SpellCast { id: u32, spell: &'static str },
    ChannelInterrupted { id: u32 },
    Stunned { id: u32 },
    HasteGained { id: u32 },
    Healed { id: u32, amt: i32 },
}

/// Turn status returned by `step`.
#[derive(Clone, Copy, Debug, PartialEq, Eq, Structural)]
pub enum Status {
    /// The mage is to act, with no auto-walk and no pending release.
    AwaitingInput,
    /// A charged spell survived its wind-up; the mage stands on the release turn.
    AwaitingRelease,
    /// A non-boss room was cleared and another room follows: offer a pick.
    PickOffered,
    /// The golem died, or the base raid succeeded.
    RunComplete,
    /// The mage has no hit points left.
    Defeat,
}

} // verus!
