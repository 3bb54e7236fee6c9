//! The state of a meeting.
use std::time::{Duration, Instant};
use vstd::prelude::*;
use crate::meeting::chunk::{clock_reading, measured_since, now, time_since, took};

verus! {

/// Where a meeting stands.
#[derive(Clone, Copy, Debug)]
pub enum MeetingState {
    /// There is no meeting.
    Idle,
    /// The meeting is recorded.
    Active { started_at: Instant, chunks_processed: u32 },
    /// The meeting is paused.
    Paused { started_at: Instant, chunks_processed: u32 },
    /// The meeting is over and is being saved.
    Finalizing,
}

impl MeetingState {
    pub open spec fn chunks(self) -> u32 {
        match self {
            MeetingState::Active { chunks_processed, .. } => chunks_processed,
            MeetingState::Paused { chunks_processed, .. } => chunks_processed,
            _ => 0,
        }
    }

    /// A meeting that starts now.
    pub fn start() -> (r: Self)
        ensures
            r matches MeetingState::Active { started_at, chunks_processed } && clock_reading(
                started_at,
            ) && chunks_processed == 0,
    {
        MeetingState::Active { started_at: now(), chunks_processed: 0 }
    }

    pub fn is_idle(&self) -> (r: bool)
        ensures
            r == (self is Idle),
    {
        match self {
            MeetingState::Idle => true,
            _ => false,
        }
    }

    pub fn is_active(&self) -> (r: bool)
        ensures
            r == (self is Active),
    {
        match self {
            MeetingState::Active { .. } => true,
            _ => false,
        }
    }

    pub fn is_paused(&self) -> (r: bool)
        ensures
            r == (self is Paused),
    {
        match self {
            MeetingState::Paused { .. } => true,
            _ => false,
        }
    }

    pub fn is_finalizing(&self) -> (r: bool)
        ensures
            r == (self is Finalizing),
    {
        match self {
            MeetingState::Finalizing => true,
            _ => false,
        }
    }

    /// The state after a pause: only an active meeting is paused.
    pub open spec fn paused(self) -> MeetingState {
        match self {
            MeetingState::Active { started_at, chunks_processed } => MeetingState::Paused {
                started_at,
                chunks_processed,
            },
            other => other,
        }
    }

    /// Pauses an active meeting.
    pub fn pause(self) -> (r: Self)
        ensures
            r == self.paused(),
    {
        match self {
            MeetingState::Active { started_at, chunks_processed } => MeetingState::Paused {
                started_at,
                chunks_processed,
            },
            other => other,
        }
    }

    /// The state after going on: only a paused meeting goes on.
    pub open spec fn resumed(self) -> MeetingState {
        match self {
            MeetingState::Paused { started_at, chunks_processed } => MeetingState::Active {
                started_at,
                chunks_processed,
            },
            other => other,
        }
    }

    /// Goes on with a paused meeting.
    pub fn resume(self) -> (r: Self)
        ensures
            r == self.resumed(),
    {
        match self {
            MeetingState::Paused { started_at, chunks_processed } => MeetingState::Active {
                started_at,
                chunks_processed,
            },
            other => other,
        }
    }

    /// The state after the end of a meeting.
    pub open spec fn stopped(self) -> MeetingState {
        match self {
            MeetingState::Idle => MeetingState::Idle,
            _ => MeetingState::Finalizing,
        }
    }

    /// Ends a meeting.
    pub fn stop(self) -> (r: Self)
        ensures
            r == self.stopped(),
    {
        match self {
            MeetingState::Idle => MeetingState::Idle,
            _ => MeetingState::Finalizing,
        }
    }

    /// The state after a meeting that is over is saved.
    pub open spec fn finalized(self) -> MeetingState {
        match self {
            MeetingState::Finalizing => MeetingState::Idle,
            other => other,
        }
    }

    /// Leaves a meeting that is over.
    pub fn finalize(self) -> (r: Self)
        ensures
            r == self.finalized(),
    {
        match self {
            MeetingState::Finalizing => MeetingState::Idle,
            other => other,
        }
    }

    /// The state after one more chunk of an active meeting.
    pub open spec fn advanced(self) -> MeetingState {
        match self {
            MeetingState::Active { started_at, chunks_processed } => MeetingState::Active {
                started_at,
                chunks_processed: (chunks_processed + 1) as u32,
            },
            other => other,
        }
    }

    /// Counts a chunk of an active meeting.
    pub fn next_chunk(self) -> (r: Self)
        requires
            self is Active ==> self.chunks() < u32::MAX,
        ensures
            r == self.advanced(),
    {
        match self {
            MeetingState::Active { started_at, chunks_processed } => MeetingState::Active {
                started_at,
                chunks_processed: chunks_processed + 1,
            },
            other => other,
        }
    }

    /// The number of chunks processed.
    pub fn chunks_processed(&self) -> (r: u32)
        ensures
            r == self.chunks(),
    {
        match self {
            MeetingState::Active { chunks_processed, .. } => *chunks_processed,
            MeetingState::Paused { chunks_processed, .. } => *chunks_processed,
            _ => 0,
        }
    }

    /// The time since the meeting started; nothing where none goes on.
    pub fn elapsed(&self) -> (r: Option<Duration>)
        ensures
            match *self {
                MeetingState::Active { started_at, .. } => r matches Some(d) && measured_since(
                    started_at,
                    d,
                ),
                MeetingState::Paused { started_at, .. } => r matches Some(d) && measured_since(
                    started_at,
                    d,
                ),
                _ => r is None,
            },
    {
        match self {
            MeetingState::Active { started_at, .. } => Some(time_since(started_at)),
            MeetingState::Paused { started_at, .. } => Some(time_since(started_at)),
            _ => None,
        }
    }
}

/// `elapsed` is a time in milliseconds that the clock measured since the meeting started;
/// nothing where none goes on.
pub open spec fn ran_for(state: MeetingState, elapsed: Option<u64>) -> bool {
    match state {
        MeetingState::Active { started_at, .. } => elapsed matches Some(ms) && took(
            started_at,
            ms,
        ),
        MeetingState::Paused { started_at, .. } => elapsed matches Some(ms) && took(
            started_at,
            ms,
        ),
        _ => elapsed is None,
    }
}

/// Going on with a paused meeting undoes the pause.
pub proof fn law_resume_undoes_pause(s: MeetingState)
    requires
        s is Active,
    ensures
        s.paused() is Paused,
        s.paused().resumed() == s,
{
}

/// A meeting can be ended in every state, and is then left for good.
pub proof fn law_stop_leads_to_idle(s: MeetingState)
    ensures
        s.stopped().finalized() is Idle,
        !(s is Idle) ==> s.stopped() is Finalizing,
{
}

/// Pausing and going on keep the number of chunks.
pub proof fn law_pause_keeps_chunks(s: MeetingState)
    ensures
        s.paused().chunks() == s.chunks(),
        s.resumed().chunks() == s.chunks(),
{
}

/// Counting a chunk adds one to the number of an active meeting and keeps when it started; in
/// every other state nothing is counted.
pub proof fn law_only_active_meetings_count(s: MeetingState)
    requires
        s.chunks() < u32::MAX,
    ensures
        s is Active ==> s.advanced() is Active && s.advanced().chunks() == s.chunks() + 1
            && s.advanced()->Active_started_at == s->Active_started_at,
        !(s is Active) ==> s.advanced() == s,
{
}

/// What is asked for in the wrong state changes nothing: pausing what is not active, going on
/// with what is not paused, ending what has not begun, leaving what is not over.
pub proof fn law_out_of_turn_changes_nothing(s: MeetingState)
    ensures
        !(s is Active) ==> s.paused() == s,
        !(s is Paused) ==> s.resumed() == s,
        s is Idle ==> s.stopped() == s,
        !(s is Finalizing) ==> s.finalized() == s,
{
}

} // verus!
