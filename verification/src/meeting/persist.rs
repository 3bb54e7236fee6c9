//! Storing a meeting.
//!
//! The store is outside: the step says what to store next, given what came of the last one.
use vstd::prelude::*;
use crate::meeting::data::{MeetingData, MeetingId, MeetingMetadata, Transcript};

verus! {

/// What came of the last step when a meeting is stored.
#[derive(Debug)]
pub enum PersistEvent {
    /// Nothing was stored yet.
    Begin,
    /// The transcript was stored, or why it could not be.
    TranscriptSaved(Result<(), String>),
    /// The metadata was stored, or why it could not be.
    MetadataUpdated(Result<(), String>),
}

/// What to do next when a meeting is stored.
#[derive(Debug)]
pub enum PersistAction<'a> {
    /// Store the transcript.
    SaveTranscript { id: &'a MeetingId, transcript: &'a Transcript },
    /// Store the metadata.
    UpdateMetadata { metadata: &'a MeetingMetadata },
    /// Return this.
    Return(Result<(), String>),
}

/// `action` is done next when a meeting is stored: first the transcript, then the metadata;
/// the first failure is what is returned.
pub open spec fn persists(meeting: MeetingData, event: PersistEvent, action: PersistAction) -> bool {
    match event {
        PersistEvent::Begin => action matches PersistAction::SaveTranscript { id, transcript }
            && *id == meeting.metadata.id && *transcript == meeting.transcript,
        PersistEvent::TranscriptSaved(Ok(_)) => action matches PersistAction::UpdateMetadata {
            metadata,
        } && *metadata == meeting.metadata,
        PersistEvent::TranscriptSaved(Err(e)) => action matches PersistAction::Return(r) && r
            == Err::<(), String>(e),
        PersistEvent::MetadataUpdated(result) => action matches PersistAction::Return(r) && r
            == result,
    }
}

/// Says what to do next to store a meeting.
pub fn persist_step<'a>(meeting: &'a MeetingData, event: PersistEvent) -> (r: PersistAction<'a>)
    ensures
        persists(*meeting, event, r),
{
    match event {
        PersistEvent::Begin => PersistAction::SaveTranscript {
            id: &meeting.metadata.id,
            transcript: &meeting.transcript,
        },
        PersistEvent::TranscriptSaved(Ok(_)) => PersistAction::UpdateMetadata {
            metadata: &meeting.metadata,
        },
        PersistEvent::TranscriptSaved(Err(e)) => PersistAction::Return(Err(e)),
        PersistEvent::MetadataUpdated(result) => PersistAction::Return(result),
    }
}

} // verus!
