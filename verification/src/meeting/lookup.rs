//! Looking up stored meetings.
//!
//! The store is outside: each function says what to ask of it next, given what came of the
//! last question.
use vstd::prelude::*;
use crate::meeting::data::{MeetingData, MeetingId, MeetingMetadata};
use crate::meeting::{MeetingConfig, StorageConfig};

verus! {

/// Why the store could not answer.
#[derive(Debug)]
pub enum StorageError {
    /// There is no such meeting.
    NotFound(String),
    /// Reading or writing failed.
    Io(String),
    /// Anything else.
    Other(String),
}

/// What came of the last question when meetings are listed.
#[derive(Debug)]
pub enum ListEvent {
    /// Nothing was asked yet.
    Begin,
    /// The store was opened, or could not be.
    Opened(Result<(), StorageError>),
    /// The store listed meetings, or could not.
    Listed(Result<Vec<MeetingMetadata>, StorageError>),
}

/// What to do next when meetings are listed.
#[derive(Debug)]
pub enum ListAction {
    /// Open the store.
    Open(StorageConfig),
    /// List meetings, at most so many.
    List(Option<u32>),
    /// Return this.
    Return(Result<Vec<MeetingMetadata>, StorageError>),
}

/// What is done next when meetings are listed: the configured store is opened, then asked;
/// the first failure is what is returned.
pub open spec fn list_step(config: MeetingConfig, limit: Option<u32>, event: ListEvent) -> ListAction {
    match event {
        ListEvent::Begin => ListAction::Open(config.storage),
        ListEvent::Opened(Ok(_)) => ListAction::List(limit),
        ListEvent::Opened(Err(e)) => ListAction::Return(Err(e)),
        ListEvent::Listed(r) => ListAction::Return(r),
    }
}

/// List meetings from storage.
pub fn list_meetings(config: &MeetingConfig, limit: Option<u32>, event: ListEvent) -> (r: ListAction)
    ensures
        r == list_step(*config, limit, event),
{
    match event {
        ListEvent::Begin => ListAction::Open(config.storage.clone()),
        ListEvent::Opened(Ok(_)) => ListAction::List(limit),
        ListEvent::Opened(Err(e)) => ListAction::Return(Err(e)),
        ListEvent::Listed(r) => ListAction::Return(r),
    }
}

/// What came of the last question when a meeting is looked up.
#[derive(Debug)]
pub enum GetEvent {
    /// Nothing was asked yet.
    Begin,
    /// The store was opened, or could not be.
    Opened(Result<(), StorageError>),
    /// The store found which meeting is meant, or could not.
    Resolved(Result<MeetingId, StorageError>),
    /// The store loaded the meeting, or could not.
    Loaded(Result<MeetingData, StorageError>),
}

/// What to do next when a meeting is looked up.
#[derive(Debug)]
pub enum GetAction {
    /// Open the store.
    Open(StorageConfig),
    /// Find which meeting is meant.
    Resolve(String),
    /// Load the meeting.
    Load(MeetingId),
    /// Return this.
    Return(Result<MeetingData, StorageError>),
}

/// `action` is done next when the meeting that `id` means is looked up: the configured
/// store is opened, asked which meeting is meant, and loads it; the first failure is what
/// is returned.
pub open spec fn gets(config: MeetingConfig, id: Seq<char>, event: GetEvent, action: GetAction) -> bool {
    match event {
        GetEvent::Begin => action == GetAction::Open(config.storage),
        GetEvent::Opened(Ok(_)) => action matches GetAction::Resolve(text) && text@ == id,
        GetEvent::Opened(Err(e)) => action == GetAction::Return(Err(e)),
        GetEvent::Resolved(Ok(found)) => action == GetAction::Load(found),
        GetEvent::Resolved(Err(e)) => action == GetAction::Return(Err(e)),
        GetEvent::Loaded(r) => action == GetAction::Return(r),
    }
}

/// Get a meeting by ID (or "latest").
pub fn get_meeting(config: &MeetingConfig, id_str: &str, event: GetEvent) -> (r: GetAction)
    ensures
        gets(*config, id_str@, event, r),
{
    match event {
        GetEvent::Begin => GetAction::Open(config.storage.clone()),
        GetEvent::Opened(Ok(_)) => GetAction::Resolve(id_str.to_owned()),
        GetEvent::Opened(Err(e)) => GetAction::Return(Err(e)),
        GetEvent::Resolved(Ok(found)) => GetAction::Load(found),
        GetEvent::Resolved(Err(e)) => GetAction::Return(Err(e)),
        GetEvent::Loaded(r) => GetAction::Return(r),
    }
}

/// What came of the last step when a meeting is exported.
#[derive(Debug)]
pub enum ExportEvent {
    /// What came of looking it up.
    Lookup(GetEvent),
    /// The meeting was exported, or why it could not be.
    Exported(Result<String, String>),
}

/// What to do next when a meeting is exported.
#[derive(Debug)]
pub enum ExportAction<F, O> {
    /// Go on looking it up.
    Lookup(GetAction),
    /// Export the meeting.
    Export { meeting: MeetingData, format: F, options: O },
    /// Return this.
    Return(Result<String, StorageError>),
}

/// `action` is done next when a meeting is exported: it is looked up, then exported in the
/// format and with the options given. An export that fails counts as a failure of input
/// or output.
pub open spec fn exports<F, O>(
    config: MeetingConfig,
    id: Seq<char>,
    format: F,
    options: O,
    event: ExportEvent,
    action: ExportAction<F, O>,
) -> bool {
    match event {
        ExportEvent::Lookup(lookup) => match action {
            ExportAction::Lookup(next) => !(next is Return) && gets(config, id, lookup, next),
            ExportAction::Export { meeting, format: f, options: o } => f == format && o == options
                && gets(config, id, lookup, GetAction::Return(Ok(meeting))),
            ExportAction::Return(Err(e)) => gets(config, id, lookup, GetAction::Return(Err(e))),
            ExportAction::Return(Ok(_)) => false,
        },
        ExportEvent::Exported(Ok(text)) => action == ExportAction::<F, O>::Return(Ok(text)),
        ExportEvent::Exported(Err(e)) => action == ExportAction::<F, O>::Return(
            Err(StorageError::Io(e)),
        ),
    }
}

/// Export a meeting.
pub fn export_meeting_by_id<F, O>(
    config: &MeetingConfig,
    id_str: &str,
    format: F,
    options: O,
    event: ExportEvent,
) -> (r: ExportAction<F, O>)
    ensures
        exports(*config, id_str@, format, options, event, r),
{
    match event {
        ExportEvent::Lookup(lookup) => match get_meeting(config, id_str, lookup) {
            GetAction::Return(Ok(meeting)) => ExportAction::Export { meeting, format, options },
            GetAction::Return(Err(e)) => ExportAction::Return(Err(e)),
            next => ExportAction::Lookup(next),
        },
        ExportEvent::Exported(Ok(text)) => ExportAction::Return(Ok(text)),
        ExportEvent::Exported(Err(e)) => ExportAction::Return(Err(StorageError::Io(e))),
    }
}

} // verus!
