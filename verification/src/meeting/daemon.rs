//! The meeting daemon: continuous transcription of a meeting.
//!
//! The daemon decides; the store of meetings and the receiver of events are outside. What
//! is to be stored it hands out, and it takes in how that went; the events it leaves in
//! its outbox.
use vstd::prelude::*;
use vstd::string::StringExecFns;
use crate::float32::Float32;
use crate::meeting::chunk::{
    clock_reading, default_chunk_config, heard, id_after, in_time, millis, planned,
    region_segments, transcribes, ChunkBuffer, ChunkConfig, ChunkContext, ChunkProcessor,
    ProcessedChunk, TranscribeError, Transcriber,
};
use crate::meeting::data::{
    clone_segments, segment_views, AudioSource, MeetingData, MeetingId, MeetingMetadata,
    MeetingStatus, SegmentView, TranscriptSegment,
};
use crate::meeting::diarization::{diarized_views, DiarizedSegment, Diarizer};
use crate::meeting::record::{
    assign_speakers, next_after, record_segments, recorded, with_speakers,
};
use crate::meeting::state::{ran_for, MeetingState};
use crate::meeting::{MeetingConfig, MeetingEvent};
use crate::text::texts;

verus! {

/// Why the daemon does not do what it is asked for.
#[derive(Debug)]
pub enum MeetingError {
    AlreadyInProgress,
    NotActive,
    NotPaused,
    NotInProgress,
    TranscriberNotInitialized,
    /// The store of meetings failed.
    Storage(String),
    /// Speech could not be transcribed.
    Transcribe(TranscribeError),
}

impl MeetingError {
    pub open spec fn text(self) -> Seq<char> {
        match self {
            MeetingError::AlreadyInProgress => "Meeting already in progress"@,
            MeetingError::NotActive => "Meeting is not active"@,
            MeetingError::NotPaused => "Meeting is not paused"@,
            MeetingError::NotInProgress => "No meeting in progress"@,
            MeetingError::TranscriberNotInitialized => "Transcriber not initialized"@,
            MeetingError::Storage(e) => storage_text(e@),
            MeetingError::Transcribe(e) => e.message@,
        }
    }

    /// The error in words.
    pub fn message(&self) -> (r: String)
        ensures
            r@ == self.text(),
    {
        match self {
            MeetingError::AlreadyInProgress => "Meeting already in progress".to_owned(),
            MeetingError::NotActive => "Meeting is not active".to_owned(),
            MeetingError::NotPaused => "Meeting is not paused".to_owned(),
            MeetingError::NotInProgress => "No meeting in progress".to_owned(),
            MeetingError::TranscriberNotInitialized => "Transcriber not initialized".to_owned(),
            MeetingError::Storage(e) => storage_message(e),
            MeetingError::Transcribe(e) => e.message.clone(),
        }
    }
}

/// A failure of the store, in words.
pub open spec fn storage_text(e: Seq<char>) -> Seq<char> {
    "Meeting storage error: "@ + e
}

fn storage_message(e: &String) -> (r: String)
    ensures
        r@ == storage_text(e@),
{
    let mut s: String = "Meeting storage error: ".to_owned();
    s.append(e.as_str());
    s
}

/// A chunk that is transcribed and recorded, but not yet stored and counted.
#[derive(Debug)]
pub struct PendingChunk {
    pub chunk_id: u32,
    pub segments: Vec<TranscriptSegment>,
    /// Whether the meeting is to be stored.
    pub persist: bool,
}

/// Meeting daemon for continuous transcription.
pub struct MeetingDaemon<T: Transcriber, D: Diarizer> {
    pub config: MeetingConfig,
    pub state: MeetingState,
    pub current_meeting: Option<MeetingData>,
    pub transcriber: Option<T>,
    pub diarizer: D,
    pub engine_name: String,
    pub next_segment_id: u32,
    /// Events that are to be sent, the oldest first.
    pub outbox: Vec<MeetingEvent>,
}

/// How the daemon processes chunks: at 16 kHz, with chunks of the configured length.
pub open spec fn chunk_config(secs: u32) -> ChunkConfig {
    ChunkConfig { chunk_duration_secs: secs, ..default_chunk_config() }
}

/// When a chunk of `count` samples that ends now starts: by the time since the start of
/// the meeting, else by the end of the transcript, else at the start.
pub open spec fn chunk_start(elapsed: Option<u64>, transcript: Option<u64>, count: nat) -> u64 {
    let end = match elapsed {
        Some(ms) => ms,
        None => match transcript {
            Some(ms) => ms,
            None => 0,
        },
    };
    let length = count * 1000 / 16000;
    if end >= length {
        (end - length) as u64
    } else {
        0
    }
}

/// Says when a chunk of `count` samples that ends now starts.
pub fn start_of_chunk(elapsed: Option<u64>, transcript: Option<u64>, count: usize) -> (r: u64)
    requires
        count * 1000 <= u64::MAX,
    ensures
        r == chunk_start(elapsed, transcript, count as nat),
        r + count * 1000 / 16000 <= u64::MAX,
{
    let length: u64 = count as u64 * 1000 / 16000;
    let end: u64 = match elapsed {
        Some(ms) => ms,
        None => match transcript {
            Some(ms) => ms,
            None => 0,
        },
    };
    end.saturating_sub(length)
}

/// A meeting that is over.
pub open spec fn closed(meeting: MeetingData) -> MeetingData {
    MeetingData {
        metadata: MeetingMetadata {
            status: MeetingStatus::Completed,
            chunk_count: meeting.transcript.total_chunks,
            ..meeting.metadata
        },
        ..meeting
    }
}

/// Says that a meeting that is over could not be stored.
pub open spec fn finalize_text(id: Seq<char>, e: Seq<char>) -> Seq<char> {
    "Failed to finalize meeting "@ + id + ": "@ + storage_text(e)
}

/// Says that a meeting that goes on could not be stored.
pub open spec fn persist_text(e: Seq<char>) -> Seq<char> {
    "Failed to persist active meeting transcript: "@ + storage_text(e)
}

/// The diarizer behind `d`, which is `diarizer` before the call, returned `out` when it was
/// asked for the speakers of a chunk.
pub open spec fn asked_by<D: Diarizer>(
    d: &mut D,
    diarizer: D,
    samples: Seq<Float32>,
    chunk_start_ms: u64,
    source: AudioSource,
    segments: Seq<SegmentView>,
    out: Vec<DiarizedSegment>,
) -> bool {
    exists|s: &[Float32], g: &[TranscriptSegment]|
        #[trigger] call_ensures(
            <D as Diarizer>::diarize,
            (d, s, chunk_start_ms, source, g),
            out,
        ) && *d == diarizer && s@ == samples && segment_views(g@) == segments
}

/// A diarizer returned `out` when it was asked for the speakers of a chunk.
pub open spec fn asked<D: Diarizer>(
    diarizer: D,
    samples: Seq<Float32>,
    chunk_start_ms: u64,
    source: AudioSource,
    segments: Seq<SegmentView>,
    out: Vec<DiarizedSegment>,
) -> bool {
    exists|d: &mut D|
        #[trigger] asked_by(d, diarizer, samples, chunk_start_ms, source, segments, out)
}

/// The segments of a chunk whose regions were transcribed as `said`.
pub open spec fn said_segments(
    samples: Seq<Float32>,
    secs: u32,
    said: Seq<String>,
    first: u32,
    context: ChunkContext,
) -> Seq<SegmentView> {
    let plan = planned(samples, chunk_config(secs));
    region_segments(plan, texts(said), plan.len() as int, first, context)
}

/// The speech of a chunk was transcribed as `said`.
pub open spec fn heard_all<T: Transcriber>(
    transcriber: &T,
    samples: Seq<Float32>,
    secs: u32,
    said: Seq<String>,
) -> bool {
    let plan = planned(samples, chunk_config(secs));
    said.len() == plan.len() && heard(transcriber, samples, plan, said)
}

/// The transcription of a chunk failed with `cause`.
pub open spec fn failed<T: Transcriber>(
    transcriber: &T,
    samples: Seq<Float32>,
    secs: u32,
    cause: TranscribeError,
) -> bool {
    let plan = planned(samples, chunk_config(secs));
    exists|said: Seq<String>|
        said.len() < plan.len() && #[trigger] heard(transcriber, samples, plan, said)
            && transcribes(
            transcriber,
            samples.subrange(plan[said.len() as int].0, plan[said.len() as int].1),
            Err(cause),
        )
}

/// Where and when a chunk of the daemon was recorded.
pub open spec fn daemon_context(chunk_id: u32, source: AudioSource, start: u64) -> ChunkContext {
    ChunkContext { chunk_id, source, start_offset_ms: start, sample_rate: 16000 }
}

/// A meeting with the segments of a chunk recorded.
pub open spec fn grown(
    before: MeetingData,
    after: MeetingData,
    chunk_id: u32,
    segments: Seq<TranscriptSegment>,
    diarization: bool,
    source: AudioSource,
) -> bool {
    &&& after.transcript.segments@ == recorded(
        before.transcript.segments@,
        segments,
        diarization,
        source,
    )
    &&& after.transcript.total_chunks == chunk_id + 1
    &&& after.metadata == (MeetingMetadata {
        chunk_count: (chunk_id + 1) as u32,
        ..before.metadata
    })
}

/// `segments` are the segments of a chunk whose plain ones are given, with the speakers that
/// the diarizer found where it is in use; where it is not, it stays as it was.
pub open spec fn chunk_segments<D: Diarizer>(
    diarizer: D,
    after: D,
    diarization: bool,
    samples: Seq<Float32>,
    plain: Seq<SegmentView>,
    next: u32,
    context: ChunkContext,
    segments: Seq<SegmentView>,
) -> bool {
    if diarization && plain.len() > 0 {
        exists|out: Vec<DiarizedSegment>|
            #[trigger] asked(
                diarizer,
                samples,
                context.start_offset_ms,
                context.source,
                plain,
                out,
            ) && segments == with_speakers(
                plain,
                diarized_views(out@),
                next,
                context.chunk_id,
                context.source,
            )
    } else {
        segments == plain && after == diarizer
    }
}

/// The diarizer was not asked for the speakers of a chunk: it is not in use, or there was
/// nothing to attribute. It is as it was, and the segments are the plain ones.
pub open spec fn left_alone<T: Transcriber, D: Diarizer>(
    before: MeetingDaemon<T, D>,
    after: MeetingDaemon<T, D>,
    samples: Seq<Float32>,
    source: AudioSource,
    start: u64,
    segments: Seq<TranscriptSegment>,
) -> bool {
    let secs = before.config.chunk_duration_secs;
    let context = daemon_context(before.state.chunks(), source, start);
    exists|said: Seq<String>|
        #[trigger] heard_all(&before.transcriber->0, samples, secs, said) && ({
            let plain = said_segments(samples, secs, said, before.next_segment_id, context);
            &&& !before.config.diarization.enabled || plain.len() == 0
            &&& segment_views(segments) == plain
            &&& after.diarizer == before.diarizer
        })
}

/// The diarizer behind `d` was asked for the speakers of a chunk, with its samples and its
/// plain segments, and the segments have the speakers that it found.
pub open spec fn attributed_by<T: Transcriber, D: Diarizer>(
    before: MeetingDaemon<T, D>,
    samples: Seq<Float32>,
    source: AudioSource,
    start: u64,
    segments: Seq<TranscriptSegment>,
    d: &mut D,
) -> bool {
    let secs = before.config.chunk_duration_secs;
    let context = daemon_context(before.state.chunks(), source, start);
    exists|said: Seq<String>, out: Vec<DiarizedSegment>|
        #![trigger heard_all(&before.transcriber->0, samples, secs, said), diarized_views(out@)]
        heard_all(&before.transcriber->0, samples, secs, said) && ({
            let plain = said_segments(samples, secs, said, before.next_segment_id, context);
            &&& before.config.diarization.enabled
            &&& plain.len() > 0
            &&& asked_by(d, before.diarizer, samples, start, source, plain, out)
            &&& segment_views(segments) == with_speakers(
                plain,
                diarized_views(out@),
                id_after(before.next_segment_id, plain.len()),
                context.chunk_id,
                source,
            )
        })
}

/// What processing a chunk does to the daemon, and what it returns.
///
/// Nothing happens unless a meeting is active. A transcription that fails leaves the
/// daemon as it was. Else the segments are recorded in the current meeting.
pub open spec fn processed<T: Transcriber, D: Diarizer>(
    before: MeetingDaemon<T, D>,
    after: MeetingDaemon<T, D>,
    samples: Seq<Float32>,
    source: AudioSource,
    start: u64,
    r: Result<Option<PendingChunk>, MeetingError>,
) -> bool {
    let chunk_id = before.state.chunks();
    let context = daemon_context(chunk_id, source, start);
    let secs = before.config.chunk_duration_secs;
    let diarization = before.config.diarization.enabled;
    if !(before.state is Active) {
        r == Ok::<Option<PendingChunk>, MeetingError>(None) && after == before
    } else {
        match before.transcriber {
            None => r == Err::<Option<PendingChunk>, MeetingError>(
                MeetingError::TranscriberNotInitialized,
            ) && after == before,
            Some(transcriber) => match r {
                Ok(None) => false,
                Err(e) => after == before && (e matches MeetingError::Transcribe(cause) && failed(
                    &transcriber,
                    samples,
                    secs,
                    cause,
                )),
                Ok(Some(pending)) => {
                    &&& exists|said: Seq<String>|
                        #[trigger] heard_all(&transcriber, samples, secs, said) && ({
                            let first = before.next_segment_id;
                            let plain = said_segments(samples, secs, said, first, context);
                            let next = id_after(first, plain.len());
                            &&& chunk_segments(
                                before.diarizer,
                                after.diarizer,
                                diarization,
                                samples,
                                plain,
                                next,
                                context,
                                segment_views(pending.segments@),
                            )
                            &&& after.next_segment_id == next_after(
                                plain.len(),
                                pending.segments@.len(),
                                next,
                            )
                        })
                    &&& pending.chunk_id == chunk_id
                    &&& pending.persist == (pending.segments@.len() > 0
                        && before.current_meeting is Some)
                    &&& match (before.current_meeting, after.current_meeting) {
                        (Some(a), Some(b)) => grown(
                            a,
                            b,
                            chunk_id,
                            pending.segments@,
                            diarization,
                            source,
                        ),
                        (None, None) => true,
                        _ => false,
                    }
                    &&& after == (MeetingDaemon {
                        current_meeting: after.current_meeting,
                        diarizer: after.diarizer,
                        next_segment_id: after.next_segment_id,
                        ..before
                    })
                },
            },
        }
    }
}

/// What counting a chunk does to the daemon: the state counts one more, and the events say
/// that the chunk is processed, after an error where it could not be stored.
pub open spec fn finished<T: Transcriber, D: Diarizer>(
    before: MeetingDaemon<T, D>,
    after: MeetingDaemon<T, D>,
    pending: PendingChunk,
    persisted: Result<(), String>,
) -> bool {
    let old_events = before.outbox@;
    let events = after.outbox@;
    &&& after == (MeetingDaemon {
        state: before.state.advanced(),
        outbox: after.outbox,
        ..before
    })
    &&& events.len() == old_events.len() + if persisted is Ok {
        1int
    } else {
        2int
    }
    &&& events.take(old_events.len() as int) == old_events
    &&& persisted matches Err(e) ==> events[old_events.len() as int] matches MeetingEvent::Error(
        text,
    ) && text@ == persist_text(e@)
    &&& tells_of(events.last(), pending)
}

/// An event says that a chunk is processed.
pub open spec fn tells_of(event: MeetingEvent, pending: PendingChunk) -> bool {
    event matches MeetingEvent::ChunkProcessed { chunk_id, segments } && chunk_id
        == pending.chunk_id && segments@ == pending.segments@
}

fn transcribe_chunk<T: Transcriber>(
    transcriber: &T,
    secs: u32,
    first: u32,
    samples: Vec<Float32>,
    chunk_id: u32,
    source: AudioSource,
    start_offset_ms: u64,
) -> (r: Result<(ProcessedChunk, u32), TranscribeError>)
    requires
        samples@.len() * 1000 <= u64::MAX,
        start_offset_ms + samples@.len() * 1000 / 16000 <= u64::MAX,
    ensures
        match r {
            Err(cause) => failed(transcriber, samples@, secs, cause),
            Ok((chunk, next)) => {
                &&& chunk.samples@ == samples@
                &&& chunk.chunk_start_ms == start_offset_ms
                &&& next == id_after(first, chunk.segments@.len())
                &&& exists|said: Seq<String>|
                    #[trigger] heard_all(transcriber, samples@, secs, said) && segment_views(
                        chunk.segments@,
                    ) == said_segments(
                        samples@,
                        secs,
                        said,
                        first,
                        daemon_context(chunk_id, source, start_offset_ms),
                    )
            },
        },
{
    let mut config: ChunkConfig = ChunkConfig::default();
    config.chunk_duration_secs = secs;
    let mut processor = ChunkProcessor::new_with_segment_id(config, transcriber, first);
    let mut buffer: ChunkBuffer = processor.new_buffer(chunk_id, source, start_offset_ms);
    buffer.add_samples(samples.as_slice());
    proof {
        assert(buffer.samples@ =~= samples@);
        assert(in_time(
            samples@.len() as int,
            daemon_context(chunk_id, source, start_offset_ms),
        ));
    }
    match processor.process_chunk(buffer) {
        Err(e) => {
            proof {
                let plan = planned(samples@, chunk_config(secs));
                let said = choose|said: Seq<String>|
                    #![trigger texts(said)]
                    said.len() < plan.len() && heard(transcriber, samples@, plan, said)
                        && transcribes(
                        transcriber,
                        samples@.subrange(plan[said.len() as int].0, plan[said.len() as int].1),
                        Err(e),
                    );
                assert(heard(transcriber, samples@, plan, said));
            }
            Err(e)
        },
        Ok(chunk) => {
            proof {
                let plan = planned(samples@, chunk_config(secs));
                let context = daemon_context(chunk_id, source, start_offset_ms);
                let said = choose|said: Seq<String>|
                    #![trigger texts(said)]
                    said.len() == plan.len() && heard(transcriber, samples@, plan, said)
                        && segment_views(chunk.segments@) == region_segments(
                        plan,
                        texts(said),
                        plan.len() as int,
                        first,
                        context,
                    );
                assert(heard_all(transcriber, samples@, secs, said));
            }
            Ok((chunk, processor.next_segment_id()))
        },
    }
}

impl<T: Transcriber, D: Diarizer> MeetingDaemon<T, D> {
    /// There is a current meeting unless the daemon is idle.
    pub open spec fn wf(&self) -> bool {
        self.state is Idle <==> self.current_meeting is None
    }

    /// Create a new meeting daemon.
    pub fn new(config: MeetingConfig, transcriber: T, diarizer: D, engine_name: String) -> (r: Self)
        ensures
            r.wf(),
            r.config == config,
            r.state is Idle,
            r.current_meeting is None,
            r.transcriber == Some(transcriber),
            r.diarizer == diarizer,
            r.engine_name == engine_name,
            r.next_segment_id == 0,
            r.outbox@ == Seq::<MeetingEvent>::empty(),
    {
        MeetingDaemon {
            config,
            state: MeetingState::Idle,
            current_meeting: None,
            transcriber: Some(transcriber),
            diarizer,
            engine_name,
            next_segment_id: 0,
            outbox: Vec::new(),
        }
    }

    /// Starts a new meeting with the given identifier, and hands it out to be created in
    /// the store. Nothing has started before `finish_start`.
    pub fn start(&mut self, id: MeetingId, title: Option<String>) -> (r: Result<
        MeetingData,
        MeetingError,
    >)
        requires
            old(self).wf(),
        ensures
            final(self).wf(),
            !(old(self).state is Idle) ==> r == Err::<MeetingData, MeetingError>(
                MeetingError::AlreadyInProgress,
            ) && *final(self) == *old(self),
            old(self).state is Idle ==> {
                &&& r matches Ok(meeting) && meeting.metadata.id == id && meeting.metadata.title
                    == title && meeting.metadata.status == MeetingStatus::Active
                    && meeting.metadata.chunk_count == 0 && meeting.metadata.model == Some(
                    old(self).engine_name,
                ) && meeting.metadata.storage_path is None && meeting.transcript.segments@.len()
                    == 0 && meeting.transcript.total_chunks == 0
                &&& exists|d: &mut D|
                    #[trigger] call_ensures(<D as Diarizer>::reset, (d,), ()) && *d == old(self).diarizer && *final(d) == final(self).diarizer
                &&& *final(self) == (MeetingDaemon {
                    next_segment_id: 0,
                    diarizer: final(self).diarizer,
                    ..*old(self)
                })
            },
    {
        if !self.state.is_idle() {
            return Err(MeetingError::AlreadyInProgress);
        }
        self.next_segment_id = 0;
        self.diarizer.reset();
        let mut meeting = MeetingData::new(id, title);
        meeting.metadata.model = Some(self.engine_name.clone());
        Ok(meeting)
    }

    /// Starts the meeting once the store has created it, at the path given; a meeting that
    /// the store could not create is not started.
    pub fn finish_start(&mut self, meeting: MeetingData, created: Result<String, String>) -> (r:
        Result<MeetingId, MeetingError>)
        requires
            old(self).wf(),
            old(self).state is Idle,
        ensures
            final(self).wf(),
            match created {
                Err(e) => r == Err::<MeetingId, MeetingError>(MeetingError::Storage(e)) && *final(self) == *old(self),
                Ok(path) => {
                    &&& r == Ok::<MeetingId, MeetingError>(meeting.metadata.id)
                    &&& final(self).state matches MeetingState::Active {
                        started_at,
                        chunks_processed,
                    } && clock_reading(started_at) && chunks_processed == 0
                    &&& final(self).current_meeting == Some(
                        MeetingData {
                            metadata: MeetingMetadata {
                                storage_path: Some(path),
                                ..meeting.metadata
                            },
                            ..meeting
                        },
                    )
                    &&& final(self).outbox@ == old(self).outbox@.push(
                        MeetingEvent::Started { meeting_id: meeting.metadata.id },
                    )
                    &&& *final(self) == (MeetingDaemon {
                        state: final(self).state,
                        current_meeting: final(self).current_meeting,
                        outbox: final(self).outbox,
                        ..*old(self)
                    })
                },
            },
    {
        match created {
            Err(e) => Err(MeetingError::Storage(e)),
            Ok(path) => {
                let mut meeting = meeting;
                meeting.metadata.storage_path = Some(path);
                let meeting_id: MeetingId = meeting.metadata.id.clone();
                self.current_meeting = Some(meeting);
                self.state = MeetingState::start();
                self.outbox.push(MeetingEvent::Started { meeting_id: meeting_id.clone() });
                Ok(meeting_id)
            },
        }
    }

    /// Pause the current meeting.
    pub fn pause(&mut self) -> (r: Result<(), MeetingError>)
        requires
            old(self).wf(),
        ensures
            final(self).wf(),
            !(old(self).state is Active) ==> r == Err::<(), MeetingError>(MeetingError::NotActive)
                && *final(self) == *old(self),
            old(self).state is Active ==> r is Ok && *final(self) == (MeetingDaemon {
                state: old(self).state.paused(),
                outbox: final(self).outbox,
                ..*old(self)
            }) && final(self).outbox@ == old(self).outbox@.push(MeetingEvent::Paused),
    {
        if !self.state.is_active() {
            return Err(MeetingError::NotActive);
        }
        self.state = self.state.pause();
        self.outbox.push(MeetingEvent::Paused);
        Ok(())
    }

    /// Resume a paused meeting.
    pub fn resume(&mut self) -> (r: Result<(), MeetingError>)
        requires
            old(self).wf(),
        ensures
            final(self).wf(),
            !(old(self).state is Paused) ==> r == Err::<(), MeetingError>(MeetingError::NotPaused)
                && *final(self) == *old(self),
            old(self).state is Paused ==> r is Ok && *final(self) == (MeetingDaemon {
                state: old(self).state.resumed(),
                outbox: final(self).outbox,
                ..*old(self)
            }) && final(self).outbox@ == old(self).outbox@.push(MeetingEvent::Resumed),
    {
        if !self.state.is_paused() {
            return Err(MeetingError::NotPaused);
        }
        self.state = self.state.resume();
        self.outbox.push(MeetingEvent::Resumed);
        Ok(())
    }

    /// Get current meeting state.
    pub fn state(&self) -> (r: &MeetingState)
        ensures
            *r == self.state,
    {
        &self.state
    }

    /// Get current meeting ID if there is a meeting.
    pub fn current_meeting_id(&self) -> (r: Option<MeetingId>)
        ensures
            r == match self.current_meeting {
                Some(meeting) => Some(meeting.metadata.id),
                None => None,
            },
    {
        match &self.current_meeting {
            Some(meeting) => Some(meeting.metadata.id.clone()),
            None => None,
        }
    }

    /// Get mutable access to current meeting data.
    pub fn current_meeting_mut(&mut self) -> (r: Option<&mut MeetingData>)
        ensures
            r is Some <==> old(self).current_meeting is Some,
            r matches Some(m) ==> Some(*m) == old(self).current_meeting && *final(self) == (
            MeetingDaemon { current_meeting: Some(*final(m)), ..*old(self) }),
            r is None ==> *final(self) == *old(self),
    {
        self.current_meeting.as_mut()
    }

    /// What is to be stored of the current meeting: its transcript and its metadata.
    pub fn persist_current_meeting(&self) -> (r: Option<&MeetingData>)
        ensures
            r == match self.current_meeting {
                Some(meeting) => Some(&meeting),
                None => None,
            },
    {
        match &self.current_meeting {
            Some(meeting) => Some(meeting),
            None => None,
        }
    }

    /// Stops the current meeting, and leaves it to be stored. The daemon is not idle before
    /// `finish_stop`.
    pub fn stop(&mut self) -> (r: Result<MeetingId, MeetingError>)
        requires
            old(self).wf(),
        ensures
            final(self).wf(),
            match old(self).current_meeting {
                None => r == Err::<MeetingId, MeetingError>(MeetingError::NotInProgress)
                    && *final(self) == *old(self),
                Some(meeting) => r == Ok::<MeetingId, MeetingError>(meeting.metadata.id)
                    && *final(self) == (MeetingDaemon {
                    state: MeetingState::Finalizing,
                    current_meeting: Some(closed(meeting)),
                    ..*old(self)
                }),
            },
    {
        if self.state.is_idle() {
            return Err(MeetingError::NotInProgress);
        }
        self.state = self.state.stop();
        let mut meeting_id: MeetingId = MeetingId::default();
        if let Some(mut meeting) = self.current_meeting.take() {
            meeting_id = meeting.metadata.id.clone();
            meeting.complete();
            meeting.metadata.chunk_count = meeting.transcript.total_chunks;
            self.current_meeting = Some(meeting);
        }
        Ok(meeting_id)
    }

    /// Leaves a meeting that is over, however storing it went, and says how it went.
    pub fn finish_stop(&mut self, saved: Result<(), String>) -> (r: Result<
        MeetingId,
        MeetingError,
    >)
        requires
            old(self).wf(),
            old(self).state is Finalizing,
        ensures
            final(self).wf(),
            final(self).state is Idle,
            *final(self) == (MeetingDaemon {
                state: MeetingState::Idle,
                current_meeting: None,
                next_segment_id: 0,
                diarizer: final(self).diarizer,
                outbox: final(self).outbox,
                ..*old(self)
            }),
            exists|d: &mut D|
                #[trigger] call_ensures(<D as Diarizer>::reset, (d,), ()) && *d
                    == old(self).diarizer && *final(d) == final(self).diarizer,
            ({
                let id = old(self).current_meeting->0.metadata.id;
                match saved {
                    Ok(_) => r == Ok::<MeetingId, MeetingError>(id) && final(self).outbox@ == old(self).outbox@.push(MeetingEvent::Stopped { meeting_id: id }),
                    Err(e) => {
                        &&& r == Err::<MeetingId, MeetingError>(MeetingError::Storage(e))
                        &&& final(self).outbox@.len() == old(self).outbox@.len() + 1
                        &&& final(self).outbox@.drop_last() == old(self).outbox@
                        &&& final(self).outbox@.last() matches MeetingEvent::Error(text) && text@
                            == finalize_text(id.text@, e@)
                    },
                }
            }),
    {
        let meeting_id: MeetingId = match &self.current_meeting {
            Some(meeting) => meeting.metadata.id.clone(),
            None => MeetingId::default(),
        };
        let result: Result<MeetingId, MeetingError> = match saved {
            Ok(_) => {
                self.outbox.push(MeetingEvent::Stopped { meeting_id: meeting_id.clone() });
                Ok(meeting_id)
            },
            Err(e) => {
                let mut text: String = "Failed to finalize meeting ".to_owned();
                text.append(meeting_id.text.as_str());
                text.append(": ");
                text.append(storage_message(&e).as_str());
                self.outbox.push(MeetingEvent::Error(text));
                Err(MeetingError::Storage(e))
            },
        };
        self.state = self.state.finalize();
        self.current_meeting = None;
        self.next_segment_id = 0;
        self.diarizer.reset();
        assert(self.outbox@.drop_last() =~= old(self).outbox@);
        result
    }

    /// Counts a chunk once it is stored, or could not be stored, and hands out its
    /// segments.
    pub fn finish_chunk(&mut self, pending: PendingChunk, persisted: Result<(), String>) -> (r: Vec<
        TranscriptSegment,
    >)
        requires
            old(self).wf(),
            old(self).state is Active,
            old(self).state.chunks() < u32::MAX,
        ensures
            final(self).wf(),
            r@ == pending.segments@,
            finished(*old(self), *final(self), pending, persisted),
    {
        if let Err(e) = persisted {
            let mut text: String = "Failed to persist active meeting transcript: ".to_owned();
            text.append(storage_message(&e).as_str());
            self.outbox.push(MeetingEvent::Error(text));
        }
        self.state = self.state.next_chunk();
        self.outbox.push(
            MeetingEvent::ChunkProcessed {
                chunk_id: pending.chunk_id,
                segments: clone_segments(&pending.segments),
            },
        );
        assert(self.outbox@.take(old(self).outbox@.len() as int) =~= old(self).outbox@);
        pending.segments
    }

    /// Process a chunk of audio of the microphone that ends now.
    pub fn process_chunk(&mut self, samples: Vec<Float32>) -> (r: Result<
        Option<PendingChunk>,
        MeetingError,
    >)
        requires
            old(self).wf(),
            old(self).state is Active ==> old(self).state.chunks() < u32::MAX,
            samples@.len() * 1000 <= u64::MAX,
        ensures
            final(self).wf(),
            exists|elapsed: Option<u64>|
                #[trigger] ran_for(old(self).state, elapsed) && ({
                    let source = AudioSource::Microphone;
                    let start = chunk_start(elapsed, old(self).transcript_end(), samples@.len());
                    &&& processed(*old(self), *final(self), samples@, source, start, r)
                    &&& r matches Ok(Some(pending)) ==> left_alone(
                        *old(self),
                        *final(self),
                        samples@,
                        source,
                        start,
                        pending.segments@,
                    ) || exists|d: &mut D|
                        #[trigger] attributed_by(
                            *old(self),
                            samples@,
                            source,
                            start,
                            pending.segments@,
                            d,
                        )
                            && *final(d) == final(self).diarizer
                }),
    {
        self.process_chunk_with_source(samples, AudioSource::Microphone)
    }

    /// Process a chunk of audio of a source that ends now.
    pub fn process_chunk_with_source(&mut self, samples: Vec<Float32>, source: AudioSource) -> (r:
        Result<Option<PendingChunk>, MeetingError>)
        requires
            old(self).wf(),
            old(self).state is Active ==> old(self).state.chunks() < u32::MAX,
            samples@.len() * 1000 <= u64::MAX,
        ensures
            final(self).wf(),
            exists|elapsed: Option<u64>|
                #[trigger] ran_for(old(self).state, elapsed) && ({
                    let start = chunk_start(elapsed, old(self).transcript_end(), samples@.len());
                    &&& processed(*old(self), *final(self), samples@, source, start, r)
                    &&& r matches Ok(Some(pending)) ==> left_alone(
                        *old(self),
                        *final(self),
                        samples@,
                        source,
                        start,
                        pending.segments@,
                    ) || exists|d: &mut D|
                        #[trigger] attributed_by(
                            *old(self),
                            samples@,
                            source,
                            start,
                            pending.segments@,
                            d,
                        )
                            && *final(d) == final(self).diarizer
                }),
    {
        let elapsed: Option<u64> = match self.state.elapsed() {
            Some(time) => {
                let n: u128 = millis(&time);
                Some(n as u64)
            },
            None => None,
        };
        assert(ran_for(self.state, elapsed));
        self.process_chunk_by_clock(samples, source, elapsed)
    }

    /// Process a chunk of audio of a source that ends `elapsed` milliseconds after the
    /// start of the meeting.
    pub fn process_chunk_by_clock(
        &mut self,
        samples: Vec<Float32>,
        source: AudioSource,
        elapsed: Option<u64>,
    ) -> (r: Result<Option<PendingChunk>, MeetingError>)
        requires
            old(self).wf(),
            old(self).state is Active ==> old(self).state.chunks() < u32::MAX,
            samples@.len() * 1000 <= u64::MAX,
        ensures
            final(self).wf(),
            processed(
                *old(self),
                *final(self),
                samples@,
                source,
                chunk_start(elapsed, old(self).transcript_end(), samples@.len()),
                r,
            ),
            r matches Ok(Some(pending)) ==> ({
                let start = chunk_start(elapsed, old(self).transcript_end(), samples@.len());
                ||| left_alone(
                    *old(self),
                    *final(self),
                    samples@,
                    source,
                    start,
                    pending.segments@,
                )
                ||| exists|d: &mut D|
                    #[trigger] attributed_by(
                            *old(self),
                            samples@,
                            source,
                            start,
                            pending.segments@,
                            d,
                        )
                        && *final(d) == final(self).diarizer
            }),
    {
        let transcript: Option<u64> = match &self.current_meeting {
            Some(meeting) => Some(meeting.transcript.duration_ms()),
            None => None,
        };
        let start: u64 = start_of_chunk(elapsed, transcript, samples.len());
        self.process_chunk_with_source_at(samples, source, start)
    }

    /// The end of the transcript of the current meeting.
    pub open spec fn transcript_end(&self) -> Option<u64> {
        match self.current_meeting {
            Some(meeting) => Some(
                if meeting.transcript.segments@.len() == 0 {
                    0
                } else {
                    meeting.transcript.segments@.last().end_ms
                },
            ),
            None => None,
        }
    }

    /// Process a chunk of audio with an explicit start in the meeting: transcribe it,
    /// attribute its segments and record them. The chunk is then to be stored, and counted
    /// with `finish_chunk`.
    pub fn process_chunk_with_source_at(
        &mut self,
        samples: Vec<Float32>,
        source: AudioSource,
        start_offset_ms: u64,
    ) -> (r: Result<Option<PendingChunk>, MeetingError>)
        requires
            old(self).wf(),
            old(self).state is Active ==> old(self).state.chunks() < u32::MAX && samples@.len()
                * 1000 <= u64::MAX && start_offset_ms + samples@.len() * 1000 / 16000 <= u64::MAX,
        ensures
            final(self).wf(),
            processed(*old(self), *final(self), samples@, source, start_offset_ms, r),
            r matches Ok(Some(pending)) ==> left_alone(
                *old(self),
                *final(self),
                samples@,
                source,
                start_offset_ms,
                pending.segments@,
            ) || exists|d: &mut D|
                #[trigger] attributed_by(
                    *old(self),
                    samples@,
                    source,
                    start_offset_ms,
                    pending.segments@,
                    d,
                ) && *final(d) == final(self).diarizer,
    {
        if !self.state.is_active() {
            return Ok(None);
        }
        let chunk_id: u32 = self.state.chunks_processed();
        let first: u32 = self.next_segment_id;
        let done: Result<(ProcessedChunk, u32), TranscribeError> = match &self.transcriber {
            None => {
                return Err(MeetingError::TranscriberNotInitialized);
            },
            Some(transcriber) => transcribe_chunk(
                transcriber,
                self.config.chunk_duration_secs,
                first,
                samples,
                chunk_id,
                source,
                start_offset_ms,
            ),
        };
        let (chunk, next) = match done {
            Err(e) => {
                return Err(MeetingError::Transcribe(e));
            },
            Ok(done) => done,
        };
        let ghost plain = segment_views(chunk.segments@);
        let ghost context = daemon_context(chunk_id, source, start_offset_ms);
        let ghost secs = self.config.chunk_duration_secs;
        let ghost said = choose|said: Seq<String>|
            #[trigger] heard_all(&self.transcriber->0, samples@, secs, said) && plain
                == said_segments(samples@, secs, said, first, context);
        assert(plain.len() == chunk.segments@.len());
        self.next_segment_id = next;
        let segments: Vec<TranscriptSegment> = self.attribute_chunk(chunk, chunk_id, source);
        assert(heard_all(&old(self).transcriber->0, samples@, secs, said));
        assert forall|d: &mut D, out: Vec<DiarizedSegment>|
            #[trigger] asked_by(
                d,
                old(self).diarizer,
                samples@,
                start_offset_ms,
                source,
                plain,
                out,
            ) && self.config.diarization.enabled && plain.len() > 0 && segment_views(segments@)
                == with_speakers(plain, diarized_views(out@), next, chunk_id, source) implies asked(
            old(self).diarizer,
            samples@,
            start_offset_ms,
            source,
            plain,
            out,
        ) && attributed_by(*old(self), samples@, source, start_offset_ms, segments@, d) by {
            let views = diarized_views(out@);
        }
        let persist: bool = !segments.is_empty() && self.current_meeting.is_some();
        self.record_chunk(&segments, chunk_id, source);
        Ok(Some(PendingChunk { chunk_id, segments, persist }))
    }

    /// Gives the segments of a chunk their speakers, where the diarizer is in use.
    fn attribute_chunk(&mut self, chunk: ProcessedChunk, chunk_id: u32, source: AudioSource) -> (r:
        Vec<TranscriptSegment>)
        ensures
            ({
                let plain = segment_views(chunk.segments@);
                if old(self).config.diarization.enabled && plain.len() > 0 {
                    exists|d: &mut D, out: Vec<DiarizedSegment>|
                        #[trigger] asked_by(
                            d,
                            old(self).diarizer,
                            chunk.samples@,
                            chunk.chunk_start_ms,
                            source,
                            plain,
                            out,
                        ) && *final(d) == final(self).diarizer && segment_views(r@)
                            == with_speakers(
                            plain,
                            diarized_views(out@),
                            old(self).next_segment_id,
                            chunk_id,
                            source,
                        )
                } else {
                    segment_views(r@) == plain && final(self).diarizer == old(self).diarizer
                }
            }),
            final(self).next_segment_id == next_after(
                chunk.segments@.len(),
                r@.len(),
                old(self).next_segment_id,
            ),
            *final(self) == (MeetingDaemon {
                diarizer: final(self).diarizer,
                next_segment_id: final(self).next_segment_id,
                ..*old(self)
            }),
    {
        let ghost plain = segment_views(chunk.segments@);
        assert(plain.len() == chunk.segments@.len());
        if !self.config.diarization.enabled || chunk.segments.is_empty() {
            return chunk.segments;
        }
        let diarized: Vec<DiarizedSegment> = self.diarizer.diarize(
            chunk.samples.as_slice(),
            chunk.chunk_start_ms,
            source,
            chunk.segments.as_slice(),
        );
        assert forall|d: &mut D, s: &[Float32], g: &[TranscriptSegment]|
            #[trigger] call_ensures(
                <D as Diarizer>::diarize,
                (d, s, chunk.chunk_start_ms, source, g),
                diarized,
            ) && *d == old(self).diarizer && s@ == chunk.samples@ && segment_views(g@)
                == plain implies asked_by(
            d,
            old(self).diarizer,
            chunk.samples@,
            chunk.chunk_start_ms,
            source,
            plain,
            diarized,
        ) by {}
        let (segments, next) = assign_speakers(
            chunk.segments,
            &diarized,
            self.next_segment_id,
            chunk_id,
            source,
        );
        self.next_segment_id = next;
        segments
    }

    /// Records the segments of a chunk in the current meeting.
    fn record_chunk(&mut self, segments: &Vec<TranscriptSegment>, chunk_id: u32, source: AudioSource)
        requires
            chunk_id < u32::MAX,
        ensures
            match (old(self).current_meeting, final(self).current_meeting) {
                (Some(a), Some(b)) => grown(
                    a,
                    b,
                    chunk_id,
                    segments@,
                    old(self).config.diarization.enabled,
                    source,
                ),
                (None, None) => true,
                _ => false,
            },
            *final(self) == (MeetingDaemon {
                current_meeting: final(self).current_meeting,
                ..*old(self)
            }),
    {
        if let Some(mut meeting) = self.current_meeting.take() {
            record_segments(
                &mut meeting.transcript.segments,
                segments,
                self.config.diarization.enabled,
                source,
            );
            meeting.transcript.total_chunks = chunk_id + 1;
            meeting.metadata.chunk_count = meeting.transcript.total_chunks;
            self.current_meeting = Some(meeting);
        }
    }
}

} // verus!
