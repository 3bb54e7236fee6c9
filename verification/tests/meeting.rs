use std::collections::HashMap;
use std::sync::atomic::{AtomicUsize, Ordering};
use std::sync::{Arc, Mutex};
use std::time::{Duration, Instant};
use voxtype::float32::Float32;
use voxtype::meeting::chunk::{TranscribeError, Transcriber};
use voxtype::meeting::daemon::start_of_chunk;
use voxtype::meeting::diarization::simple::SimpleDiarizer;
use voxtype::meeting::diarization::{DiarizationConfig, DiarizedSegment, Diarizer, SpeakerId};
use voxtype::meeting::lookup::{
    ExportAction, ExportEvent, GetAction, GetEvent, ListAction, ListEvent,
};
use voxtype::meeting::record::{assign_speakers, record_segments};
use voxtype::meeting::{
    export_meeting_by_id, get_meeting, list_meetings, persist_step, AudioSource, MeetingConfig,
    MeetingDaemon, MeetingData, MeetingError, MeetingEvent, MeetingId, MeetingState, MeetingStatus,
    PersistAction, PersistEvent, StorageConfig, StorageError, TranscriptSegment,
};

fn of(x: f32) -> Float32 {
    Float32::from_bits(x.to_bits())
}

fn value(x: Float32) -> f32 {
    f32::from_bits(x.to_bits())
}

struct MockTranscriber {
    text: String,
    calls: Mutex<Vec<usize>>,
}

impl MockTranscriber {
    fn new(text: &str) -> Self {
        Self { text: text.to_string(), calls: Mutex::new(Vec::new()) }
    }
}

impl Transcriber for MockTranscriber {
    fn transcribe(&self, samples: &[Float32]) -> Result<String, TranscribeError> {
        self.calls.lock().unwrap().push(samples.len());
        if self.text == "fail" {
            return Err(TranscribeError { message: "no model".to_string() });
        }
        Ok(self.text.clone())
    }
}

struct ResetTrackingDiarizer {
    reset_calls: Arc<AtomicUsize>,
}

impl ResetTrackingDiarizer {
    fn new(reset_calls: Arc<AtomicUsize>) -> Self {
        Self { reset_calls }
    }
}

impl Diarizer for ResetTrackingDiarizer {
    fn diarize(
        &mut self,
        _samples: &[Float32],
        _chunk_start_ms: u64,
        source: AudioSource,
        transcript_segments: &[TranscriptSegment],
    ) -> Vec<DiarizedSegment> {
        let speaker = match source {
            AudioSource::Microphone => SpeakerId::You,
            AudioSource::Loopback => SpeakerId::Remote,
            AudioSource::Unknown => SpeakerId::Unknown,
        };

        transcript_segments
            .iter()
            .map(|segment| DiarizedSegment {
                speaker: speaker.clone(),
                start_ms: segment.start_ms,
                end_ms: segment.end_ms,
                text: segment.text.clone(),
                confidence: of(1.0),
            })
            .collect()
    }

    fn name(&self) -> &'static str {
        "reset-tracking"
    }

    fn reset(&mut self) {
        self.reset_calls.fetch_add(1, Ordering::SeqCst);
    }
}

/// A store in memory: the texts and the number of chunks of each meeting.
#[derive(Default)]
struct Store {
    meetings: HashMap<String, (Vec<TranscriptSegment>, u32)>,
}

impl Store {
    fn create(&mut self, id: &MeetingId) -> Result<String, String> {
        self.meetings.insert(id.text.clone(), (Vec::new(), 0));
        Ok(format!("/meetings/{}", id.text))
    }

    fn save(&mut self, meeting: &MeetingData) -> Result<(), String> {
        match self.meetings.get_mut(&meeting.metadata.id.text) {
            Some(entry) => {
                *entry = (meeting.transcript.segments.clone(), meeting.metadata.chunk_count);
                Ok(())
            }
            None => Err("meeting directory is gone".to_string()),
        }
    }
}

fn create_test_meeting_daemon<D: Diarizer>(
    diarization_enabled: bool,
    diarizer: D,
) -> MeetingDaemon<MockTranscriber, D> {
    let config = MeetingConfig {
        enabled: true,
        storage: StorageConfig {
            storage_path: "/meetings".to_string(),
            retain_audio: false,
            max_meetings: 0,
        },
        diarization: DiarizationConfig { enabled: diarization_enabled, ..Default::default() },
        ..Default::default()
    };
    MeetingDaemon::new(config, MockTranscriber::new("hello world"), diarizer, "test".to_string())
}

fn start<D: Diarizer>(
    daemon: &mut MeetingDaemon<MockTranscriber, D>,
    store: &mut Store,
    title: &str,
) -> Result<MeetingId, MeetingError> {
    let id = MeetingId { text: format!("id of {}", title) };
    let meeting = daemon.start(id, Some(title.to_string()))?;
    let created = store.create(&meeting.metadata.id);
    daemon.finish_start(meeting, created)
}

fn stop<D: Diarizer>(
    daemon: &mut MeetingDaemon<MockTranscriber, D>,
    store: &mut Store,
) -> Result<MeetingId, MeetingError> {
    daemon.stop()?;
    let saved = match daemon.persist_current_meeting() {
        Some(meeting) => store.save(meeting),
        None => Ok(()),
    };
    daemon.finish_stop(saved)
}

fn process<D: Diarizer>(
    daemon: &mut MeetingDaemon<MockTranscriber, D>,
    store: &mut Store,
    samples: Vec<Float32>,
    source: AudioSource,
    start_offset_ms: u64,
) -> Result<Option<Vec<TranscriptSegment>>, MeetingError> {
    match daemon.process_chunk_with_source_at(samples, source, start_offset_ms)? {
        None => Ok(None),
        Some(pending) => {
            let persisted = match daemon.persist_current_meeting() {
                Some(meeting) if pending.persist => store.save(meeting),
                _ => Ok(()),
            };
            Ok(Some(daemon.finish_chunk(pending, persisted)))
        }
    }
}

#[test]
fn test_meeting_config_default() {
    let config = MeetingConfig::default();
    assert!(!config.enabled);
    assert_eq!(config.chunk_duration_secs, 30);
    assert_eq!(config.max_duration_mins, 180);
    assert!(!config.retain_audio);
    assert!(config.diarization.enabled);
}

#[test]
fn test_meeting_state_transitions() {
    let state = MeetingState::Idle;
    assert!(state.is_idle());

    let state = MeetingState::start();
    assert!(state.is_active());

    let state = state.pause();
    assert!(state.is_paused());

    let state = state.resume();
    assert!(state.is_active());

    let state = state.stop();
    assert!(state.is_finalizing());

    let state = state.finalize();
    assert!(state.is_idle());
}

#[test]
fn states_ignore_what_does_not_apply() {
    assert!(MeetingState::Idle.pause().is_idle());
    assert!(MeetingState::Idle.resume().is_idle());
    assert!(MeetingState::Idle.stop().is_idle());
    assert!(MeetingState::start().resume().is_active());
    assert!(MeetingState::start().finalize().is_active());
    let counted = MeetingState::start().next_chunk().next_chunk();
    assert_eq!(counted.chunks_processed(), 2);
    assert_eq!(counted.pause().chunks_processed(), 2);
    assert_eq!(counted.pause().resume().chunks_processed(), 2);
    assert_eq!(counted.pause().next_chunk().chunks_processed(), 2);
    assert_eq!(counted.stop().chunks_processed(), 0);
    assert!(counted.elapsed().is_some());
    assert!(MeetingState::Idle.elapsed().is_none());
}

#[test]
fn test_process_chunk_persists_transcript_during_active_meeting() {
    let mut store = Store::default();
    let mut daemon = create_test_meeting_daemon(false, SimpleDiarizer::new());
    let meeting_id = start(&mut daemon, &mut store, "Persistence Test").expect("meeting start");

    let samples = vec![of(0.2); 16_000];
    let result = process(&mut daemon, &mut store, samples, AudioSource::Microphone, 0)
        .expect("process chunk");

    assert!(result.is_some());

    let (segments, chunk_count) = &store.meetings[&meeting_id.text];
    assert_eq!(segments.len(), 1);
    assert_eq!(segments[0].text, "hello world");
    assert_eq!(*chunk_count, 1);
}

#[test]
fn test_process_chunk_continues_when_incremental_persist_fails() {
    let mut store = Store::default();
    let mut daemon = create_test_meeting_daemon(false, SimpleDiarizer::new());
    let meeting_id = start(&mut daemon, &mut store, "Persistence Failure").expect("meeting start");

    store.meetings.remove(&meeting_id.text);

    let samples = vec![of(0.2); 16_000];
    let result = process(&mut daemon, &mut store, samples, AudioSource::Microphone, 0)
        .expect("chunk processing should continue");

    assert!(result.is_some());
    assert_eq!(daemon.state().chunks_processed(), 1);
    assert_eq!(
        daemon
            .current_meeting
            .as_ref()
            .expect("in-memory meeting")
            .transcript
            .segments
            .len(),
        1
    );
    assert!(matches!(
        &daemon.outbox[1],
        MeetingEvent::Error(text) if text
            == "Failed to persist active meeting transcript: Meeting storage error: meeting directory is gone"
    ));
    assert!(matches!(
        &daemon.outbox[2],
        MeetingEvent::ChunkProcessed { chunk_id: 0, segments } if segments.len() == 1
    ));
}

#[test]
fn test_process_chunk_with_source_uses_wall_clock_offset() {
    let mut store = Store::default();
    let mut daemon = create_test_meeting_daemon(false, SimpleDiarizer::new());
    let meeting_id = start(&mut daemon, &mut store, "Wall Clock").expect("meeting start");

    {
        let meeting = daemon.current_meeting_mut().expect("meeting");
        meeting.transcript.add_segment(TranscriptSegment::new(
            99,
            0,
            1_000,
            "earlier turn".to_string(),
            0,
        ));
        meeting.transcript.total_chunks = 1;
        meeting.metadata.chunk_count = 1;
    }
    store
        .save(daemon.persist_current_meeting().expect("meeting"))
        .expect("persist seed transcript");

    daemon.state = MeetingState::Active {
        started_at: Instant::now() - Duration::from_secs(10),
        chunks_processed: 1,
    };

    let samples = vec![of(0.2); 16_000];
    let pending = daemon
        .process_chunk_with_source(samples, AudioSource::Microphone)
        .expect("process chunk")
        .expect("segments");
    assert!(pending.persist);
    let persisted = store.save(daemon.persist_current_meeting().expect("meeting"));
    let result = daemon.finish_chunk(pending, persisted);

    assert_eq!(result.len(), 1);
    assert!(result[0].start_ms >= 8_000);

    let (segments, _) = &store.meetings[&meeting_id.text];
    assert!(
        segments.iter().any(|segment| segment.start_ms >= 8_000),
        "expected a wall-clock timestamp in the persisted transcript"
    );
}

#[test]
fn test_stop_cleans_up_even_if_final_persist_fails() {
    let mut store = Store::default();
    let mut daemon = create_test_meeting_daemon(false, SimpleDiarizer::new());
    let meeting_id = start(&mut daemon, &mut store, "Stop Failure").expect("meeting start");

    store.meetings.remove(&meeting_id.text);

    let err = stop(&mut daemon, &mut store).expect_err("stop should report persist error");
    assert!(err.message().contains("storage"));
    assert!(daemon.state().is_idle());
    assert!(daemon.current_meeting.is_none());
    assert_eq!(daemon.next_segment_id, 0);
    assert!(matches!(
        daemon.outbox.last(),
        Some(MeetingEvent::Error(text)) if text
            == "Failed to finalize meeting id of Stop Failure: Meeting storage error: meeting directory is gone"
    ));
}

#[test]
fn test_meeting_diarizer_resets_on_start_and_stop() {
    let reset_calls = Arc::new(AtomicUsize::new(0));
    let mut store = Store::default();
    let mut daemon =
        create_test_meeting_daemon(false, ResetTrackingDiarizer::new(reset_calls.clone()));

    start(&mut daemon, &mut store, "First").expect("first start");
    assert_eq!(reset_calls.load(Ordering::SeqCst), 1);

    stop(&mut daemon, &mut store).expect("first stop");
    assert_eq!(reset_calls.load(Ordering::SeqCst), 2);

    start(&mut daemon, &mut store, "Second").expect("second start");
    assert_eq!(reset_calls.load(Ordering::SeqCst), 3);
}

#[test]
fn a_meeting_from_start_to_stop() {
    let mut store = Store::default();
    let mut daemon = create_test_meeting_daemon(true, SimpleDiarizer::new());
    assert!(daemon.current_meeting_id().is_none());
    let id = start(&mut daemon, &mut store, "Whole").expect("start");
    assert_eq!(id.text, "id of Whole");
    assert_eq!(daemon.current_meeting_id().unwrap().text, "id of Whole");
    {
        let metadata = &daemon.current_meeting.as_ref().unwrap().metadata;
        assert_eq!(metadata.model.as_deref(), Some("test"));
        assert_eq!(metadata.storage_path.as_deref(), Some("/meetings/id of Whole"));
        assert_eq!(metadata.title.as_deref(), Some("Whole"));
        assert_eq!(metadata.status, MeetingStatus::Active);
    }
    let first = process(
        &mut daemon,
        &mut store,
        vec![of(0.2); 16_000],
        AudioSource::Loopback,
        2_000,
    )
    .unwrap()
    .unwrap();
    assert_eq!(first.len(), 1);
    assert_eq!(first[0].id, 0);
    assert_eq!(first[0].speaker_id.as_deref(), Some("Remote"));
    assert_eq!(value(first[0].confidence.unwrap()), 1.0);
    assert_eq!((first[0].start_ms, first[0].end_ms), (2_000, 3_000));
    daemon.pause().unwrap();
    assert!(process(
        &mut daemon,
        &mut store,
        vec![of(0.2); 16_000],
        AudioSource::Loopback,
        3_000,
    )
    .unwrap()
    .is_none());
    daemon.resume().unwrap();
    let second = process(
        &mut daemon,
        &mut store,
        vec![of(0.2); 16_000],
        AudioSource::Microphone,
        1_000,
    )
    .unwrap()
    .unwrap();
    assert_eq!(second[0].id, 1);
    assert_eq!(second[0].chunk_id, 1);
    assert_eq!(second[0].speaker_id.as_deref(), Some("You"));
    let silent = process(
        &mut daemon,
        &mut store,
        vec![of(0.0); 16_000],
        AudioSource::Microphone,
        4_000,
    )
    .unwrap()
    .unwrap();
    assert!(silent.is_empty());
    assert_eq!(stop(&mut daemon, &mut store).unwrap().text, "id of Whole");
    let (segments, chunks) = &store.meetings["id of Whole"];
    assert_eq!(*chunks, 3);
    // with diarization, segments stay in the order in which they came
    assert_eq!(segments[0].start_ms, 2_000);
    assert_eq!(segments[1].start_ms, 1_000);
    let kinds: Vec<&str> = daemon
        .outbox
        .iter()
        .map(|event| match event {
            MeetingEvent::Started { .. } => "started",
            MeetingEvent::ChunkProcessed { .. } => "chunk",
            MeetingEvent::Paused => "paused",
            MeetingEvent::Resumed => "resumed",
            MeetingEvent::Stopped { .. } => "stopped",
            MeetingEvent::Error(_) => "error",
        })
        .collect();
    assert_eq!(kinds, vec!["started", "chunk", "paused", "resumed", "chunk", "chunk", "stopped"]);
}

#[test]
fn requests_in_the_wrong_state_are_refused() {
    let mut store = Store::default();
    let mut daemon = create_test_meeting_daemon(false, SimpleDiarizer::new());
    assert!(matches!(daemon.pause(), Err(MeetingError::NotActive)));
    assert!(matches!(daemon.resume(), Err(MeetingError::NotPaused)));
    assert!(matches!(daemon.stop(), Err(MeetingError::NotInProgress)));
    assert!(daemon.process_chunk(vec![of(0.2); 16_000]).unwrap().is_none());
    start(&mut daemon, &mut store, "One").unwrap();
    assert!(matches!(
        start(&mut daemon, &mut store, "Two"),
        Err(MeetingError::AlreadyInProgress)
    ));
    assert!(matches!(daemon.resume(), Err(MeetingError::NotPaused)));
    daemon.pause().unwrap();
    assert!(matches!(daemon.pause(), Err(MeetingError::NotActive)));
    assert_eq!(MeetingError::AlreadyInProgress.message(), "Meeting already in progress");
    assert_eq!(MeetingError::NotActive.message(), "Meeting is not active");
    assert_eq!(MeetingError::NotPaused.message(), "Meeting is not paused");
    assert_eq!(MeetingError::NotInProgress.message(), "No meeting in progress");
}

#[test]
fn a_meeting_that_cannot_be_stored_does_not_start() {
    let mut daemon = create_test_meeting_daemon(false, SimpleDiarizer::new());
    let meeting = daemon.start(MeetingId::default(), None).unwrap();
    let refused = daemon.finish_start(meeting, Err("disk full".to_string()));
    assert_eq!(refused.unwrap_err().message(), "Meeting storage error: disk full");
    assert!(daemon.state().is_idle());
    assert!(daemon.current_meeting.is_none());
    assert!(daemon.outbox.is_empty());
}

#[test]
fn transcription_needs_a_transcriber_that_works() {
    let mut store = Store::default();
    let mut daemon = create_test_meeting_daemon(false, SimpleDiarizer::new());
    start(&mut daemon, &mut store, "Broken").unwrap();
    daemon.transcriber = Some(MockTranscriber::new("fail"));
    let failed = daemon.process_chunk(vec![of(0.2); 16_000]).unwrap_err();
    assert_eq!(failed.message(), "no model");
    assert_eq!(daemon.state().chunks_processed(), 0);
    daemon.transcriber = None;
    let missing = daemon.process_chunk(vec![of(0.2); 16_000]).unwrap_err();
    assert!(matches!(missing, MeetingError::TranscriberNotInitialized));
    assert_eq!(missing.message(), "Transcriber not initialized");
}

#[test]
fn without_speakers_the_loopback_is_sorted_in() {
    let mut store = Store::default();
    let mut daemon = create_test_meeting_daemon(false, SimpleDiarizer::new());
    start(&mut daemon, &mut store, "Sorted").unwrap();
    for (source, at) in [
        (AudioSource::Microphone, 5_000),
        (AudioSource::Microphone, 1_000),
        (AudioSource::Loopback, 3_000),
    ] {
        process(&mut daemon, &mut store, vec![of(0.2); 16_000], source, at).unwrap();
    }
    let segments = &daemon.current_meeting.as_ref().unwrap().transcript.segments;
    let starts: Vec<u64> = segments.iter().map(|s| s.start_ms).collect();
    assert_eq!(starts, vec![1_000, 3_000, 5_000]);
    assert!(segments[0].speaker_id.is_none());
}

#[test]
fn recording_sorts_stably() {
    let part = |id: u32, start_ms: u64, end_ms: u64, chunk_id: u32, text: &str| {
        TranscriptSegment::new(id, start_ms, end_ms, text.to_string(), chunk_id)
    };
    let mut segments = vec![
        part(3, 10, 20, 0, "a"),
        part(1, 10, 20, 0, "b"),
        part(1, 10, 20, 0, "c"),
        part(0, 10, 15, 9, "d"),
    ];
    let new = vec![part(7, 5, 6, 1, "e"), part(1, 10, 20, 0, "f")];
    record_segments(&mut segments, &new, false, AudioSource::Loopback);
    let texts: Vec<&str> = segments.iter().map(|s| s.text.as_str()).collect();
    assert_eq!(texts, vec!["e", "d", "b", "c", "f", "a"]);
    let mut appended = vec![part(3, 10, 20, 0, "a")];
    record_segments(&mut appended, &new, true, AudioSource::Loopback);
    let texts: Vec<&str> = appended.iter().map(|s| s.text.as_str()).collect();
    assert_eq!(texts, vec!["a", "e", "f"]);
}

#[test]
fn refined_segments_reuse_identifiers() {
    let plain = vec![
        TranscriptSegment::new(4, 0, 100, "one two".to_string(), 2),
        TranscriptSegment::new(5, 100, 200, "three".to_string(), 2),
    ];
    let piece = |start_ms: u64, text: &str| DiarizedSegment {
        speaker: SpeakerId::Auto(1),
        start_ms,
        end_ms: start_ms + 10,
        text: text.to_string(),
        confidence: of(0.5),
    };
    let found = vec![piece(0, " one "), piece(10, "  "), piece(20, "two"), piece(30, "three"), piece(40, "!")];
    let (refined, next) = assign_speakers(plain.clone(), &found, 6, 2, AudioSource::Loopback);
    let ids: Vec<u32> = refined.iter().map(|s| s.id).collect();
    assert_eq!(ids, vec![4, 5, 6, 7]);
    assert_eq!(next, 8);
    assert_eq!(refined[0].text, "one");
    assert_eq!(refined[0].speaker_id.as_deref(), Some("SPEAKER_01"));
    assert_eq!(refined[0].source, AudioSource::Loopback);
    let (kept, next) = assign_speakers(plain, &vec![piece(0, " ")], 6, 2, AudioSource::Loopback);
    assert_eq!(kept.len(), 2);
    assert_eq!(kept[0].text, "one two");
    assert!(kept[0].speaker_id.is_none());
    assert_eq!(next, 6);
}

#[test]
fn chunks_start_before_they_end() {
    assert_eq!(start_of_chunk(Some(10_000), Some(3), 16_000), 9_000);
    assert_eq!(start_of_chunk(None, Some(3_000), 16_000), 2_000);
    assert_eq!(start_of_chunk(None, None, 16_000), 0);
    assert_eq!(start_of_chunk(Some(500), None, 16_000), 0);
}

#[test]
fn chunks_by_the_clock_start_where_they_should() {
    let mut store = Store::default();
    let mut daemon = create_test_meeting_daemon(false, SimpleDiarizer::new());
    start(&mut daemon, &mut store, "Clock").unwrap();
    let pending = daemon
        .process_chunk_by_clock(vec![of(0.2); 16_000], AudioSource::Microphone, Some(7_500))
        .unwrap()
        .unwrap();
    assert_eq!(pending.segments[0].start_ms, 6_500);
}

#[test]
fn meetings_are_listed_step_by_step() {
    let config = MeetingConfig {
        storage: StorageConfig {
            storage_path: "/here".to_string(),
            retain_audio: true,
            max_meetings: 4,
        },
        ..Default::default()
    };
    assert!(matches!(
        list_meetings(&config, Some(3), ListEvent::Begin),
        ListAction::Open(storage) if storage.storage_path == "/here" && storage.max_meetings == 4
    ));
    assert!(matches!(
        list_meetings(&config, Some(3), ListEvent::Opened(Ok(()))),
        ListAction::List(Some(3))
    ));
    assert!(matches!(
        list_meetings(&config, None, ListEvent::Opened(Err(StorageError::Io("x".to_string())))),
        ListAction::Return(Err(StorageError::Io(e))) if e == "x"
    ));
    let meeting = MeetingData::new(MeetingId { text: "m".to_string() }, None);
    assert!(matches!(
        list_meetings(&config, None, ListEvent::Listed(Ok(vec![meeting.metadata]))),
        ListAction::Return(Ok(all)) if all.len() == 1 && all[0].id.text == "m"
    ));
}

#[test]
fn a_meeting_is_looked_up_step_by_step() {
    let config = MeetingConfig::default();
    assert!(matches!(
        get_meeting(&config, "latest", GetEvent::Begin),
        GetAction::Open(storage) if storage.storage_path.is_empty()
    ));
    assert!(matches!(
        get_meeting(&config, "latest", GetEvent::Opened(Ok(()))),
        GetAction::Resolve(id) if id == "latest"
    ));
    assert!(matches!(
        get_meeting(&config, "x", GetEvent::Opened(Err(StorageError::Other("o".to_string())))),
        GetAction::Return(Err(StorageError::Other(_)))
    ));
    assert!(matches!(
        get_meeting(&config, "x", GetEvent::Resolved(Ok(MeetingId { text: "m".to_string() }))),
        GetAction::Load(id) if id.text == "m"
    ));
    assert!(matches!(
        get_meeting(&config, "x", GetEvent::Resolved(Err(StorageError::NotFound("x".to_string())))),
        GetAction::Return(Err(StorageError::NotFound(id))) if id == "x"
    ));
    let meeting = MeetingData::new(MeetingId { text: "m".to_string() }, None);
    assert!(matches!(
        get_meeting(&config, "x", GetEvent::Loaded(Ok(meeting))),
        GetAction::Return(Ok(found)) if found.metadata.id.text == "m"
    ));
}

#[test]
fn a_meeting_is_exported_step_by_step() {
    let config = MeetingConfig::default();
    let step = |event: ExportEvent| -> ExportAction<&'static str, u8> {
        export_meeting_by_id(&config, "latest", "markdown", 7, event)
    };
    assert!(matches!(
        step(ExportEvent::Lookup(GetEvent::Begin)),
        ExportAction::Lookup(GetAction::Open(_))
    ));
    assert!(matches!(
        step(ExportEvent::Lookup(GetEvent::Opened(Ok(())))),
        ExportAction::Lookup(GetAction::Resolve(id)) if id == "latest"
    ));
    assert!(matches!(
        step(ExportEvent::Lookup(GetEvent::Loaded(Err(StorageError::Io("x".to_string()))))),
        ExportAction::Return(Err(StorageError::Io(_)))
    ));
    let meeting = MeetingData::new(MeetingId { text: "m".to_string() }, None);
    assert!(matches!(
        step(ExportEvent::Lookup(GetEvent::Loaded(Ok(meeting)))),
        ExportAction::Export { meeting, format: "markdown", options: 7 }
            if meeting.metadata.id.text == "m"
    ));
    assert!(matches!(
        step(ExportEvent::Exported(Ok("text".to_string()))),
        ExportAction::Return(Ok(text)) if text == "text"
    ));
    assert!(matches!(
        step(ExportEvent::Exported(Err("no template".to_string()))),
        ExportAction::Return(Err(StorageError::Io(e))) if e == "no template"
    ));
}

#[test]
fn a_meeting_is_stored_step_by_step() {
    let mut meeting = MeetingData::new(MeetingId { text: "m".to_string() }, None);
    meeting.transcript.total_chunks = 4;
    assert!(matches!(
        persist_step(&meeting, PersistEvent::Begin),
        PersistAction::SaveTranscript { id, transcript }
            if id.text == "m" && transcript.total_chunks == 4
    ));
    assert!(matches!(
        persist_step(&meeting, PersistEvent::TranscriptSaved(Ok(()))),
        PersistAction::UpdateMetadata { metadata } if metadata.id.text == "m"
    ));
    assert!(matches!(
        persist_step(&meeting, PersistEvent::TranscriptSaved(Err("full".to_string()))),
        PersistAction::Return(Err(e)) if e == "full"
    ));
    assert!(matches!(
        persist_step(&meeting, PersistEvent::MetadataUpdated(Ok(()))),
        PersistAction::Return(Ok(()))
    ));
    assert!(matches!(
        persist_step(&meeting, PersistEvent::MetadataUpdated(Err("gone".to_string()))),
        PersistAction::Return(Err(e)) if e == "gone"
    ));
}

/// Splits every segment in two, and counts how often it is asked.
struct Splitting {
    asked: Arc<AtomicUsize>,
}

impl Diarizer for Splitting {
    fn diarize(
        &mut self,
        _samples: &[Float32],
        _chunk_start_ms: u64,
        _source: AudioSource,
        transcript_segments: &[TranscriptSegment],
    ) -> Vec<DiarizedSegment> {
        self.asked.fetch_add(1, Ordering::SeqCst);
        let mut out = Vec::new();
        for segment in transcript_segments {
            for speaker in 0..2 {
                out.push(DiarizedSegment {
                    speaker: SpeakerId::Auto(speaker),
                    start_ms: segment.start_ms,
                    end_ms: segment.end_ms,
                    text: segment.text.clone(),
                    confidence: of(0.5),
                });
            }
        }
        out
    }

    fn name(&self) -> &'static str {
        "splitting"
    }
}

#[test]
fn no_identifier_is_given_twice_in_a_meeting() {
    let asked = Arc::new(AtomicUsize::new(0));
    let mut store = Store::default();
    let mut daemon = create_test_meeting_daemon(true, Splitting { asked: asked.clone() });
    start(&mut daemon, &mut store, "Ids").unwrap();
    let mut ids: Vec<u32> = Vec::new();
    let mut next = daemon.next_segment_id;
    for i in 0..4u64 {
        let samples = if i == 2 { vec![of(0.0); 16_000] } else { vec![of(0.2); 16_000] };
        let segments = process(&mut daemon, &mut store, samples, AudioSource::Loopback, i * 1_000)
            .unwrap()
            .unwrap();
        for segment in &segments {
            assert!(next <= segment.id && segment.id < daemon.next_segment_id);
            ids.push(segment.id);
        }
        assert!(next <= daemon.next_segment_id);
        next = daemon.next_segment_id;
        daemon.pause().unwrap();
        daemon.resume().unwrap();
    }
    assert_eq!(ids, vec![0, 1, 2, 3, 4, 5]);
    // the silent chunk has nothing to attribute
    assert_eq!(asked.load(Ordering::SeqCst), 3);
}

#[test]
fn a_diarizer_that_is_off_is_not_asked() {
    let asked = Arc::new(AtomicUsize::new(0));
    let mut store = Store::default();
    let mut daemon = create_test_meeting_daemon(false, Splitting { asked: asked.clone() });
    start(&mut daemon, &mut store, "Off").unwrap();
    let segments =
        process(&mut daemon, &mut store, vec![of(0.2); 16_000], AudioSource::Loopback, 0)
            .unwrap()
            .unwrap();
    assert_eq!(segments.len(), 1);
    assert_eq!(asked.load(Ordering::SeqCst), 0);
}

#[test]
fn a_failed_write_only_adds_an_error() {
    let run = |lose: bool| {
        let mut store = Store::default();
        let mut daemon = create_test_meeting_daemon(false, SimpleDiarizer::new());
        let id = start(&mut daemon, &mut store, "Write").unwrap();
        if lose {
            store.meetings.remove(&id.text);
        }
        let segments =
            process(&mut daemon, &mut store, vec![of(0.2); 16_000], AudioSource::Microphone, 500)
                .unwrap()
                .unwrap();
        let transcript: Vec<String> = daemon
            .current_meeting
            .as_ref()
            .unwrap()
            .transcript
            .segments
            .iter()
            .map(|s| s.text.clone())
            .collect();
        let events: Vec<bool> =
            daemon.outbox.iter().map(|e| matches!(e, MeetingEvent::Error(_))).collect();
        (
            segments.len(),
            segments[0].start_ms,
            transcript,
            daemon.state().chunks_processed(),
            daemon.next_segment_id,
            events,
        )
    };
    let stored = run(false);
    let unstored = run(true);
    assert_eq!(stored.5, vec![false, false]);
    assert_eq!(unstored.5, vec![false, true, false]);
    assert_eq!(
        (stored.0, stored.1, stored.2, stored.3, stored.4),
        (unstored.0, unstored.1, unstored.2, unstored.3, unstored.4)
    );
}
