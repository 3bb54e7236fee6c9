//! Meeting mode: continuous transcription with chunked processing and speaker
//! attribution.
//!
//! Audio of the microphone and of the loopback is cut into chunks. In each chunk, voice
//! activity detection finds the speech regions; each region is transcribed, and the
//! segments are attributed to speakers and recorded in the transcript of the meeting.
pub mod chunk;
pub mod chunk_laws;
pub mod daemon;
pub mod daemon_laws;
pub mod data;
pub mod diarization;
pub mod lookup;
pub mod persist;
pub mod record;
pub mod record_laws;
pub mod speech;
pub mod speech_laws;
pub mod state;
pub mod turn_laws;
pub mod view_laws;

pub use chunk::{ChunkBuffer, ChunkConfig, ChunkProcessor, ProcessedChunk, VoiceActivityDetector};
pub use daemon::{MeetingDaemon, MeetingError, PendingChunk};
pub use data::{
    AudioSource, MeetingData, MeetingId, MeetingMetadata, MeetingStatus, Transcript,
    TranscriptSegment,
};
pub use lookup::{export_meeting_by_id, get_meeting, list_meetings, StorageError};
pub use persist::{persist_step, PersistAction, PersistEvent};
pub use state::MeetingState;

use vstd::prelude::*;
use crate::meeting::diarization::DiarizationConfig;

verus! {

/// Where and how meetings are stored.
#[derive(Debug)]
pub struct StorageConfig {
    /// The directory of the store; an empty path stands for the default one.
    pub storage_path: String,
    /// Whether raw audio is kept.
    pub retain_audio: bool,
    /// How many meetings are kept (0 = all).
    pub max_meetings: u32,
}

impl Clone for StorageConfig {
    fn clone(&self) -> (r: Self)
        ensures
            r == *self,
    {
        StorageConfig {
            storage_path: self.storage_path.clone(),
            retain_audio: self.retain_audio,
            max_meetings: self.max_meetings,
        }
    }
}

impl Default for StorageConfig {
    fn default() -> (r: Self)
        ensures
            r.storage_path@ == ""@,
            !r.retain_audio,
            r.max_meetings == 0,
    {
        StorageConfig { storage_path: "".to_owned(), retain_audio: false, max_meetings: 0 }
    }
}

/// Meeting daemon configuration.
#[derive(Debug)]
pub struct MeetingConfig {
    /// Enable meeting mode.
    pub enabled: bool,
    /// Duration of each audio chunk in seconds.
    pub chunk_duration_secs: u32,
    /// Storage configuration.
    pub storage: StorageConfig,
    /// Whether to retain raw audio files.
    pub retain_audio: bool,
    /// Maximum meeting duration in minutes (0 = unlimited).
    pub max_duration_mins: u32,
    /// Speaker diarization configuration.
    pub diarization: DiarizationConfig,
}

impl Clone for MeetingConfig {
    fn clone(&self) -> (r: Self)
        ensures
            r == *self,
    {
        MeetingConfig {
            enabled: self.enabled,
            chunk_duration_secs: self.chunk_duration_secs,
            storage: self.storage.clone(),
            retain_audio: self.retain_audio,
            max_duration_mins: self.max_duration_mins,
            diarization: self.diarization.clone(),
        }
    }
}

impl Default for MeetingConfig {
    fn default() -> (r: Self)
        ensures
            !r.enabled,
            r.chunk_duration_secs == 30,
            r.storage.storage_path@ == ""@,
            !r.storage.retain_audio,
            r.storage.max_meetings == 0,
            !r.retain_audio,
            r.max_duration_mins == 180,
            r.diarization.enabled,
            r.diarization.backend@ == "simple"@,
            r.diarization.max_speakers == 10,
            r.diarization.model@ == "wespeaker-resnet221-lm"@,
            r.diarization.min_segment_ms == 500,
            r.diarization.window_secs.bits == 0x3fc0_0000,
            r.diarization.confident_threshold.bits == 0x3e99_999a,
            r.diarization.uncertain_threshold.bits == 0x3e19_999a,
            r.diarization.model_path is None,
    {
        MeetingConfig {
            enabled: false,
            chunk_duration_secs: 30,
            storage: StorageConfig::default(),
            retain_audio: false,
            max_duration_mins: 180,
            diarization: DiarizationConfig::default(),
        }
    }
}

/// Events from the meeting daemon.
#[derive(Debug)]
pub enum MeetingEvent {
    /// Meeting started.
    Started { meeting_id: MeetingId },
    /// Chunk processed.
    ChunkProcessed { chunk_id: u32, segments: Vec<TranscriptSegment> },
    /// Meeting paused.
    Paused,
    /// Meeting resumed.
    Resumed,
    /// Meeting stopped.
    Stopped { meeting_id: MeetingId },
    /// Error occurred.
    Error(String),
}

} // verus!
