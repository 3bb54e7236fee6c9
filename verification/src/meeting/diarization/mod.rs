//! Speaker diarization: who said what.
//!
//! - **Simple**: by audio source, microphone against loopback.
//! - **Embedding**: by local speaker embeddings with online centroid matching.
pub mod backend;
pub mod cluster_laws;
pub mod clusters;
pub mod embedding;
pub mod known_laws;
pub mod loopback_laws;
pub mod match_laws;
pub mod merge_laws;
pub mod plan;
pub mod plan_laws;
pub mod run_laws;
pub mod runs;
pub mod score_laws;
pub mod sentence_laws;
pub mod simple;
pub mod speaker_laws;
pub mod split;
pub mod split_laws;
pub mod vector_laws;
pub mod vectors;
pub mod window_laws;
pub mod windows;

use vstd::prelude::*;
use vstd::string::StringExecFns;
use crate::float32::Float32;
use crate::meeting::data::{clone_optional, AudioSource, TranscriptSegment};
use crate::text::{decimal_two, two_digits};

verus! {

/// Speaker identifier.
#[derive(Debug, Eq, Hash)]
pub enum SpeakerId {
    /// The local user (from microphone).
    You,
    /// Remote participant(s) (from loopback).
    Remote,
    /// Unknown speaker.
    Unknown,
    /// Identified speaker with label.
    Named(String),
    /// Numbered speaker (e.g., SPEAKER_00).
    Auto(u32),
}

/// What a speaker identifier says.
pub enum Speaker {
    You,
    Remote,
    Unknown,
    Named(Seq<char>),
    Auto(u32),
}

impl View for SpeakerId {
    type V = Speaker;

    open spec fn view(&self) -> Speaker {
        match self {
            SpeakerId::You => Speaker::You,
            SpeakerId::Remote => Speaker::Remote,
            SpeakerId::Unknown => Speaker::Unknown,
            SpeakerId::Named(name) => Speaker::Named(name@),
            SpeakerId::Auto(id) => Speaker::Auto(*id),
        }
    }
}

impl Clone for SpeakerId {
    fn clone(&self) -> (r: Self)
        ensures
            r == *self,
    {
        match self {
            SpeakerId::You => SpeakerId::You,
            SpeakerId::Remote => SpeakerId::Remote,
            SpeakerId::Unknown => SpeakerId::Unknown,
            SpeakerId::Named(name) => SpeakerId::Named(name.clone()),
            SpeakerId::Auto(id) => SpeakerId::Auto(*id),
        }
    }
}

impl PartialEq for SpeakerId {
    fn eq(&self, other: &Self) -> (r: bool) {
        match (self, other) {
            (SpeakerId::You, SpeakerId::You) => true,
            (SpeakerId::Remote, SpeakerId::Remote) => true,
            (SpeakerId::Unknown, SpeakerId::Unknown) => true,
            (SpeakerId::Named(a), SpeakerId::Named(b)) => *a == *b,
            (SpeakerId::Auto(a), SpeakerId::Auto(b)) => *a == *b,
            _ => false,
        }
    }
}

impl vstd::std_specs::cmp::PartialEqSpecImpl for SpeakerId {
    open spec fn obeys_eq_spec() -> bool {
        true
    }

    open spec fn eq_spec(&self, other: &Self) -> bool {
        self@ == other@
    }
}

/// The name under which a speaker is shown.
pub open spec fn shown_name(s: Speaker) -> Seq<char> {
    match s {
        Speaker::You => "You"@,
        Speaker::Remote => "Remote"@,
        Speaker::Unknown => "Unknown"@,
        Speaker::Named(name) => name,
        Speaker::Auto(id) => "SPEAKER_"@ + decimal_two(id as nat),
    }
}

impl SpeakerId {
    /// Get display name for this speaker.
    pub fn display_name(&self) -> (r: String)
        ensures
            r@ == shown_name(self@),
    {
        match self {
            SpeakerId::You => "You".to_owned(),
            SpeakerId::Remote => "Remote".to_owned(),
            SpeakerId::Unknown => "Unknown".to_owned(),
            SpeakerId::Named(name) => name.clone(),
            SpeakerId::Auto(id) => {
                let mut s: String = "SPEAKER_".to_owned();
                s.append(two_digits(*id).as_str());
                s
            },
        }
    }
}

/// A segment with speaker attribution.
#[derive(Debug)]
pub struct DiarizedSegment {
    /// Speaker who said this.
    pub speaker: SpeakerId,
    /// Start time in milliseconds.
    pub start_ms: u64,
    /// End time in milliseconds.
    pub end_ms: u64,
    /// Transcribed text.
    pub text: String,
    /// Confidence score (0.0 - 1.0).
    pub confidence: Float32,
}

/// What an attributed segment says.
#[verifier::ext_equal]
pub struct DiarizedView {
    pub speaker: Speaker,
    pub start_ms: u64,
    pub end_ms: u64,
    pub text: Seq<char>,
    pub confidence: Float32,
}

impl View for DiarizedSegment {
    type V = DiarizedView;

    open spec fn view(&self) -> DiarizedView {
        DiarizedView {
            speaker: self.speaker@,
            start_ms: self.start_ms,
            end_ms: self.end_ms,
            text: self.text@,
            confidence: self.confidence,
        }
    }
}

impl Clone for DiarizedSegment {
    fn clone(&self) -> (r: Self)
        ensures
            r == *self,
    {
        DiarizedSegment {
            speaker: self.speaker.clone(),
            start_ms: self.start_ms,
            end_ms: self.end_ms,
            text: self.text.clone(),
            confidence: self.confidence,
        }
    }
}

/// What the attributed segments of a list say.
pub open spec fn diarized_views(v: Seq<DiarizedSegment>) -> Seq<DiarizedView> {
    v.map_values(|s: DiarizedSegment| s@)
}

/// Transcript segments, all attributed to one speaker.
pub open spec fn all_by(
    segments: Seq<TranscriptSegment>,
    speaker: Speaker,
    confidence: Float32,
) -> Seq<DiarizedView> {
    Seq::new(
        segments.len(),
        |i: int|
            DiarizedView {
                speaker,
                start_ms: segments[i].start_ms,
                end_ms: segments[i].end_ms,
                text: segments[i].text@,
                confidence,
            },
    )
}

/// Attributes all transcript segments to one speaker.
pub fn attribute_all(
    segments: &[TranscriptSegment],
    speaker: &SpeakerId,
    confidence: Float32,
) -> (r: Vec<DiarizedSegment>)
    ensures
        diarized_views(r@) == all_by(segments@, speaker@, confidence),
{
    let ghost goal = all_by(segments@, speaker@, confidence);
    let mut out: Vec<DiarizedSegment> = Vec::new();
    let mut i: usize = 0;
    assert(diarized_views(out@) =~= goal.take(0));
    while i < segments.len()
        invariant
            i <= segments.len(),
            goal == all_by(segments@, speaker@, confidence),
            diarized_views(out@) == goal.take(i as int),
        decreases segments.len() - i,
    {
        let ghost before = diarized_views(out@);
        let one = DiarizedSegment {
            speaker: speaker.clone(),
            start_ms: segments[i].start_ms,
            end_ms: segments[i].end_ms,
            text: segments[i].text.clone(),
            confidence,
        };
        out.push(one);
        assert(one@ == goal[i as int]);
        assert(diarized_views(out@) =~= before.push(one@));
        assert(goal.take(i + 1) =~= before.push(one@));
        i = i + 1;
    }
    assert(goal.take(i as int) =~= goal);
    out
}

/// A diarization backend.
pub trait Diarizer: Send + Sync {
    /// Process audio samples and return diarized segments.
    fn diarize(
        &mut self,
        samples: &[Float32],
        chunk_start_ms: u64,
        source: AudioSource,
        transcript_segments: &[TranscriptSegment],
    ) -> (r: Vec<DiarizedSegment>);

    /// Get the backend name.
    fn name(&self) -> (r: &'static str);

    /// Reset any in-memory state before a new meeting starts.
    fn reset(&mut self) {
    }
}

/// 1.5.
const DEFAULT_WINDOW_BITS: u32 = 0x3fc0_0000;

/// 0.3.
const DEFAULT_CONFIDENT_BITS: u32 = 0x3e99_999a;

/// 0.15.
const DEFAULT_UNCERTAIN_BITS: u32 = 0x3e19_999a;

/// Diarization configuration.
#[derive(Debug)]
pub struct DiarizationConfig {
    /// Enable diarization.
    pub enabled: bool,
    /// Backend to use: "simple", "embedding", "ml", or "subprocess".
    pub backend: String,
    /// Maximum number of speakers to detect.
    pub max_speakers: u32,
    /// Named embedding model to use with the embedding backend.
    pub model: String,
    /// Minimum segment duration in milliseconds.
    pub min_segment_ms: u64,
    /// Maximum audio window in seconds to feed into the embedding model.
    pub window_secs: Float32,
    /// Similarity threshold for confident speaker matches.
    pub confident_threshold: Float32,
    /// Similarity threshold for lower-confidence speaker matches.
    pub uncertain_threshold: Float32,
    /// Path to the ONNX model.
    pub model_path: Option<String>,
}

impl Clone for DiarizationConfig {
    fn clone(&self) -> (r: Self)
        ensures
            r == *self,
    {
        DiarizationConfig {
            enabled: self.enabled,
            backend: self.backend.clone(),
            max_speakers: self.max_speakers,
            model: self.model.clone(),
            min_segment_ms: self.min_segment_ms,
            window_secs: self.window_secs,
            confident_threshold: self.confident_threshold,
            uncertain_threshold: self.uncertain_threshold,
            model_path: clone_optional(&self.model_path),
        }
    }
}

impl Default for DiarizationConfig {
    fn default() -> (r: Self)
        ensures
            r.enabled,
            r.backend@ == "simple"@,
            r.max_speakers == 10,
            r.model@ == "wespeaker-resnet221-lm"@,
            r.min_segment_ms == 500,
            r.window_secs.bits == 0x3fc0_0000,
            r.confident_threshold.bits == 0x3e99_999a,
            r.uncertain_threshold.bits == 0x3e19_999a,
            r.model_path is None,
    {
        DiarizationConfig {
            enabled: true,
            backend: "simple".to_owned(),
            max_speakers: 10,
            model: "wespeaker-resnet221-lm".to_owned(),
            min_segment_ms: 500,
            window_secs: Float32::from_bits(DEFAULT_WINDOW_BITS),
            confident_threshold: Float32::from_bits(DEFAULT_CONFIDENT_BITS),
            uncertain_threshold: Float32::from_bits(DEFAULT_UNCERTAIN_BITS),
            model_path: None,
        }
    }
}

} // verus!
