//! Attribution by audio source: the microphone is "You", the loopback "Remote".
use vstd::prelude::*;
use crate::float32::Float32;
use crate::meeting::data::{AudioSource, TranscriptSegment};
use crate::meeting::diarization::vectors::ONE_BITS;
use crate::meeting::diarization::{
    all_by, attribute_all, diarized_views, DiarizedSegment, Diarizer, Speaker, SpeakerId,
};

verus! {

/// Who speaks on a source.
pub open spec fn source_speaker(source: AudioSource) -> Speaker {
    match source {
        AudioSource::Microphone => Speaker::You,
        AudioSource::Loopback => Speaker::Remote,
        AudioSource::Unknown => Speaker::Unknown,
    }
}

/// Simple diarizer using audio source for attribution.
#[derive(Clone, Copy, Debug)]
pub struct SimpleDiarizer;

impl SimpleDiarizer {
    /// Create a new simple diarizer.
    pub fn new() -> (r: Self)
        ensures
            r == SimpleDiarizer,
    {
        SimpleDiarizer
    }

    /// Convert audio source to speaker ID.
    pub fn source_to_speaker(source: AudioSource) -> (r: SpeakerId)
        ensures
            r@ == source_speaker(source),
    {
        match source {
            AudioSource::Microphone => SpeakerId::You,
            AudioSource::Loopback => SpeakerId::Remote,
            AudioSource::Unknown => SpeakerId::Unknown,
        }
    }
}

impl Default for SimpleDiarizer {
    fn default() -> (r: Self)
        ensures
            r == SimpleDiarizer,
    {
        Self::new()
    }
}

impl Diarizer for SimpleDiarizer {
    /// Every segment, in its time and with its text, is the source's speaker's, with full
    /// confidence.
    fn diarize(
        &mut self,
        samples: &[Float32],
        chunk_start_ms: u64,
        source: AudioSource,
        transcript_segments: &[TranscriptSegment],
    ) -> (r: Vec<DiarizedSegment>)
        ensures
            diarized_views(r@) == all_by(
                transcript_segments@,
                source_speaker(source),
                Float32 { bits: ONE_BITS },
            ),
            *final(self) == *old(self),
    {
        attribute_all(
            transcript_segments,
            &Self::source_to_speaker(source),
            Float32::from_bits(ONE_BITS),
        )
    }

    fn name(&self) -> (r: &'static str)
        ensures
            r@ == "simple"@,
    {
        "simple"
    }

    fn reset(&mut self)
        ensures
            *final(self) == *old(self),
    {
    }
}

} // verus!
