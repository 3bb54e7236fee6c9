//! Meeting data: sources, transcript segments, transcripts, meetings.
use vstd::prelude::*;
use crate::float32::Float32;

verus! {

/// Where audio comes from.
#[derive(Clone, Copy, Debug, PartialEq, Eq, Structural)]
pub enum AudioSource {
    /// The local microphone.
    Microphone,
    /// What the machine plays.
    Loopback,
    /// Not known.
    Unknown,
}

/// A transcribed stretch of speech.
#[derive(Debug)]
pub struct TranscriptSegment {
    pub id: u32,
    /// Start, in milliseconds from the start of the meeting.
    pub start_ms: u64,
    /// End, in milliseconds from the start of the meeting.
    pub end_ms: u64,
    pub text: String,
    pub source: AudioSource,
    pub speaker_id: Option<String>,
    pub speaker_label: Option<String>,
    pub confidence: Option<Float32>,
    /// The chunk of audio that the segment was transcribed from.
    pub chunk_id: u32,
}

/// What a transcript segment says.
#[verifier::ext_equal]
pub struct SegmentView {
    pub id: u32,
    pub start_ms: u64,
    pub end_ms: u64,
    pub text: Seq<char>,
    pub source: AudioSource,
    pub speaker_id: Option<Seq<char>>,
    pub speaker_label: Option<Seq<char>>,
    pub confidence: Option<Float32>,
    pub chunk_id: u32,
}

pub open spec fn optional_text(t: Option<String>) -> Option<Seq<char>> {
    match t {
        Some(s) => Some(s@),
        None => None,
    }
}

impl View for TranscriptSegment {
    type V = SegmentView;

    open spec fn view(&self) -> SegmentView {
        SegmentView {
            id: self.id,
            start_ms: self.start_ms,
            end_ms: self.end_ms,
            text: self.text@,
            source: self.source,
            speaker_id: optional_text(self.speaker_id),
            speaker_label: optional_text(self.speaker_label),
            confidence: self.confidence,
            chunk_id: self.chunk_id,
        }
    }
}

/// What the segments of a list say.
pub open spec fn segment_views(v: Seq<TranscriptSegment>) -> Seq<SegmentView> {
    v.map_values(|s: TranscriptSegment| s@)
}

/// The length of the time between two points, zero where the second does not follow.
pub open spec fn span(start_ms: u64, end_ms: u64) -> nat {
    if start_ms < end_ms {
        (end_ms - start_ms) as nat
    } else {
        0
    }
}

/// A segment as transcription leaves it: without source, speaker and confidence.
pub open spec fn plain_segment(
    id: u32,
    start_ms: u64,
    end_ms: u64,
    text: Seq<char>,
    chunk_id: u32,
) -> SegmentView {
    SegmentView {
        id,
        start_ms,
        end_ms,
        text,
        source: AudioSource::Unknown,
        speaker_id: None,
        speaker_label: None,
        confidence: None,
        chunk_id,
    }
}

/// The same optional text.
pub fn clone_optional(t: &Option<String>) -> (r: Option<String>)
    ensures
        r == *t,
{
    match t {
        Some(s) => Some(s.clone()),
        None => None,
    }
}

impl Clone for TranscriptSegment {
    fn clone(&self) -> (r: Self)
        ensures
            r == *self,
    {
        TranscriptSegment {
            id: self.id,
            start_ms: self.start_ms,
            end_ms: self.end_ms,
            text: self.text.clone(),
            source: self.source,
            speaker_id: clone_optional(&self.speaker_id),
            speaker_label: clone_optional(&self.speaker_label),
            confidence: self.confidence,
            chunk_id: self.chunk_id,
        }
    }
}

impl TranscriptSegment {
    /// A segment without source, speaker and confidence.
    pub fn new(id: u32, start_ms: u64, end_ms: u64, text: String, chunk_id: u32) -> (r: Self)
        ensures
            r@ == plain_segment(id, start_ms, end_ms, text@, chunk_id),
    {
        TranscriptSegment {
            id,
            start_ms,
            end_ms,
            text,
            source: AudioSource::Unknown,
            speaker_id: None,
            speaker_label: None,
            confidence: None,
            chunk_id,
        }
    }

    /// The length of the segment in milliseconds.
    pub fn duration_ms(&self) -> (r: u64)
        ensures
            r == span(self.start_ms, self.end_ms),
    {
        self.end_ms.saturating_sub(self.start_ms)
    }
}

/// The same segments, in a list of its own.
pub fn clone_segments(v: &Vec<TranscriptSegment>) -> (r: Vec<TranscriptSegment>)
    ensures
        r@ == v@,
{
    let mut out: Vec<TranscriptSegment> = Vec::new();
    let mut i: usize = 0;
    while i < v.len()
        invariant
            i <= v.len(),
            out@ == v@.take(i as int),
        decreases v.len() - i,
    {
        out.push(v[i].clone());
        assert(out@ =~= v@.take(i + 1));
        i = i + 1;
    }
    assert(v@.take(i as int) =~= v@);
    out
}

/// Identifier of a meeting.
#[derive(Debug)]
pub struct MeetingId {
    pub text: String,
}

impl Clone for MeetingId {
    fn clone(&self) -> (r: Self)
        ensures
            r == *self,
    {
        MeetingId { text: self.text.clone() }
    }
}

impl Default for MeetingId {
    /// The identifier of no meeting.
    fn default() -> (r: Self)
        ensures
            r.text@ == ""@,
    {
        MeetingId { text: "".to_owned() }
    }
}

/// Whether a meeting goes on.
#[derive(Clone, Copy, Debug, PartialEq, Eq, Structural)]
pub enum MeetingStatus {
    Active,
    Completed,
}

/// What is known of a meeting besides its transcript.
#[derive(Debug)]
pub struct MeetingMetadata {
    pub id: MeetingId,
    pub title: Option<String>,
    pub status: MeetingStatus,
    /// The number of chunks processed.
    pub chunk_count: u32,
    /// The engine that transcribes.
    pub model: Option<String>,
    /// Where the meeting is stored.
    pub storage_path: Option<String>,
}

/// A transcript.
#[derive(Debug)]
pub struct Transcript {
    pub segments: Vec<TranscriptSegment>,
    /// The number of chunks processed.
    pub total_chunks: u32,
}

impl Transcript {
    /// An empty transcript.
    pub fn new() -> (r: Self)
        ensures
            r.segments@ == Seq::<TranscriptSegment>::empty(),
            r.total_chunks == 0,
    {
        Transcript { segments: Vec::new(), total_chunks: 0 }
    }

    /// Adds a segment at the end.
    pub fn add_segment(&mut self, segment: TranscriptSegment)
        ensures
            final(self).segments@ == old(self).segments@.push(segment),
            final(self).total_chunks == old(self).total_chunks,
    {
        self.segments.push(segment);
    }

    /// Adds segments at the end.
    pub fn add_segments(&mut self, segments: &Vec<TranscriptSegment>)
        ensures
            final(self).segments@ == old(self).segments@ + segments@,
            final(self).total_chunks == old(self).total_chunks,
    {
        let mut more: Vec<TranscriptSegment> = clone_segments(segments);
        self.segments.append(&mut more);
    }

    /// The end of the last segment.
    pub fn duration_ms(&self) -> (r: u64)
        ensures
            r == if self.segments@.len() == 0 {
                0
            } else {
                self.segments@.last().end_ms
            },
    {
        if self.segments.len() == 0 {
            0
        } else {
            self.segments[self.segments.len() - 1].end_ms
        }
    }
}

/// A meeting: what is known of it, and its transcript.
#[derive(Debug)]
pub struct MeetingData {
    pub metadata: MeetingMetadata,
    pub transcript: Transcript,
}

impl MeetingData {
    /// A meeting that starts, with nothing said yet.
    pub fn new(id: MeetingId, title: Option<String>) -> (r: Self)
        ensures
            r.metadata.id == id,
            r.metadata.title == title,
            r.metadata.status == MeetingStatus::Active,
            r.metadata.chunk_count == 0,
            r.metadata.model is None,
            r.metadata.storage_path is None,
            r.transcript.segments@ == Seq::<TranscriptSegment>::empty(),
            r.transcript.total_chunks == 0,
    {
        MeetingData {
            metadata: MeetingMetadata {
                id,
                title,
                status: MeetingStatus::Active,
                chunk_count: 0,
                model: None,
                storage_path: None,
            },
            transcript: Transcript::new(),
        }
    }

    /// Ends the meeting.
    pub fn complete(&mut self)
        ensures
            *final(self) == (MeetingData {
                metadata: MeetingMetadata {
                    status: MeetingStatus::Completed,
                    ..old(self).metadata
                },
                ..*old(self)
            }),
    {
        self.metadata.status = MeetingStatus::Completed;
    }
}

} // verus!
