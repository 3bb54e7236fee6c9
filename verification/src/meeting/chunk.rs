//! Audio chunks: buffering, voice activity detection, and the way from speech regions
//! to transcript segments.
use std::time::{Duration, Instant};
use vstd::prelude::*;
use vstd::slice::slice_subrange;
use crate::float32::{of_integer, product, quotient, square_root, sum, truncated, Float32};
use crate::meeting::data::{plain_segment, segment_views, AudioSource, SegmentView, TranscriptSegment};
use crate::meeting::speech::{
    count_speech, find_regions, frame_end, pairs, regions, speech_count, MIN_SPEECH_FRAMES,
};
use crate::meeting::speech_laws::{framed, law_regions_ordered, ordered};
use crate::text::{texts, trim, trimmed};

verus! {

/// The length of a frame in milliseconds.
pub const WINDOW_MS: u32 = 30;

/// The longest stretch of speech that is transcribed in one piece, in seconds.
pub const MAX_SEGMENT_SECS: usize = 12;

/// 16000.
pub const RATE_16K_BITS: u32 = 0x467a_0000;

/// 0.01.
const DEFAULT_VAD_THRESHOLD_BITS: u32 = 0x3c23_d70a;

/// 0.5.
const DEFAULT_MIN_CHUNK_BITS: u32 = 0x3f00_0000;

/// A point of the monotonic clock.
#[verifier::external_type_specification]
#[verifier::external_body]
pub struct ExInstant(Instant);

/// Reads the monotonic clock with `Instant::now`. Nothing is claimed of the reading.
#[verifier::external_body]
fn clock() -> Instant {
    Instant::now()
}

/// The time since a reading of the clock, from `Instant::elapsed`. Nothing is claimed of
/// its length.
#[verifier::external_body]
fn since(start: &Instant) -> Duration {
    start.elapsed()
}

/// `at` is something that the monotonic clock read.
pub closed spec fn clock_reading(at: Instant) -> bool {
    call_ensures(clock, (), at)
}

/// Reads the monotonic clock.
pub(crate) fn now() -> (r: Instant)
    ensures
        clock_reading(r),
{
    clock()
}

/// `time` is something that the clock measured from `start` on.
pub closed spec fn measured_since(start: Instant, time: Duration) -> bool {
    call_ensures(since, (&start,), time)
}

/// Measures the time from `start` on.
pub(crate) fn time_since(start: &Instant) -> (r: Duration)
    ensures
        measured_since(*start, r),
{
    since(start)
}

/// The whole milliseconds of a length of time, from `Duration::as_millis`. Nothing is
/// claimed of the number.
#[verifier::external_body]
fn whole_millis(d: &Duration) -> u128 {
    d.as_millis()
}

/// `n` is what a length of time has in whole milliseconds.
pub closed spec fn millis_of(d: Duration, n: u128) -> bool {
    call_ensures(whole_millis, (&d,), n)
}

/// The whole milliseconds of a length of time.
pub(crate) fn millis(d: &Duration) -> (r: u128)
    ensures
        millis_of(*d, r),
{
    whole_millis(d)
}

/// `ms` is a time, in whole milliseconds of 64 bits, that the clock measured from `start` on.
pub open spec fn took(start: Instant, ms: u64) -> bool {
    exists|d: Duration, n: u128|
        measured_since(start, d) && #[trigger] millis_of(d, n) && ms == n as u64
}

/// Why speech could not be transcribed.
#[derive(Debug)]
pub struct TranscribeError {
    pub message: String,
}

/// Turns speech into text.
pub trait Transcriber {
    fn transcribe(&self, samples: &[Float32]) -> (r: Result<String, TranscribeError>);
}

/// `outcome` is something that `transcriber` returns for `samples`.
pub open spec fn transcribes<T: Transcriber>(
    transcriber: &T,
    samples: Seq<Float32>,
    outcome: Result<String, TranscribeError>,
) -> bool {
    exists|s: &[Float32]|
        #[trigger] s@ == samples && call_ensures(
            <T as Transcriber>::transcribe,
            (transcriber, s),
            outcome,
        )
}

/// Configuration for chunk processing.
#[derive(Clone, Copy, Debug)]
pub struct ChunkConfig {
    /// Duration of each audio chunk in seconds.
    pub chunk_duration_secs: u32,
    /// Minimum audio level to consider as speech (0.0 - 1.0).
    pub vad_threshold: Float32,
    /// Sample rate (expected 16000 Hz).
    pub sample_rate: u32,
    /// Minimum chunk duration to process (in seconds).
    pub min_chunk_duration_secs: Float32,
}

/// 30 seconds at 16 kHz, a threshold of 0.01, at least half a second.
pub open spec fn default_chunk_config() -> ChunkConfig {
    ChunkConfig {
        chunk_duration_secs: 30,
        vad_threshold: Float32 { bits: 0x3c23_d70a },
        sample_rate: 16000,
        min_chunk_duration_secs: Float32 { bits: 0x3f00_0000 },
    }
}

impl Default for ChunkConfig {
    fn default() -> (r: Self)
        ensures
            r == default_chunk_config(),
    {
        ChunkConfig {
            chunk_duration_secs: 30,
            vad_threshold: Float32::from_bits(DEFAULT_VAD_THRESHOLD_BITS),
            sample_rate: 16000,
            min_chunk_duration_secs: Float32::from_bits(DEFAULT_MIN_CHUNK_BITS),
        }
    }
}

/// Audio buffer for a chunk being recorded.
#[derive(Debug)]
pub struct ChunkBuffer {
    /// Audio samples (mono, 16 kHz).
    pub samples: Vec<Float32>,
    /// Start time of this chunk.
    pub started_at: Instant,
    /// Chunk ID.
    pub chunk_id: u32,
    /// Audio source.
    pub source: AudioSource,
    /// Start time offset in milliseconds (relative to meeting start).
    pub start_offset_ms: u64,
}

impl ChunkBuffer {
    /// Create a new chunk buffer.
    pub fn new(chunk_id: u32, source: AudioSource, start_offset_ms: u64) -> (r: Self)
        ensures
            r.samples@ == Seq::<Float32>::empty(),
            r.chunk_id == chunk_id,
            r.source == source,
            r.start_offset_ms == start_offset_ms,
            clock_reading(r.started_at),
    {
        ChunkBuffer {
            samples: Vec::with_capacity(16000 * 30),
            started_at: now(),
            chunk_id,
            source,
            start_offset_ms,
        }
    }

    /// Add audio samples to the buffer.
    pub fn add_samples(&mut self, samples: &[Float32])
        ensures
            final(self).samples@ == old(self).samples@ + samples@,
            final(self).started_at == old(self).started_at,
            final(self).chunk_id == old(self).chunk_id,
            final(self).source == old(self).source,
            final(self).start_offset_ms == old(self).start_offset_ms,
    {
        let mut i: usize = 0;
        assert(self.samples@ =~= old(self).samples@ + samples@.take(0));
        while i < samples.len()
            invariant
                i <= samples.len(),
                self.samples@ == old(self).samples@ + samples@.take(i as int),
                self.started_at == old(self).started_at,
                self.chunk_id == old(self).chunk_id,
                self.source == old(self).source,
                self.start_offset_ms == old(self).start_offset_ms,
            decreases samples.len() - i,
        {
            self.samples.push(samples[i]);
            i = i + 1;
            assert(self.samples@ =~= old(self).samples@ + samples@.take(i as int));
        }
        assert(samples@.take(i as int) =~= samples@);
    }

    /// Get the duration of audio in seconds.
    pub fn duration_secs(&self) -> (r: Float32)
        ensures
            r == quotient(of_integer(self.samples@.len()), Float32 { bits: RATE_16K_BITS }),
    {
        Float32::from_u64(self.samples.len() as u64).div(Float32::from_bits(RATE_16K_BITS))
    }

    /// Get the elapsed wall-clock time.
    pub fn elapsed(&self) -> (r: Duration)
        ensures
            measured_since(self.started_at, r),
    {
        time_since(&self.started_at)
    }

    /// Take ownership of the samples, leaving buffer empty.
    pub fn take_samples(&mut self) -> (r: Vec<Float32>)
        ensures
            r@ == old(self).samples@,
            final(self).samples@ == Seq::<Float32>::empty(),
            final(self).started_at == old(self).started_at,
            final(self).chunk_id == old(self).chunk_id,
            final(self).source == old(self).source,
            final(self).start_offset_ms == old(self).start_offset_ms,
    {
        let mut out: Vec<Float32> = Vec::new();
        std::mem::swap(&mut out, &mut self.samples);
        out
    }

    /// Check if buffer has any audio.
    pub fn has_audio(&self) -> (r: bool)
        ensures
            r == (self.samples@.len() > 0),
    {
        !self.samples.is_empty()
    }
}

/// The sum of the squares, from the first sample to the last.
pub open spec fn sum_squares(s: Seq<Float32>) -> Float32
    decreases s.len(),
{
    if s.len() == 0 {
        Float32 { bits: 0 }
    } else {
        sum(sum_squares(s.drop_last()), product(s.last(), s.last()))
    }
}

/// The root of the mean square; zero where there is no sample.
pub open spec fn rms(s: Seq<Float32>) -> Float32 {
    if s.len() == 0 {
        Float32 { bits: 0 }
    } else {
        square_root(quotient(sum_squares(s), of_integer(s.len())))
    }
}

/// The samples in a frame.
pub open spec fn frame_size(sample_rate: u32) -> nat {
    (sample_rate * WINDOW_MS) as nat / 1000
}

/// The number of frames of `w` samples that `n` samples need.
pub open spec fn frame_count(n: nat, w: nat) -> nat {
    if w == 0 {
        0
    } else {
        (n + w - 1) as nat / w
    }
}

/// Which frames are louder than the threshold.
pub open spec fn loud_frames(samples: Seq<Float32>, w: nat, threshold: Float32) -> Seq<bool> {
    Seq::new(
        frame_count(samples.len(), w),
        |i: int|
            threshold.below(
                rms(samples.subrange(i * w, frame_end(i, w as int, samples.len() as int))),
            ),
    )
}

/// Whether audio contains speech: enough frames that are louder than the threshold.
pub open spec fn speaks(samples: Seq<Float32>, sample_rate: u32, threshold: Float32) -> bool {
    let w = frame_size(sample_rate);
    let flags = loud_frames(samples, w, threshold);
    samples.len() > 0 && w > 0 && speech_count(flags, flags.len() as int) >= MIN_SPEECH_FRAMES
}

/// The speech regions of audio.
pub open spec fn speech_regions(
    samples: Seq<Float32>,
    sample_rate: u32,
    threshold: Float32,
) -> Seq<(int, int)> {
    let w = frame_size(sample_rate);
    if w == 0 || samples.len() == 0 {
        Seq::empty()
    } else {
        regions(
            loud_frames(samples, w, threshold),
            w as int,
            samples.len() as int,
            MAX_SEGMENT_SECS * sample_rate as int,
        )
    }
}

/// `n` samples are made up of their frames.
pub proof fn lemma_frames(n: nat, w: nat)
    requires
        n > 0,
        w > 0,
    ensures
        frame_count(n, w) > 0,
        frame_count(n, w) <= n,
        framed(frame_count(n, w) as int, w as int, n as int),
{
    let c = frame_count(n, w);
    vstd::arithmetic::div_mod::lemma_fundamental_div_mod((n + w - 1) as int, w as int);
    let r = (n + w - 1) as nat % w;
    assert(n + w - 1 == w * c + r);
    assert((c - 1) * w < n <= c * w) by (nonlinear_arith)
        requires
            n + w - 1 == w * c + r,
            0 <= r < w,
    ;
    assert(c > 0) by (nonlinear_arith)
        requires
            n <= c * w,
            n > 0,
            w > 0,
    ;
    assert(c <= n) by (nonlinear_arith)
        requires
            (c - 1) * w < n,
            w >= 1,
            c >= 1,
    ;
}

/// Speech regions are not empty and lie within the audio one behind the other.
pub proof fn law_speech_regions_ordered(
    samples: Seq<Float32>,
    sample_rate: u32,
    threshold: Float32,
)
    ensures
        ordered(speech_regions(samples, sample_rate, threshold), samples.len() as int),
{
    let w = frame_size(sample_rate);
    if w > 0 && samples.len() > 0 {
        lemma_frames(samples.len(), w);
        law_regions_ordered(
            loud_frames(samples, w, threshold),
            w as int,
            samples.len() as int,
            MAX_SEGMENT_SECS * sample_rate as int,
        );
    }
}

/// Voice activity detection by the energy of frames.
#[derive(Clone, Copy, Debug)]
pub struct VoiceActivityDetector {
    pub threshold: Float32,
    pub sample_rate: u32,
}

impl VoiceActivityDetector {
    /// Create a new detector with the given threshold.
    pub fn new(threshold: Float32, sample_rate: u32) -> (r: Self)
        ensures
            r.threshold == threshold,
            r.sample_rate == sample_rate,
    {
        VoiceActivityDetector { threshold, sample_rate }
    }

    /// Calculate RMS energy of samples.
    pub fn calculate_rms(samples: &[Float32]) -> (r: Float32)
        ensures
            r == rms(samples@),
    {
        if samples.len() == 0 {
            return Float32::from_bits(0);
        }
        let mut total: Float32 = Float32::from_bits(0);
        let mut i: usize = 0;
        while i < samples.len()
            invariant
                i <= samples.len(),
                total == sum_squares(samples@.take(i as int)),
            decreases samples.len() - i,
        {
            let x: Float32 = samples[i];
            assert(samples@.take(i + 1).drop_last() =~= samples@.take(i as int));
            total = total.add(x.mul(x));
            i = i + 1;
        }
        assert(samples@.take(i as int) =~= samples@);
        total.div(Float32::from_u64(samples.len() as u64)).sqrt()
    }

    /// Tells which frames are louder than the threshold.
    fn loud(&self, samples: &[Float32], w: usize) -> (r: Vec<bool>)
        requires
            w > 0,
            samples@.len() > 0,
        ensures
            r@ == loud_frames(samples@, w as nat, self.threshold),
    {
        let n: usize = samples.len();
        let ghost all = loud_frames(samples@, w as nat, self.threshold);
        let ghost count = frame_count(n as nat, w as nat);
        let mut out: Vec<bool> = Vec::new();
        let mut at: usize = 0;
        proof {
            lemma_frames(n as nat, w as nat);
        }
        while at < n
            invariant
                w > 0,
                n == samples@.len(),
                all == loud_frames(samples@, w as nat, self.threshold),
                count == frame_count(n as nat, w as nat),
                framed(count as int, w as int, n as int),
                out@.len() <= count,
                at < n ==> at == out@.len() * w && out@.len() < count,
                at >= n ==> out@.len() == count,
                at <= n,
                out@ =~= all.take(out@.len() as int),
            decreases n - at,
        {
            let next: usize = if n - at > w { at + w } else { n };
            let ghost i = out@.len() as int;
            proof {
                assert((i + 1) * w == i * w + w) by (nonlinear_arith);
                assert(next == frame_end(i, w as int, n as int));
                if next < n {
                    assert(i + 1 < count) by (nonlinear_arith)
                        requires
                            (i + 1) * w < n,
                            n <= count * w,
                            w > 0,
                    ;
                } else {
                    assert(i + 1 >= count) by (nonlinear_arith)
                        requires
                            (count - 1) * w < n,
                            n <= (i + 1) * w,
                            w > 0,
                    ;
                }
            }
            let frame: &[Float32] = slice_subrange(samples, at, next);
            out.push(self.threshold.lt(Self::calculate_rms(frame)));
            at = next;
        }
        assert(all.take(count as int) =~= all);
        out
    }

    /// The samples in a frame.
    fn window_size(&self) -> (r: usize)
        requires
            self.sample_rate * WINDOW_MS <= u32::MAX,
        ensures
            r == frame_size(self.sample_rate),
            r <= 4294968,
    {
        (self.sample_rate * WINDOW_MS / 1000) as usize
    }

    /// Check if the audio contains speech.
    pub fn contains_speech(&self, samples: &[Float32]) -> (r: bool)
        requires
            samples@.len() > 0 ==> self.sample_rate * WINDOW_MS <= u32::MAX,
        ensures
            r == speaks(samples@, self.sample_rate, self.threshold),
    {
        if samples.len() == 0 {
            return false;
        }
        let w: usize = self.window_size();
        if w == 0 {
            return false;
        }
        let flags: Vec<bool> = self.loud(samples, w);
        count_speech(&flags) >= MIN_SPEECH_FRAMES
    }

    /// Get speech segments with their boundaries.
    ///
    /// Returns a list of (start_sample, end_sample) tuples for speech regions.
    pub fn detect_speech_segments(&self, samples: &[Float32]) -> (r: Vec<(usize, usize)>)
        requires
            self.sample_rate * WINDOW_MS <= u32::MAX,
        ensures
            pairs(r@) == speech_regions(samples@, self.sample_rate, self.threshold),
    {
        let w: usize = self.window_size();
        if w == 0 || samples.len() == 0 {
            let r: Vec<(usize, usize)> = Vec::new();
            assert(pairs(r@) =~= Seq::empty());
            return r;
        }
        let flags: Vec<bool> = self.loud(samples, w);
        proof {
            lemma_frames(samples@.len(), w as nat);
        }
        find_regions(&flags, w, samples.len(), MAX_SEGMENT_SECS * self.sample_rate as usize)
    }
}

/// Where the audio of a chunk comes from and when it starts.
#[derive(Clone, Copy, Debug)]
pub struct ChunkContext {
    pub chunk_id: u32,
    pub source: AudioSource,
    pub start_offset_ms: u64,
    pub sample_rate: u32,
}

/// The time of sample `x`, in milliseconds from the start of the meeting.
pub open spec fn time_of(x: int, context: ChunkContext) -> u64 {
    (context.start_offset_ms + (x * 1000) / (context.sample_rate as int)) as u64
}

/// Whether the time of sample `x` can be told in milliseconds.
pub open spec fn in_time(x: int, context: ChunkContext) -> bool {
    &&& x * 1000 <= u64::MAX
    &&& context.start_offset_ms + (x * 1000) / (context.sample_rate as int) <= u64::MAX
}

/// The identifier `k` places behind `first`; identifiers start over behind the last one.
pub open spec fn id_after(first: u32, k: nat) -> u32 {
    ((first + k) % 0x1_0000_0000) as u32
}

/// The segment of a region with the given text.
pub open spec fn region_segment(
    id: u32,
    region: (int, int),
    text: Seq<char>,
    context: ChunkContext,
) -> SegmentView {
    SegmentView {
        source: context.source,
        ..plain_segment(
            id,
            time_of(region.0, context),
            time_of(region.1, context),
            text,
            context.chunk_id,
        )
    }
}

/// The segments of the first `k` regions with their texts: one for each text that is not
/// blank, without the white space around it, with identifiers in a row from `first`.
pub open spec fn region_segments(
    plan: Seq<(int, int)>,
    said: Seq<Seq<char>>,
    k: int,
    first: u32,
    context: ChunkContext,
) -> Seq<SegmentView>
    decreases k,
{
    if k <= 0 {
        Seq::empty()
    } else {
        let prev = region_segments(plan, said, k - 1, first, context);
        let text = trimmed(said[k - 1]);
        if text.len() == 0 {
            prev
        } else {
            prev.push(region_segment(id_after(first, prev.len()), plan[k - 1], text, context))
        }
    }
}

/// Regions of at least `min` samples, among the first `k`.
pub open spec fn long_regions(all: Seq<(int, int)>, k: int, min: nat) -> Seq<(int, int)>
    decreases k,
{
    if k <= 0 {
        Seq::empty()
    } else {
        let prev = long_regions(all, k - 1, min);
        let (start, end) = all[k - 1];
        if start < end && end - start >= min {
            prev.push((start, end))
        } else {
            prev
        }
    }
}

/// Whether a chunk has the minimum length.
pub open spec fn long_enough(samples: Seq<Float32>, config: ChunkConfig) -> bool {
    samples.len() >= truncated(
        product(config.min_chunk_duration_secs, Float32 { bits: RATE_16K_BITS }),
    )
}

/// The regions of a chunk that are transcribed: none of a chunk that is too short or has
/// no speech, else the speech regions that are long enough.
pub open spec fn planned(samples: Seq<Float32>, config: ChunkConfig) -> Seq<(int, int)> {
    if long_enough(samples, config) && speaks(samples, config.sample_rate, config.vad_threshold) {
        let all = speech_regions(samples, config.sample_rate, config.vad_threshold);
        long_regions(
            all,
            all.len() as int,
            truncated(
                product(config.min_chunk_duration_secs, of_integer(config.sample_rate as nat)),
            ),
        )
    } else {
        Seq::empty()
    }
}

/// The regions to transcribe are not empty and lie within the chunk one behind the other.
pub proof fn law_planned_ordered(samples: Seq<Float32>, config: ChunkConfig)
    ensures
        ordered(planned(samples, config), samples.len() as int),
{
    let all = speech_regions(samples, config.sample_rate, config.vad_threshold);
    law_speech_regions_ordered(samples, config.sample_rate, config.vad_threshold);
    lemma_long_ordered(
        all,
        all.len() as int,
        truncated(product(config.min_chunk_duration_secs, of_integer(config.sample_rate as nat))),
        samples.len() as int,
    );
}

proof fn lemma_long_ordered(all: Seq<(int, int)>, k: int, min: nat, n: int)
    requires
        ordered(all, n),
        0 <= k <= all.len(),
    ensures
        ordered(long_regions(all, k, min), n),
        forall|i: int|
            #![trigger long_regions(all, k, min)[i]]
            0 <= i < long_regions(all, k, min).len() ==> k > 0 && long_regions(all, k, min)[i].1
                <= all[k - 1].1,
    decreases k,
{
    if k > 0 {
        lemma_long_ordered(all, k - 1, min, n);
        if k > 1 {
            assert(all[k - 2].1 <= all[k - 1].0);
        }
        assert(all[k - 1].0 < all[k - 1].1);
    }
}

/// Makes the segments of regions from their texts, and says which identifier comes next.
pub fn segments_from_texts(
    plan: &Vec<(usize, usize)>,
    said: &Vec<String>,
    first: u32,
    context: ChunkContext,
) -> (r: (Vec<TranscriptSegment>, u32))
    requires
        said.len() <= plan.len(),
        forall|i: int|
            #![trigger plan[i]]
            0 <= i < plan.len() ==> in_time(plan[i].0 as int, context) && in_time(
                plan[i].1 as int,
                context,
            ),
        context.sample_rate > 0,
    ensures
        segment_views(r.0@) == region_segments(
            pairs(plan@),
            texts(said@),
            said.len() as int,
            first,
            context,
        ),
        r.1 == id_after(first, r.0@.len()),
{
    let mut out: Vec<TranscriptSegment> = Vec::new();
    let mut next: u32 = first;
    let mut i: usize = 0;
    let ghost all = pairs(plan@);
    let ghost words = texts(said@);
    let rate: u64 = context.sample_rate as u64;
    proof {
        assert(segment_views(out@) =~= Seq::empty());
        assert(id_after(first, 0) == first);
    }
    while i < said.len()
        invariant
            i <= said.len() <= plan.len(),
            all == pairs(plan@),
            words == texts(said@),
            rate == context.sample_rate,
            rate > 0,
            forall|i: int|
                #![trigger plan[i]]
                0 <= i < plan.len() ==> in_time(plan[i].0 as int, context) && in_time(
                    plan[i].1 as int,
                    context,
                ),
            segment_views(out@) == region_segments(all, words, i as int, first, context),
            next == id_after(first, out@.len()),
            out@.len() <= i,
        decreases said.len() - i,
    {
        let text: String = trim(said[i].as_str());
        if !text.as_str().is_empty() {
            let (start, end) = plan[i];
            proof {
                let a = start * 1000;
                let b = end * 1000;
                assert(0 <= a / (rate as int)) by (nonlinear_arith)
                    requires
                        a >= 0,
                        rate > 0,
                ;
                assert(0 <= b / (rate as int)) by (nonlinear_arith)
                    requires
                        b >= 0,
                        rate > 0,
                ;
            }
            let start_ms: u64 = context.start_offset_ms + (start as u64 * 1000) / rate;
            let end_ms: u64 = context.start_offset_ms + (end as u64 * 1000) / rate;
            let mut segment = TranscriptSegment::new(next, start_ms, end_ms, text, context.chunk_id);
            segment.source = context.source;
            let ghost before = segment_views(out@);
            out.push(segment);
            assert(segment_views(out@) =~= before.push(segment@));
            next = next.wrapping_add(1);
        }
        i = i + 1;
    }
    (out, next)
}

proof fn lemma_in_time(x: int, y: int, context: ChunkContext)
    requires
        0 <= x <= y,
        context.sample_rate > 0,
        in_time(y, context),
    ensures
        in_time(x, context),
{
    vstd::arithmetic::div_mod::lemma_div_is_ordered(
        x * 1000,
        y * 1000,
        context.sample_rate as int,
    );
}

/// Processed chunk result.
#[derive(Debug)]
pub struct ProcessedChunk {
    /// Chunk ID.
    pub chunk_id: u32,
    /// Absolute start time of the chunk in milliseconds from meeting start.
    pub chunk_start_ms: u64,
    /// Transcript segments from this chunk.
    pub segments: Vec<TranscriptSegment>,
    /// Original audio samples for this chunk.
    pub samples: Vec<Float32>,
    /// Original audio duration in milliseconds.
    pub audio_duration_ms: u64,
    /// Processing time in milliseconds.
    pub processing_time_ms: u64,
}

/// Chunk processor.
///
/// Coordinates audio buffering, VAD, and transcription for meeting mode.
pub struct ChunkProcessor<'a, T: Transcriber> {
    pub config: ChunkConfig,
    pub vad: VoiceActivityDetector,
    pub transcriber: &'a T,
    pub next_segment_id: u32,
}

/// The transcriber returned each of `said` for the region of the same place.
pub open spec fn heard<T: Transcriber>(
    transcriber: &T,
    samples: Seq<Float32>,
    plan: Seq<(int, int)>,
    said: Seq<String>,
) -> bool {
    forall|i: int|
        0 <= i < said.len() ==> #[trigger] transcribes(
            transcriber,
            samples.subrange(plan[i].0, plan[i].1),
            Ok(said[i]),
        )
}

impl<'a, T: Transcriber> ChunkProcessor<'a, T> {
    /// The detector works with the settings of the configuration.
    pub open spec fn wf(&self) -> bool {
        &&& self.vad.threshold == self.config.vad_threshold
        &&& self.vad.sample_rate == self.config.sample_rate
    }

    /// Create a new chunk processor.
    pub fn new(config: ChunkConfig, transcriber: &'a T) -> (r: Self)
        ensures
            r.wf(),
            r.config == config,
            r.transcriber == transcriber,
            r.next_segment_id == 0,
    {
        Self::new_with_segment_id(config, transcriber, 0)
    }

    /// Create a new chunk processor starting from a specific segment ID.
    pub fn new_with_segment_id(
        config: ChunkConfig,
        transcriber: &'a T,
        next_segment_id: u32,
    ) -> (r: Self)
        ensures
            r.wf(),
            r.config == config,
            r.transcriber == transcriber,
            r.next_segment_id == next_segment_id,
    {
        let vad = VoiceActivityDetector::new(config.vad_threshold, config.sample_rate);
        ChunkProcessor { config, vad, transcriber, next_segment_id }
    }

    /// Get the next segment ID after processing.
    pub fn next_segment_id(&self) -> (r: u32)
        ensures
            r == self.next_segment_id,
    {
        self.next_segment_id
    }

    /// The regions of a chunk that are to be transcribed.
    pub fn plan(&self, samples: &[Float32]) -> (r: Vec<(usize, usize)>)
        requires
            self.wf(),
            samples@.len() > 0 && long_enough(samples@, self.config) ==> self.config.sample_rate
                * WINDOW_MS <= u32::MAX,
        ensures
            pairs(r@) == planned(samples@, self.config),
    {
        let mut out: Vec<(usize, usize)> = Vec::new();
        let least: Float32 = self.config.min_chunk_duration_secs;
        assert(pairs(out@) =~= Seq::empty());
        if (samples.len() as u64) < least.mul(Float32::from_bits(RATE_16K_BITS)).truncate() {
            return out;
        }
        if !self.vad.contains_speech(samples) {
            return out;
        }
        let found: Vec<(usize, usize)> = self.vad.detect_speech_segments(samples);
        let min: u64 = least.mul(Float32::from_u64(self.config.sample_rate as u64)).truncate();
        let mut i: usize = 0;
        let ghost all = pairs(found@);
        while i < found.len()
            invariant
                i <= found.len(),
                all == pairs(found@),
                pairs(out@) == long_regions(all, i as int, min as nat),
            decreases found.len() - i,
        {
            let (start, end) = found[i];
            if start < end && (end - start) as u64 >= min {
                let ghost before = pairs(out@);
                out.push((start, end));
                assert(pairs(out@) =~= before.push((start as int, end as int)));
            }
            i = i + 1;
        }
        out
    }

    /// Process a completed chunk of audio.
    ///
    /// Applies VAD, transcribes speech regions, and returns transcript segments.
    pub fn process_chunk(&mut self, buffer: ChunkBuffer) -> (r: Result<
        ProcessedChunk,
        TranscribeError,
    >)
        requires
            old(self).wf(),
            buffer.samples@.len() > 0 && long_enough(buffer.samples@, old(self).config) ==> old(
                self,
            ).config.sample_rate * WINDOW_MS <= u32::MAX,
            planned(buffer.samples@, old(self).config).len() > 0 ==> in_time(
                buffer.samples@.len() as int,
                ChunkContext {
                    chunk_id: buffer.chunk_id,
                    source: buffer.source,
                    start_offset_ms: buffer.start_offset_ms,
                    sample_rate: old(self).config.sample_rate,
                },
            ),
        ensures
            final(self).wf(),
            final(self).config == old(self).config,
            final(self).transcriber == old(self).transcriber,
            ({
                let plan = planned(buffer.samples@, old(self).config);
                let first = old(self).next_segment_id;
                let context = ChunkContext {
                    chunk_id: buffer.chunk_id,
                    source: buffer.source,
                    start_offset_ms: buffer.start_offset_ms,
                    sample_rate: old(self).config.sample_rate,
                };
                match r {
                    Ok(chunk) => {
                        &&& chunk.chunk_id == buffer.chunk_id
                        &&& chunk.chunk_start_ms == buffer.start_offset_ms
                        &&& chunk.samples@ == buffer.samples@
                        &&& chunk.audio_duration_ms == buffer.samples@.len() * 1000 / 16000
                        &&& exists|began: Instant|
                            #[trigger] clock_reading(began) && took(
                                began,
                                chunk.processing_time_ms,
                            )
                        &&& final(self).next_segment_id == id_after(first, chunk.segments@.len())
                        &&& exists|said: Seq<String>|
                            #![trigger texts(said)]
                            said.len() == plan.len() && heard(
                                old(self).transcriber,
                                buffer.samples@,
                                plan,
                                said,
                            ) && segment_views(chunk.segments@) == region_segments(
                                plan,
                                texts(said),
                                plan.len() as int,
                                first,
                                context,
                            )
                    },
                    Err(e) => exists|said: Seq<String>|
                        #![trigger texts(said)]
                        said.len() < plan.len() && heard(
                            old(self).transcriber,
                            buffer.samples@,
                            plan,
                            said,
                        ) && transcribes(
                            old(self).transcriber,
                            buffer.samples@.subrange(
                                plan[said.len() as int].0,
                                plan[said.len() as int].1,
                            ),
                            Err(e),
                        ) && final(self).next_segment_id == id_after(
                            first,
                            region_segments(
                                plan,
                                texts(said),
                                said.len() as int,
                                first,
                                context,
                            ).len(),
                        ),
                }
            }),
    {
        let started: Instant = now();
        let first: u32 = self.next_segment_id;
        let context = ChunkContext {
            chunk_id: buffer.chunk_id,
            source: buffer.source,
            start_offset_ms: buffer.start_offset_ms,
            sample_rate: self.config.sample_rate,
        };
        let samples: Vec<Float32> = buffer.samples;
        // sixteen samples are a millisecond
        let audio_duration_ms: u64 = samples.len() as u64 / 16;
        let regions: Vec<(usize, usize)> = self.plan(samples.as_slice());
        let ghost plan = planned(samples@, self.config);
        let mut said: Vec<String> = Vec::new();
        let mut i: usize = 0;
        proof {
            law_planned_ordered(samples@, self.config);
            assert(plan.len() > 0 ==> context.sample_rate > 0);
            assert forall|j: int| #![trigger regions[j]] 0 <= j < regions.len() implies regions[j].0
                <= regions[j].1 <= samples@.len() && in_time(regions[j].0 as int, context)
                && in_time(regions[j].1 as int, context) by {
                assert(plan[j] == (regions[j].0 as int, regions[j].1 as int));
                assert(0 <= plan[j].0 < plan[j].1 <= samples@.len());
                lemma_in_time(plan[j].0, samples@.len() as int, context);
                lemma_in_time(plan[j].1, samples@.len() as int, context);
            }
            assert(regions.len() == plan.len());
        }
        while i < regions.len()
            invariant
                i <= regions.len(),
                regions.len() == plan.len(),
                pairs(regions@) == plan,
                plan == planned(samples@, self.config),
                ordered(plan, samples@.len() as int),
                i == said.len(),
                self.wf(),
                self.config == old(self).config,
                self.transcriber == old(self).transcriber,
                self.next_segment_id == first,
                first == old(self).next_segment_id,
                samples@ == buffer.samples@,
                context == (ChunkContext {
                    chunk_id: buffer.chunk_id,
                    source: buffer.source,
                    start_offset_ms: buffer.start_offset_ms,
                    sample_rate: old(self).config.sample_rate,
                }),
                regions.len() > 0 ==> context.sample_rate > 0,
                forall|j: int|
                    #![trigger regions[j]]
                    0 <= j < regions.len() ==> regions[j].0 <= regions[j].1 <= samples@.len()
                        && in_time(regions[j].0 as int, context) && in_time(
                        regions[j].1 as int,
                        context,
                    ),
                heard(self.transcriber, samples@, plan, said@),
            decreases regions.len() - i,
        {
            let (start, end) = regions[i];
            let part: &[Float32] = slice_subrange(samples.as_slice(), start, end);
            assert(plan[i as int] == (start as int, end as int));
            match self.transcriber.transcribe(part) {
                Ok(text) => {
                    let ghost before = said@;
                    said.push(text);
                    proof {
                        assert forall|j: int| 0 <= j < said@.len() implies #[trigger] transcribes(
                            self.transcriber,
                            samples@.subrange(plan[j].0, plan[j].1),
                            Ok(said@[j]),
                        ) by {
                            if j < i {
                                assert(said@[j] == before[j]);
                            } else {
                                assert(part@ == samples@.subrange(plan[j].0, plan[j].1));
                            }
                        }
                    }
                },
                Err(e) => {
                    let (done, next) = segments_from_texts(&regions, &said, first, context);
                    proof {
                        assert(part@ == samples@.subrange(plan[i as int].0, plan[i as int].1));
                        let t = texts(said@);
                        assert(segment_views(done@).len() == done@.len());
                    }
                    self.next_segment_id = next;
                    return Err(e);
                },
            }
            i = i + 1;
        }
        let (segments, next): (Vec<TranscriptSegment>, u32) = if regions.len() == 0 {
            (Vec::new(), first)
        } else {
            segments_from_texts(&regions, &said, first, context)
        };
        proof {
            let t = texts(said@);
            if regions.len() == 0 {
                assert(segment_views(segments@) =~= Seq::empty());
                assert(id_after(first, 0) == first);
            }
        }
        self.next_segment_id = next;
        let time: Duration = time_since(&started);
        let whole: u128 = millis(&time);
        assert(took(started, whole as u64));
        Ok(
            ProcessedChunk {
                chunk_id: context.chunk_id,
                chunk_start_ms: context.start_offset_ms,
                segments,
                samples,
                audio_duration_ms,
                processing_time_ms: whole as u64,
            },
        )
    }

    /// Check if a chunk buffer is ready for processing.
    pub fn is_chunk_ready(&self, buffer: &ChunkBuffer) -> (r: bool)
        ensures
            r == of_integer(self.config.chunk_duration_secs as nat).at_most(
                quotient(of_integer(buffer.samples@.len()), Float32 { bits: RATE_16K_BITS }),
            ),
    {
        buffer.duration_secs().ge(Float32::from_u64(self.config.chunk_duration_secs as u64))
    }

    /// Create a new chunk buffer.
    pub fn new_buffer(&self, chunk_id: u32, source: AudioSource, start_offset_ms: u64) -> (r:
        ChunkBuffer)
        ensures
            r.samples@ == Seq::<Float32>::empty(),
            r.chunk_id == chunk_id,
            r.source == source,
            r.start_offset_ms == start_offset_ms,
            clock_reading(r.started_at),
    {
        ChunkBuffer::new(chunk_id, source, start_offset_ms)
    }
}

} // verus!
