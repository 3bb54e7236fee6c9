//! What holds of the stretches of audio that are embedded.
use vstd::prelude::*;
use crate::float32::{of_integer, one_units, Float32};
use crate::float32_laws::{
    law_small_integers_are_exact, law_small_products_are_exact,
    law_small_quotients_round_to_the_nearest, lemma_four_is_four, lemma_sixteen_thousand,
    lemma_thousand,
};
use crate::meeting::data::{AudioSource, TranscriptSegment};
use crate::meeting::diarization::embedding::EmbeddingDiarizer;
use crate::meeting::diarization::plan::{
    hop_ms, sample_time, samples_of_ms, samples_of_secs, window_at, window_length, window_starts,
    windows_on, PlannedWindow,
};
use crate::meeting::diarization::score_laws::{law_overlap_is_common_time, within_time};
use crate::meeting::diarization::window_laws::law_windows_span_the_chunk;
use crate::meeting::diarization::windows::{meets, overlap};

verus! {

/// A point of time lies in a segment.
pub open spec fn in_segment(segments: Seq<TranscriptSegment>, i: int, t: u64) -> bool {
    0 <= i < segments.len() && within_time(t, segments[i].start_ms, segments[i].end_ms)
}

/// A stretch shares time with a transcript exactly where a point of it lies in a segment.
pub proof fn law_stretches_meet_segments_in_time(
    start: u64,
    end: u64,
    segments: Seq<TranscriptSegment>,
)
    ensures
        meets(start, end, segments) <==> exists|i: int, t: u64|
            within_time(t, start, end) && #[trigger] in_segment(segments, i, t),
{
    if meets(start, end, segments) {
        let i = choose|i: int|
            #![trigger segments[i]]
            0 <= i < segments.len() && overlap(
                start,
                end,
                segments[i].start_ms,
                segments[i].end_ms,
            ) > 0;
        law_overlap_is_common_time(start, end, segments[i].start_ms, segments[i].end_ms, start);
        let t = choose|t: u64| #[trigger]
            within_time(t, start, end) && within_time(
                t,
                segments[i].start_ms,
                segments[i].end_ms,
            );
        assert(within_time(t, start, end) && in_segment(segments, i, t));
    }
    if exists|i: int, t: u64|
        within_time(t, start, end) && #[trigger] in_segment(segments, i, t) {
        let (i, t) = choose|i: int, t: u64|
            within_time(t, start, end) && #[trigger] in_segment(segments, i, t);
        assert(within_time(t, start, end) && within_time(
            t,
            segments[i].start_ms,
            segments[i].end_ms,
        ));
        law_overlap_is_common_time(start, end, segments[i].start_ms, segments[i].end_ms, start);
    }
}

proof fn lemma_windows_on(
    starts: Seq<int>,
    k: int,
    count: nat,
    window: nat,
    chunk_start_ms: u64,
    segments: Seq<TranscriptSegment>,
)
    requires
        0 <= k <= starts.len(),
    ensures
        windows_on(starts, k, count, window, chunk_start_ms, segments) == starts.take(
            k,
        ).map_values(|x: int| window_at(count, window, x, chunk_start_ms)).filter(
            |p: PlannedWindow| meets(p.start_ms, p.end_ms, segments),
        ),
    decreases k,
{
    reveal(Seq::filter);
    let f = |x: int| window_at(count, window, x, chunk_start_ms);
    if k > 0 {
        lemma_windows_on(starts, k - 1, count, window, chunk_start_ms, segments);
        let all = starts.take(k).map_values(f);
        assert(all.drop_last() =~= starts.take(k - 1).map_values(f));
        assert(all.last() == f(starts[k - 1]));
    } else {
        assert(starts.take(0).map_values(f) =~= Seq::empty());
    }
}

/// Of the windows over a chunk all those are embedded that share time with a segment, in
/// their order, and no others.
pub proof fn law_windows_on_segments_are_embedded(
    starts: Seq<int>,
    count: nat,
    window: nat,
    chunk_start_ms: u64,
    segments: Seq<TranscriptSegment>,
)
    ensures
        windows_on(starts, starts.len() as int, count, window, chunk_start_ms, segments)
            == starts.map_values(|x: int| window_at(count, window, x, chunk_start_ms)).filter(
            |p: PlannedWindow| meets(p.start_ms, p.end_ms, segments),
        ),
{
    lemma_windows_on(starts, starts.len() as int, count, window, chunk_start_ms, segments);
    assert(starts.take(starts.len() as int) =~= starts);
}

/// A window has its samples and their times: it starts where it is to start, has as many
/// samples as asked for, as far as the chunk goes, and sixteen samples are a millisecond.
pub proof fn law_windows_tell_their_samples_and_times(
    count: nat,
    window: nat,
    start: int,
    chunk_start_ms: u64,
)
    requires
        0 <= start <= count <= usize::MAX,
        chunk_start_ms + count / 16 <= u64::MAX,
    ensures
        ({
            let p = window_at(count, window, start, chunk_start_ms);
            &&& p.start_sample == start
            &&& start + window <= count ==> p.end_sample == start + window
            &&& start + window > count ==> p.end_sample == count
            &&& p.start_ms == chunk_start_ms + p.start_sample / 16
            &&& p.end_ms == chunk_start_ms + p.end_sample / 16
        }),
{
    let p = window_at(count, window, start, chunk_start_ms);
    let end = p.end_sample as int;
    assert(start * 1000 / 16000 == start / 16);
    assert(end * 1000 / 16000 == end / 16);
    assert(start / 16 <= count / 16 && end / 16 <= count / 16);
}

proof fn lemma_covers(starts: Seq<int>, window: nat, hop: nat, x: int, k: int) -> (i: int)
    requires
        hop <= window,
        0 < k <= starts.len(),
        starts[0] == 0,
        forall|i: int, j: int|
            #![trigger starts[i], starts[j]]
            0 <= i && j == i + 1 && j < starts.len() ==> starts[i] < starts[j] <= starts[i] + hop,
        0 <= x < starts[k - 1] + window,
    ensures
        0 <= i < starts.len(),
        starts[i] <= x < starts[i] + window,
    decreases k,
{
    if starts[k - 1] <= x {
        k - 1
    } else {
        assert(k > 1);
        assert(starts[k - 2] < starts[k - 1] <= starts[k - 2] + hop);
        lemma_covers(starts, window, hop, x, k - 1)
    }
}

/// The windows leave out no sample, as long as they do not start further apart than they are
/// long: window `i` holds sample `x`. A chunk that is no longer than a window has one.
pub proof fn law_windows_leave_out_no_sample(count: nat, window: nat, hop: nat, x: int) -> (i: int)
    requires
        0 < hop <= window,
        0 <= x < count,
    ensures
        ({
            let starts = window_starts(count, window, hop);
            &&& 0 <= i < starts.len()
            &&& starts[i] <= x < starts[i] + window
            &&& count <= window ==> starts == seq![0int]
        }),
{
    let starts = window_starts(count, window, hop);
    if count <= window {
        0
    } else {
        law_windows_span_the_chunk(count, window, hop);
        lemma_covers(starts, window, hop, x, starts.len() as int)
    }
}

/// A window starts a quarter of its length behind the one before, but no less than 250 and no
/// more than 500 milliseconds; exactly so for whole seconds.
pub proof fn law_windows_start_a_quarter_apart(secs: Float32, v: nat)
    requires
        1 <= v <= 8000,
    ensures
        250 <= hop_ms(secs) <= 500,
        hop_ms(of_integer(v)) == if 250 * v < 500 {
            250 * v
        } else {
            500
        },
{
    lemma_thousand();
    lemma_four_is_four();
    law_small_products_are_exact(v, 1000);
    law_small_quotients_round_to_the_nearest(v * 1000, 4);
    assert((2 * (v * 1000) + 4) / 8 == 250 * v);
}

/// A second has 16000 samples, a millisecond sixteen, and a window has as many as it is to
/// last, but not fewer than the shortest segment.
pub proof fn law_windows_last_as_long_as_asked(v: nat, min_ms: nat)
    requires
        v <= 1000,
    ensures
        samples_of_secs(of_integer(v)) == 16000 * v,
        samples_of_ms(min_ms) == 16 * min_ms,
        window_length(of_integer(v), min_ms) == if 16000 * v > 16 * min_ms {
            16000 * v
        } else {
            16 * min_ms
        },
{
    lemma_sixteen_thousand();
    law_small_products_are_exact(v, 16000);
    law_small_integers_are_exact(v * 16000);
    let one = one_units();
    vstd::arithmetic::power2::lemma_pow2_pos(149);
    vstd::arithmetic::div_mod::lemma_fundamental_div_mod_converse(
        ((v * 16000) * one) as int,
        one as int,
        (v * 16000) as int,
        0,
    );
    assert(min_ms * 16000 / 1000 == 16 * min_ms);
}

/// The time of a sample runs with the samples from the start of the chunk.
pub proof fn law_samples_are_sixteen_a_millisecond(x: int, chunk_start_ms: u64)
    requires
        x >= 0,
        chunk_start_ms + (x + 16) / 16 <= u64::MAX,
    ensures
        sample_time(0, chunk_start_ms) == chunk_start_ms,
        sample_time(x + 16, chunk_start_ms) == sample_time(x, chunk_start_ms) + 1,
{
    assert((x + 16) * 1000 / 16000 == x * 1000 / 16000 + 1);
    assert(x * 1000 / 16000 == x / 16);
}

/// Only the loopback is embedded, and only where there are segments and as many samples as the
/// shortest segment has; then all windows are that share time with a segment.
pub proof fn law_only_the_loopback_is_embedded(
    diarizer: EmbeddingDiarizer,
    count: nat,
    chunk_start_ms: u64,
    source: AudioSource,
    segments: Seq<TranscriptSegment>,
)
    ensures
        ({
            let plan = diarizer.planned(count, chunk_start_ms, source, segments);
            let window = window_length(diarizer.window_secs, diarizer.min_segment_ms as nat);
            let starts = window_starts(count, window, 16 * hop_ms(diarizer.window_secs));
            if source == AudioSource::Loopback && count > 0 && segments.len() > 0 && count >= 16
                * diarizer.min_segment_ms {
                plan == starts.map_values(
                    |x: int| window_at(count, window, x, chunk_start_ms),
                ).filter(|p: PlannedWindow| meets(p.start_ms, p.end_ms, segments))
            } else {
                plan.len() == 0
            }
        }),
{
    let window = window_length(diarizer.window_secs, diarizer.min_segment_ms as nat);
    let hop = hop_ms(diarizer.window_secs);
    assert(samples_of_ms(hop) == 16 * hop);
    assert(samples_of_ms(diarizer.min_segment_ms as nat) == 16 * diarizer.min_segment_ms);
    let starts = window_starts(count, window, 16 * hop);
    law_windows_on_segments_are_embedded(starts, count, window, chunk_start_ms, segments);
}

/// Windows start every `hop` samples from the start of the chunk on, and the last one where the
/// last whole window starts.
pub proof fn law_windows_start_in_step(count: nat, window: nat, hop: nat, i: int)
    requires
        hop > 0,
        count > window,
        0 <= i < window_starts(count, window, hop).len(),
    ensures
        ({
            let starts = window_starts(count, window, hop);
            &&& i < starts.len() - 1 ==> starts[i] == i * hop && i * hop < count - window
            &&& i == starts.len() - 1 ==> starts[i] == count - window
        }),
{
    law_windows_span_the_chunk(count, window, hop);
    let starts = window_starts(count, window, hop);
    let last = count - window;
    let h = hop as int;
    vstd::arithmetic::div_mod::lemma_fundamental_div_mod(last, h);
    let n = last / h;
    if i < starts.len() - 1 {
        assert(i <= n);
        assert(starts[i] == i * h);
        assert(i * h <= n * h && n * h == h * n) by (nonlinear_arith)
            requires
                i <= n,
                h > 0,
        ;
        if i * h == last {
            assert(n * h == last);
            assert(last % h == 0);
            assert(i < n);
            assert(i * h < n * h) by (nonlinear_arith)
                requires
                    i < n,
                    h > 0,
            ;
        }
    }
}

} // verus!
