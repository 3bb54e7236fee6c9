//! What holds of the scores of stretches and of the windows that are planned.
use vstd::prelude::*;
use crate::float32::{larger, lemma_units_increase, of_integer, product, Float32};
use crate::meeting::data::TranscriptSegment;
use crate::meeting::diarization::plan::{window_at, window_starts, windows_on, PlannedWindow};
use crate::meeting::diarization::vectors::{zero, ONE_BITS};
use crate::meeting::diarization::windows::{
    credited, dominant, last_largest, meets, overlap, range_scores, scores_of, Scores, WindowView,
    LEAST_WEIGHT_BITS,
};
use crate::meeting::diarization::Speaker;

verus! {

/// No speaker has two scores.
pub open spec fn named_once(scores: Scores) -> bool {
    forall|i: int, j: int|
        #![trigger scores[i], scores[j]]
        0 <= i < j < scores.len() ==> scores[i].0 != scores[j].0
}

/// Whether a speaker has a score.
pub open spec fn scored(scores: Scores, speaker: Speaker) -> bool {
    exists|i: int| #![trigger scores[i]] 0 <= i < scores.len() && scores[i].0 == speaker
}

proof fn lemma_credited(scores: Scores, speaker: Speaker, x: Float32)
    ensures
        forall|s: Speaker|
            #![trigger scored(credited(scores, speaker, x), s)]
            scored(credited(scores, speaker, x), s) ==> scored(scores, s) || s == speaker,
        named_once(scores) ==> named_once(credited(scores, speaker, x)),
    decreases scores.len(),
{
    let after = credited(scores, speaker, x);
    if scores.len() == 0 {
    } else if scores[0].0 == speaker {
        assert forall|s: Speaker| #![trigger scored(after, s)] scored(after, s) implies scored(
            scores,
            s,
        ) || s == speaker by {
            let i = choose|i: int| #![trigger after[i]] 0 <= i < after.len() && after[i].0 == s;
            assert(scores[i].0 == s);
        }
    } else {
        let rest = scores.skip(1);
        let tail = credited(rest, speaker, x);
        lemma_credited(rest, speaker, x);
        assert forall|s: Speaker| #![trigger scored(after, s)] scored(after, s) implies scored(
            scores,
            s,
        ) || s == speaker by {
            let i = choose|i: int| #![trigger after[i]] 0 <= i < after.len() && after[i].0 == s;
            if i == 0 {
                assert(scores[0].0 == s);
            } else {
                assert(tail[i - 1].0 == s);
                assert(scored(tail, s));
                if s != speaker {
                    let j = choose|j: int|
                        #![trigger rest[j]]
                        0 <= j < rest.len() && rest[j].0 == s;
                    assert(scores[j + 1].0 == s);
                }
            }
        }
        if named_once(scores) {
            assert(named_once(rest)) by {
                assert forall|i: int, j: int|
                    #![trigger rest[i], rest[j]]
                    0 <= i < j < rest.len() implies rest[i].0 != rest[j].0 by {
                    assert(scores[i + 1].0 != scores[j + 1].0);
                }
            }
            assert forall|i: int, j: int|
                #![trigger after[i], after[j]]
                0 <= i < j < after.len() implies after[i].0 != after[j].0 by {
                assert(after[j] == tail[j - 1]);
                if i > 0 {
                    assert(after[i] == tail[i - 1]);
                } else {
                    assert(scored(tail, tail[j - 1].0));
                    if after[j].0 == scores[0].0 {
                        assert(scored(rest, scores[0].0));
                        let k = choose|k: int|
                            #![trigger rest[k]]
                            0 <= k < rest.len() && rest[k].0 == scores[0].0;
                        assert(scores[0].0 != scores[k + 1].0);
                    }
                }
            }
        }
    }
}

proof fn lemma_scores(w: Seq<WindowView>, k: int, start: u64, end: u64)
    ensures
        named_once(scores_of(w, k, start, end)),
    decreases k,
{
    if k > 0 {
        lemma_scores(w, k - 1, start, end);
        let prev = scores_of(w, k - 1, start, end);
        let shared = overlap(
            start,
            end,
            w[k - 1].start_ms,
            w[k - 1].end_ms,
        );
        lemma_credited(
            prev,
            w[k - 1].speaker,
            product(
                of_integer(shared),
                larger(
                    w[k - 1].confidence,
                    Float32 { bits: LEAST_WEIGHT_BITS },
                ),
            ),
        );
    }
}

/// In the scores of a stretch no speaker occurs twice.
pub proof fn law_scores_name_once(w: Seq<WindowView>, start: u64, end: u64)
    ensures
        named_once(range_scores(w, start, end)),
{
    lemma_scores(w, w.len() as int, start, end);
}

proof fn lemma_last_largest(scores: Scores, k: int)
    requires
        1 <= k <= scores.len(),
    ensures
        0 <= last_largest(scores, k) < k,
        forall|j: int|
            #![trigger scores[j]]
            0 <= j < k ==> scores[j].1.rank() <= scores[last_largest(scores, k)].1.rank(),
    decreases k,
{
    if k > 1 {
        lemma_last_largest(scores, k - 1);
    }
}

/// The dominant speaker is one of the speakers scored, and no score is above its own.
pub proof fn law_dominant_has_the_largest_score(scores: Scores)
    requires
        scores.len() > 0,
    ensures
        dominant(scores) matches Some((speaker, share)) && exists|i: int|
            #![trigger scores[i]]
            0 <= i < scores.len() && scores[i].0 == speaker && forall|j: int|
                #![trigger scores[j]]
                0 <= j < scores.len() ==> scores[j].1.rank() <= scores[i].1.rank(),
{
    let n = scores.len() as int;
    lemma_last_largest(scores, n);
    let i = last_largest(scores, n);
    let best = dominant(scores)->0;
    assert(scores[i].0 == best.0);
}

/// The share of the dominant speaker lies between zero and one, unless it is not a number.
pub proof fn law_shares_lie_between_zero_and_one(scores: Scores)
    ensures
        dominant(scores) matches Some((speaker, share)) ==> share.nan() || zero().at_most(share)
            && share.at_most(Float32 { bits: ONE_BITS }),
{
    lemma_units_increase(zero(), Float32 { bits: ONE_BITS });
}

/// The windows over a chunk start with it and end with it, and each starts at most `hop`
/// samples behind the one before.
pub proof fn law_windows_span_the_chunk(count: nat, window: nat, hop: nat)
    requires
        hop > 0,
        count > window,
    ensures
        ({
            let starts = window_starts(count, window, hop);
            &&& starts.len() > 0
            &&& starts[0] == 0
            &&& starts.last() == count - window
            &&& forall|i: int, j: int|
                #![trigger starts[i], starts[j]]
                0 <= i && j == i + 1 && j < starts.len() ==> starts[i] < starts[j] <= starts[i]
                    + hop
        }),
{
    let last = count - window;
    let h = hop as int;
    let starts = window_starts(count, window, hop);
    let n = last / h;
    vstd::arithmetic::div_mod::lemma_fundamental_div_mod(last, h);
    assert(n >= 0) by (nonlinear_arith)
        requires
            n == last / h,
            last >= 0,
            h > 0,
    ;
    assert(0 * h == 0) by (nonlinear_arith);
    assert(n * h == h * n) by (nonlinear_arith);
    assert forall|i: int, j: int|
        #![trigger starts[i], starts[j]]
        0 <= i && j == i + 1 && j < starts.len() implies starts[i] < starts[j] <= starts[i] + hop by {
        assert((i + 1) * h == i * h + h) by (nonlinear_arith);
        if j <= n {
            assert(starts[i] == i * h);
            assert(starts[j] == j * h);
        } else {
            assert(i == n);
            assert(starts[i] == n * h);
            assert(starts[j] == last);
        }
    }
}

/// All windows share time with a segment.
pub open spec fn all_meet(w: Seq<PlannedWindow>, segments: Seq<TranscriptSegment>) -> bool {
    forall|i: int| 0 <= i < w.len() ==> meets((#[trigger] w[i]).start_ms, w[i].end_ms, segments)
}

/// Every window that is embedded shares time with a segment.
pub proof fn law_planned_windows_meet_segments(
    starts: Seq<int>,
    k: int,
    count: nat,
    window: nat,
    chunk_start_ms: u64,
    segments: Seq<TranscriptSegment>,
)
    ensures
        all_meet(windows_on(starts, k, count, window, chunk_start_ms, segments), segments),
    decreases k,
{
    if k > 0 {
        law_planned_windows_meet_segments(
            starts,
            k - 1,
            count,
            window,
            chunk_start_ms,
            segments,
        );
        let prev = windows_on(starts, k - 1, count, window, chunk_start_ms, segments);
        let all = windows_on(starts, k, count, window, chunk_start_ms, segments);
        assert forall|i: int| 0 <= i < all.len() implies meets(
            (#[trigger] all[i]).start_ms,
            all[i].end_ms,
            segments,
        ) by {
            if i < prev.len() {
                assert(all[i] == prev[i]);
            } else {
                assert(all[i] == window_at(count, window, starts[k - 1], chunk_start_ms));
            }
        }
    }
}

} // verus!
