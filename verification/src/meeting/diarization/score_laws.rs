//! Who a stretch of time belongs to.
use vstd::prelude::*;
use crate::float32::{
    clamped, larger, lemma_units_increase, of_integer, product, quotient, sum, Float32,
};
use crate::float32_laws::law_zero_and_one;
use crate::meeting::data::span;
use crate::meeting::diarization::vectors::{zero, ONE_BITS};
use crate::meeting::diarization::window_laws::{law_scores_name_once, named_once, scored};
use crate::meeting::diarization::windows::{
    competing_share, credited, dominant, first_largest, largest_share, last_largest, mean,
    overlap, range_scores, range_speaker, scores_of, smoothed_once, total_score, Scores,
    WindowView, COMPETITOR_SHARE_BITS, DOMINANT_SHARE_BITS, LEAST_WEIGHT_BITS,
};
use crate::meeting::diarization::Speaker;

verus! {

/// A point of time lies in a stretch.
pub open spec fn within_time(t: u64, start: u64, end: u64) -> bool {
    start <= t < end
}

/// The time that two stretches share is the time that lies in both: it does not matter which
/// is named first, a stretch shares all of its time with itself, the two parts of a stretch
/// share what the whole does, and nothing is shared exactly where no point lies in both.
pub proof fn law_overlap_is_common_time(a: u64, b: u64, c: u64, d: u64, m: u64)
    ensures
        overlap(a, b, c, d) == overlap(c, d, a, b),
        overlap(a, b, a, b) == span(a, b),
        a <= b ==> a + span(a, b) == b,
        b <= a ==> span(a, b) == 0,
        a <= m <= b ==> overlap(a, b, c, d) == overlap(a, m, c, d) + overlap(m, b, c, d),
        overlap(a, b, c, d) > 0 <==> exists|t: u64| #[trigger]
            within_time(t, a, b) && within_time(t, c, d),
{
    let t = if a > c {
        a
    } else {
        c
    };
    if overlap(a, b, c, d) > 0 {
        assert(within_time(t, a, b) && within_time(t, c, d));
    }
}

/// The windows of a speaker that share time with a stretch, in their order.
pub open spec fn windows_of(w: Seq<WindowView>, speaker: Speaker, start: u64, end: u64) -> Seq<
    WindowView,
> {
    w.filter(
        |x: WindowView| x.speaker == speaker && overlap(start, end, x.start_ms, x.end_ms) > 0,
    )
}

/// What windows add up to: the time that each shares with a stretch, in milliseconds, times
/// its confidence, which counts as a tenth at least.
pub open spec fn credit(w: Seq<WindowView>, start: u64, end: u64) -> Float32 {
    w.fold_left(
        zero(),
        |total: Float32, x: WindowView|
            sum(
                total,
                product(
                    of_integer(overlap(start, end, x.start_ms, x.end_ms)),
                    larger(x.confidence, Float32 { bits: LEAST_WEIGHT_BITS }),
                ),
            ),
    )
}

proof fn lemma_credited_at(scores: Scores, speaker: Speaker, x: Float32)
    requires
        named_once(scores),
    ensures
        ({
            let after = credited(scores, speaker, x);
            if scored(scores, speaker) {
                after == scores.map_values(
                    |p: (Speaker, Float32)|
                        if p.0 == speaker {
                            (speaker, sum(p.1, x))
                        } else {
                            p
                        },
                )
            } else {
                after == scores.push((speaker, sum(zero(), x)))
            }
        }),
    decreases scores.len(),
{
    let f = |p: (Speaker, Float32)|
        if p.0 == speaker {
            (speaker, sum(p.1, x))
        } else {
            p
        };
    let after = credited(scores, speaker, x);
    if scores.len() == 0 {
        assert(after =~= scores.push((speaker, sum(zero(), x))));
    } else if scores[0].0 == speaker {
        assert(scored(scores, speaker));
        assert forall|i: int| 0 <= i < scores.len() implies after[i] == #[trigger] f(scores[i]) by {
            if i > 0 {
                assert(scores[0].0 != scores[i].0);
            }
        }
        assert(after =~= scores.map_values(f));
    } else {
        let rest = scores.skip(1);
        assert forall|i: int, j: int|
            #![trigger rest[i], rest[j]]
            0 <= i < j < rest.len() implies rest[i].0 != rest[j].0 by {
            assert(scores[i + 1].0 != scores[j + 1].0);
        }
        lemma_credited_at(rest, speaker, x);
        let tail = credited(rest, speaker, x);
        if scored(rest, speaker) {
            let j = choose|j: int|
                #![trigger rest[j]]
                0 <= j < rest.len() && rest[j].0 == speaker;
            assert(scores[j + 1].0 == speaker);
            assert(scored(scores, speaker));
            assert(after =~= scores.map_values(f));
        } else {
            assert(!scored(scores, speaker)) by {
                if scored(scores, speaker) {
                    let j = choose|j: int|
                        #![trigger scores[j]]
                        0 <= j < scores.len() && scores[j].0 == speaker;
                    assert(rest[j - 1].0 == speaker);
                }
            }
            assert(after =~= scores.push((speaker, sum(zero(), x))));
        }
    }
}

proof fn lemma_scores_named(w: Seq<WindowView>, k: int, start: u64, end: u64)
    requires
        start < end,
        0 <= k <= w.len(),
    ensures
        named_once(scores_of(w, k, start, end)),
        scores_of(w, k, start, end) == scores_of(w.take(k), k, start, end),
{
    lemma_scores_take(w, w.take(k), k, start, end);
    law_scores_name_once(w.take(k), start, end);
}

proof fn lemma_scores_take(v: Seq<WindowView>, w: Seq<WindowView>, k: int, start: u64, end: u64)
    requires
        0 <= k <= v.len(),
        k <= w.len(),
        forall|i: int| #![trigger v[i]] 0 <= i < k ==> v[i] == w[i],
    ensures
        scores_of(v, k, start, end) == scores_of(w, k, start, end),
    decreases k,
{
    if k > 0 {
        lemma_scores_take(v, w, k - 1, start, end);
        assert(v[k - 1] == w[k - 1]);
    }
}

proof fn lemma_scores_add_up(w: Seq<WindowView>, k: int, start: u64, end: u64, speaker: Speaker)
    requires
        start < end,
        0 <= k <= w.len(),
    ensures
        ({
            let scores = scores_of(w, k, start, end);
            let mine = windows_of(w.take(k), speaker, start, end);
            &&& scored(scores, speaker) <==> mine.len() > 0
            &&& forall|i: int|
                #![trigger scores[i]]
                0 <= i < scores.len() && scores[i].0 == speaker ==> scores[i].1 == credit(
                    mine,
                    start,
                    end,
                )
        }),
    decreases k,
{
    reveal(Seq::filter);
    reveal(Seq::fold_left);
    if k > 0 {
        lemma_scores_add_up(w, k - 1, start, end, speaker);
        lemma_scores_named(w, k - 1, start, end);
        let prev = scores_of(w, k - 1, start, end);
        let scores = scores_of(w, k, start, end);
        let before = windows_of(w.take(k - 1), speaker, start, end);
        let mine = windows_of(w.take(k), speaker, start, end);
        let x = w[k - 1];
        let shared = overlap(start, end, x.start_ms, x.end_ms);
        assert(w.take(k).drop_last() =~= w.take(k - 1));
        assert(w.take(k).last() == x);
        if shared > 0 {
            let more = product(
                of_integer(shared),
                larger(x.confidence, Float32 { bits: LEAST_WEIGHT_BITS }),
            );
            lemma_credited_at(prev, x.speaker, more);
            if x.speaker == speaker {
                assert(mine == before.push(x));
                assert(mine.drop_last() =~= before);
                assert(credit(mine, start, end) == sum(credit(before, start, end), more));
                if scored(prev, speaker) {
                    let j = choose|j: int|
                        #![trigger prev[j]]
                        0 <= j < prev.len() && prev[j].0 == speaker;
                    assert(scores[j].0 == speaker);
                } else {
                    assert(scores[prev.len() as int].0 == speaker);
                    assert(before.len() == 0);
                    assert(credit(before, start, end) == zero());
                }
                assert forall|i: int|
                    #![trigger scores[i]]
                    0 <= i < scores.len() && scores[i].0 == speaker implies scores[i].1 == credit(
                    mine,
                    start,
                    end,
                ) by {
                    if i < prev.len() {
                        assert(prev[i].0 == speaker);
                    }
                }
            } else {
                assert(mine == before);
                if scored(prev, speaker) {
                    let j = choose|j: int|
                        #![trigger prev[j]]
                        0 <= j < prev.len() && prev[j].0 == speaker;
                    assert(scores[j].0 == speaker);
                }
                if scored(scores, speaker) {
                    let j = choose|j: int|
                        #![trigger scores[j]]
                        0 <= j < scores.len() && scores[j].0 == speaker;
                    assert(j < prev.len());
                    assert(prev[j].0 == speaker);
                }
                assert forall|i: int|
                    #![trigger scores[i]]
                    0 <= i < scores.len() && scores[i].0 == speaker implies scores[i].1 == credit(
                    mine,
                    start,
                    end,
                ) by {
                    assert(i < prev.len());
                    assert(prev[i].0 == speaker);
                }
            }
        }
    } else {
        assert(w.take(0) =~= Seq::empty());
    }
}

/// A speaker has a score in a stretch exactly where one of its windows shares time with it,
/// and the score is what its own windows add up to, and no others.
pub proof fn law_scores_are_the_speakers_own(
    w: Seq<WindowView>,
    start: u64,
    end: u64,
    speaker: Speaker,
)
    requires
        start < end,
    ensures
        ({
            let scores = range_scores(w, start, end);
            let mine = windows_of(w, speaker, start, end);
            &&& scored(scores, speaker) <==> mine.len() > 0
            &&& forall|i: int|
                #![trigger scores[i]]
                0 <= i < scores.len() && scores[i].0 == speaker ==> scores[i].1 == credit(
                    mine,
                    start,
                    end,
                )
        }),
{
    lemma_scores_add_up(w, w.len() as int, start, end, speaker);
    assert(w.take(w.len() as int) =~= w);
}

proof fn lemma_sole(w: Seq<WindowView>, k: int, start: u64, end: u64, speaker: Speaker)
    requires
        0 <= k <= w.len(),
        forall|i: int|
            #![trigger w[i]]
            0 <= i < w.len() && overlap(start, end, w[i].start_ms, w[i].end_ms) > 0
                ==> w[i].speaker == speaker,
    ensures
        ({
            let scores = scores_of(w, k, start, end);
            &&& scores.len() <= 1
            &&& scores.len() == 1 ==> scores[0].0 == speaker
            &&& forall|i: int|
                #![trigger w[i]]
                0 <= i < k && overlap(start, end, w[i].start_ms, w[i].end_ms) > 0 ==> scores.len()
                    == 1
        }),
    decreases k,
{
    if k > 0 {
        lemma_sole(w, k - 1, start, end, speaker);
        reveal_with_fuel(credited, 2);
        let x = w[k - 1];
    }
}

/// A stretch in which only one speaker has windows is that speaker's; one in which nobody
/// has is nobody's in particular.
pub proof fn law_sole_speaker_takes_the_stretch(
    w: Seq<WindowView>,
    start: u64,
    end: u64,
    speaker: Speaker,
)
    requires
        start < end,
        forall|i: int|
            #![trigger w[i]]
            0 <= i < w.len() && overlap(start, end, w[i].start_ms, w[i].end_ms) > 0
                ==> w[i].speaker == speaker,
    ensures
        ({
            let r = range_speaker(w, start, end);
            let mine = windows_of(w, speaker, start, end);
            let score = credit(mine, start, end);
            &&& mine.len() > 0 ==> r.0 == speaker
            &&& mine.len() > 0 && score.finite() && !score.zero() && !score.negative() ==> r.1 == (
            Float32 { bits: ONE_BITS })
            &&& mine.len() == 0 ==> r == (Speaker::Remote, zero())
        }),
{
    let scores = range_scores(w, start, end);
    let mine = windows_of(w, speaker, start, end);
    law_scores_are_the_speakers_own(w, start, end, speaker);
    lemma_sole(w, w.len() as int, start, end, speaker);
    reveal_with_fuel(largest_share, 2);
    reveal_with_fuel(total_score, 2);
    let fifth = Float32 { bits: COMPETITOR_SHARE_BITS };
    assert(!fifth.at_most(zero())) by {
        lemma_units_increase(zero(), fifth);
    }
    if scores.len() == 1 {
        assert(scored(scores, speaker)) by {
            assert(scores[0].0 == speaker);
        }
        assert(first_largest(scores, 1) == 0 && last_largest(scores, 1) == 0);
        assert(competing_share(scores) == zero());
        let score = credit(mine, start, end);
        if score.finite() && !score.zero() && !score.negative() {
            law_zero_and_one(score);
            lemma_units_increase(zero(), score);
            assert(total_score(scores, 1) == score);
            lemma_units_increase(zero(), Float32 { bits: ONE_BITS });
        }
    } else {
        assert(scores.len() == 0);
        if mine.len() > 0 {
            let j = choose|j: int|
                #![trigger scores[j]]
                0 <= j < scores.len() && scores[j].0 == speaker;
        }
    }
}

proof fn lemma_largest_share(scores: Scores, k: int, skip: int, total: Float32, least: Float32)
    requires
        0 <= k <= scores.len(),
        zero().below(least),
    ensures
        !largest_share(scores, k, skip, total).nan(),
        least.at_most(largest_share(scores, k, skip, total)) <==> exists|j: int|
            #![trigger scores[j]]
            0 <= j < k && j != skip && least.at_most(quotient(scores[j].1, total)),
    decreases k,
{
    if k > 0 {
        lemma_largest_share(scores, k - 1, skip, total, least);
        let prev = largest_share(scores, k - 1, skip, total);
        let now = largest_share(scores, k, skip, total);
        let q = quotient(scores[k - 1].1, total);
        if least.at_most(now) {
            if least.at_most(prev) {
                let j = choose|j: int|
                    #![trigger scores[j]]
                    0 <= j < k - 1 && j != skip && least.at_most(quotient(scores[j].1, total));
                assert(scores[j] == scores[j]);
            } else {
                assert(k - 1 != skip && least.at_most(q));
                assert(scores[k - 1] == scores[k - 1]);
            }
        }
    }
}

proof fn lemma_first_largest(scores: Scores, k: int)
    requires
        1 <= k <= scores.len(),
    ensures
        ({
            let b = first_largest(scores, k);
            &&& 0 <= b < k
            &&& forall|j: int|
                #![trigger scores[j]]
                0 <= j < k ==> scores[j].1.rank() <= scores[b].1.rank() && (j < b
                    ==> scores[j].1.rank() < scores[b].1.rank())
        }),
    decreases k,
{
    if k > 1 {
        lemma_first_largest(scores, k - 1);
    }
}

proof fn lemma_last_largest(scores: Scores, k: int)
    requires
        1 <= k <= scores.len(),
    ensures
        ({
            let b = last_largest(scores, k);
            &&& 0 <= b < k
            &&& forall|j: int|
                #![trigger scores[j]]
                0 <= j < k ==> scores[j].1.rank() <= scores[b].1.rank() && (j > b
                    ==> scores[j].1.rank() < scores[b].1.rank())
        }),
    decreases k,
{
    if k > 1 {
        lemma_last_largest(scores, k - 1);
    }
}

proof fn lemma_total_score(scores: Scores, k: int)
    requires
        0 <= k <= scores.len(),
    ensures
        total_score(scores, k) == scores.take(k).fold_left(
            zero(),
            |t: Float32, p: (Speaker, Float32)| sum(t, p.1),
        ),
    decreases k,
{
    reveal(Seq::fold_left);
    if k > 0 {
        lemma_total_score(scores, k - 1);
        assert(scores.take(k).drop_last() =~= scores.take(k - 1));
        assert(scores.take(k).last() == scores[k - 1]);
    }
}

/// The dominant speaker is the last of those with the largest score, and its share is that
/// very score by the sum of all scores, between zero and one; zero where the sum is not
/// above zero.
pub proof fn law_dominant_has_its_own_share(scores: Scores)
    requires
        scores.len() > 0,
    ensures
        ({
            let total = scores.fold_left(
                zero(),
                |t: Float32, p: (Speaker, Float32)| sum(t, p.1),
            );
            dominant(scores) matches Some((speaker, share)) && exists|i: int|
                #![trigger scores[i]]
                {
                    &&& 0 <= i < scores.len()
                    &&& scores[i].0 == speaker
                    &&& forall|j: int|
                        #![trigger scores[j]]
                        0 <= j < scores.len() ==> scores[j].1.rank() <= scores[i].1.rank() && (j
                            > i ==> scores[j].1.rank() < scores[i].1.rank())
                    &&& share == if zero().below(total) {
                        clamped(quotient(scores[i].1, total), zero(), Float32 { bits: ONE_BITS })
                    } else {
                        zero()
                    }
                }
        }),
{
    let n = scores.len() as int;
    lemma_last_largest(scores, n);
    lemma_total_score(scores, n);
    assert(scores.take(n) =~= scores);
    let i = last_largest(scores, n);
    assert(scores[i] == scores[i]);
}

/// Somebody else has at least a fifth of the scores, who is not the first of those with the
/// largest score.
pub open spec fn contested(scores: Scores) -> bool {
    let total = total_score(scores, scores.len() as int);
    zero().below(total) && exists|j: int, b: int|
        #![trigger scores[j], scores[b]]
        0 <= b < scores.len() && (forall|i: int|
            #![trigger scores[i]]
            0 <= i < scores.len() ==> scores[i].1.rank() <= scores[b].1.rank() && (i < b
                ==> scores[i].1.rank() < scores[b].1.rank())) && 0 <= j < scores.len() && j != b && (
        Float32 { bits: COMPETITOR_SHARE_BITS }).at_most(quotient(scores[j].1, total))
}

/// A stretch goes to the speaker with the largest share, unless somebody else has a fifth
/// of it and that share is below three fifths: then it is nobody's in particular. The
/// confidence is the share either way.
pub proof fn law_contested_stretches_are_nobodys(w: Seq<WindowView>, start: u64, end: u64)
    ensures
        ({
            let scores = range_scores(w, start, end);
            match dominant(scores) {
                None => range_speaker(w, start, end) == (Speaker::Remote, zero()),
                Some((speaker, share)) => range_speaker(w, start, end) == (
                    if contested(scores) && share.below(Float32 { bits: DOMINANT_SHARE_BITS }) {
                        Speaker::Remote
                    } else {
                        speaker
                    },
                    share,
                ),
            }
        }),
{
    let scores = range_scores(w, start, end);
    if scores.len() > 0 {
        let n = scores.len() as int;
        let total = total_score(scores, n);
        let fifth = Float32 { bits: COMPETITOR_SHARE_BITS };
        lemma_units_increase(zero(), fifth);
        let b = first_largest(scores, n);
        lemma_first_largest(scores, n);
        lemma_largest_share(scores, n, b, total, fifth);
        if zero().below(total) {
            if fifth.at_most(largest_share(scores, n, b, total)) {
                let j = choose|j: int|
                    #![trigger scores[j]]
                    0 <= j < n && j != b && fifth.at_most(quotient(scores[j].1, total));
                assert(scores[j] == scores[j] && scores[b] == scores[b]);
                assert(contested(scores));
            } else if contested(scores) {
                let (j, c) = choose|j: int, c: int|
                    #![trigger scores[j], scores[c]]
                    0 <= c < scores.len() && (forall|i: int|
                        #![trigger scores[i]]
                        0 <= i < scores.len() ==> scores[i].1.rank() <= scores[c].1.rank() && (i
                            < c ==> scores[i].1.rank() < scores[c].1.rank())) && 0 <= j
                        < scores.len() && j != c && fifth.at_most(quotient(scores[j].1, total));
                assert(c == b) by {
                    assert(scores[b].1.rank() <= scores[c].1.rank());
                    assert(scores[c].1.rank() <= scores[b].1.rank());
                }
                assert(scores[j] == scores[j]);
            }
        }
    }
}

/// Smoothing changes a window exactly where both neighbours are of one other speaker and it
/// is unsure itself: it then goes to that speaker, with the mean of the neighbours'
/// confidences. In particular a window that is sure stays, and so does one at either end or
/// between two speakers.
pub proof fn law_smoothing_gives_way_to_neighbours(
    w: Seq<WindowView>,
    threshold: Float32,
    i: int,
)
    requires
        0 <= i < w.len(),
    ensures
        ({
            let after = smoothed_once(w, threshold)[i];
            let between = 0 < i < w.len() - 1 && w[i - 1].speaker == w[i + 1].speaker;
            &&& between && w[i].speaker != w[i - 1].speaker && w[i].confidence.below(threshold)
                ==> after.speaker == w[i - 1].speaker && after.confidence == mean(
                w[i - 1].confidence,
                w[i + 1].confidence,
            )
            &&& !between || w[i].speaker == w[i - 1].speaker || !w[i].confidence.below(threshold)
                ==> after == w[i]
            &&& after.start_ms == w[i].start_ms && after.end_ms == w[i].end_ms && after.embedding
                == w[i].embedding
        }),
{
}

} // verus!
