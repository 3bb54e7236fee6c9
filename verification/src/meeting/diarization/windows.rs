//! Analysis windows: smoothing, and who dominates a stretch of time.
use vstd::prelude::*;
use crate::float32::{clamped, larger, of_integer, product, quotient, sum, Float32};
use crate::meeting::data::TranscriptSegment;
use crate::meeting::diarization::vectors::{zero, ONE_BITS};
use crate::meeting::diarization::{Speaker, SpeakerId};

verus! {

/// 0.1, the least weight of a window.
pub const LEAST_WEIGHT_BITS: u32 = 0x3dcc_cccd;

/// 2.0.
pub const TWO_BITS: u32 = 0x4000_0000;

/// 0.2, the share from which a second speaker makes a stretch ambiguous.
pub const COMPETITOR_SHARE_BITS: u32 = 0x3e4c_cccd;

/// 0.6, the share below which the first speaker of an ambiguous stretch does not count.
pub const DOMINANT_SHARE_BITS: u32 = 0x3f19_999a;

/// A stretch of audio with its embedding and the speaker it is attributed to.
#[derive(Debug)]
pub struct SpeakerWindow {
    pub start_ms: u64,
    pub end_ms: u64,
    pub speaker: SpeakerId,
    pub confidence: Float32,
    pub embedding: Vec<Float32>,
    /// The first attribution, before any smoothing.
    pub initial_speaker: SpeakerId,
    pub initial_confidence: Float32,
}

/// What a window says.
#[verifier::ext_equal]
pub struct WindowView {
    pub start_ms: u64,
    pub end_ms: u64,
    pub speaker: Speaker,
    pub confidence: Float32,
    pub embedding: Seq<Float32>,
    pub initial_speaker: Speaker,
    pub initial_confidence: Float32,
}

impl View for SpeakerWindow {
    type V = WindowView;

    open spec fn view(&self) -> WindowView {
        WindowView {
            start_ms: self.start_ms,
            end_ms: self.end_ms,
            speaker: self.speaker@,
            confidence: self.confidence,
            embedding: self.embedding@,
            initial_speaker: self.initial_speaker@,
            initial_confidence: self.initial_confidence,
        }
    }
}

/// What the windows of a list say.
pub open spec fn window_views(v: Seq<SpeakerWindow>) -> Seq<WindowView> {
    v.map_values(|w: SpeakerWindow| w@)
}

/// A window with another attribution.
pub open spec fn attributed(w: WindowView, speaker: Speaker, confidence: Float32) -> WindowView {
    WindowView { speaker, confidence, ..w }
}

/// The length of the time that two stretches share.
pub open spec fn overlap(a_start: u64, a_end: u64, b_start: u64, b_end: u64) -> nat {
    let start = if a_start > b_start {
        a_start
    } else {
        b_start
    };
    let end = if a_end < b_end {
        a_end
    } else {
        b_end
    };
    if start < end {
        (end - start) as nat
    } else {
        0
    }
}

/// `(a + b) / 2`.
pub open spec fn mean(a: Float32, b: Float32) -> Float32 {
    quotient(sum(a, b), Float32 { bits: TWO_BITS })
}

/// Whether window `i` is an outlier: both neighbours agree on another speaker, and its own
/// confidence is below the threshold.
pub open spec fn outlier(w: Seq<WindowView>, i: int, threshold: Float32) -> bool {
    &&& 0 < i < w.len() - 1
    &&& w[i - 1].speaker == w[i + 1].speaker
    &&& w[i].speaker != w[i - 1].speaker
    &&& w[i].confidence.below(threshold)
}

/// The windows with every outlier given to its neighbours' speaker.
pub open spec fn smoothed_once(w: Seq<WindowView>, threshold: Float32) -> Seq<WindowView> {
    Seq::new(
        w.len(),
        |i: int|
            if outlier(w, i, threshold) {
                attributed(
                    w[i],
                    w[i - 1].speaker,
                    mean(w[i - 1].confidence, w[i + 1].confidence),
                )
            } else {
                w[i]
            },
    )
}

/// The windows smoothed twice.
pub open spec fn smoothed(w: Seq<WindowView>, threshold: Float32) -> Seq<WindowView> {
    smoothed_once(smoothed_once(w, threshold), threshold)
}

/// A list of speakers with their scores.
pub type Scores = Seq<(Speaker, Float32)>;

/// The scores with `x` more for `speaker`.
pub open spec fn credited(scores: Scores, speaker: Speaker, x: Float32) -> Scores
    decreases scores.len(),
{
    if scores.len() == 0 {
        seq![(speaker, sum(zero(), x))]
    } else if scores[0].0 == speaker {
        scores.update(0, (speaker, sum(scores[0].1, x)))
    } else {
        seq![scores[0]] + credited(scores.skip(1), speaker, x)
    }
}

/// What the first `k` windows add up to for the stretch from `start` to `end`: each
/// counts for its speaker with the time it shares, weighted by its confidence.
pub open spec fn scores_of(w: Seq<WindowView>, k: int, start: u64, end: u64) -> Scores
    decreases k,
{
    if k <= 0 {
        Seq::empty()
    } else {
        let prev = scores_of(w, k - 1, start, end);
        let shared = overlap(start, end, w[k - 1].start_ms, w[k - 1].end_ms);
        if shared == 0 {
            prev
        } else {
            credited(
                prev,
                w[k - 1].speaker,
                product(
                    of_integer(shared),
                    larger(w[k - 1].confidence, Float32 { bits: LEAST_WEIGHT_BITS }),
                ),
            )
        }
    }
}

/// The scores for a stretch; none where it is empty.
pub open spec fn range_scores(w: Seq<WindowView>, start: u64, end: u64) -> Scores {
    if start >= end {
        Seq::empty()
    } else {
        scores_of(w, w.len() as int, start, end)
    }
}

/// The sum of the first `k` scores.
pub open spec fn total_score(scores: Scores, k: int) -> Float32
    decreases k,
{
    if k <= 0 {
        zero()
    } else {
        sum(total_score(scores, k - 1), scores[k - 1].1)
    }
}

/// The place of the largest of the first `k` scores, the last one where several are equal.
pub open spec fn last_largest(scores: Scores, k: int) -> int
    decreases k,
{
    if k <= 1 {
        0
    } else {
        let i = last_largest(scores, k - 1);
        if scores[k - 1].1.rank() >= scores[i].1.rank() {
            k - 1
        } else {
            i
        }
    }
}

/// The place of the largest of the first `k` scores, the first one where several are equal.
pub open spec fn first_largest(scores: Scores, k: int) -> int
    decreases k,
{
    if k <= 1 {
        0
    } else {
        let i = first_largest(scores, k - 1);
        if scores[k - 1].1.rank() > scores[i].1.rank() {
            k - 1
        } else {
            i
        }
    }
}

/// The speaker with the largest score, and its share.
pub open spec fn dominant(scores: Scores) -> Option<(Speaker, Float32)> {
    if scores.len() == 0 {
        None
    } else {
        let n = scores.len() as int;
        let total = total_score(scores, n);
        let best = scores[last_largest(scores, n)];
        Some(
            (
                best.0,
                if zero().below(total) {
                    clamped(quotient(best.1, total), zero(), Float32 { bits: ONE_BITS })
                } else {
                    zero()
                },
            ),
        )
    }
}

/// The largest share among the first `k` scores but the one at `skip`.
pub open spec fn largest_share(scores: Scores, k: int, skip: int, total: Float32) -> Float32
    decreases k,
{
    if k <= 0 {
        zero()
    } else {
        let prev = largest_share(scores, k - 1, skip, total);
        if k - 1 == skip {
            prev
        } else {
            larger(prev, quotient(scores[k - 1].1, total))
        }
    }
}

/// The share of the runner-up.
pub open spec fn competing_share(scores: Scores) -> Float32 {
    let n = scores.len() as int;
    let total = total_score(scores, n);
    if zero().below(total) {
        largest_share(scores, n, first_largest(scores, n), total)
    } else {
        zero()
    }
}

/// Who a stretch is attributed to: the dominant speaker, or nobody in particular where a
/// runner-up has a large share and the dominant one a small one.
pub open spec fn range_speaker(w: Seq<WindowView>, start: u64, end: u64) -> (Speaker, Float32) {
    let scores = range_scores(w, start, end);
    match dominant(scores) {
        None => (Speaker::Remote, zero()),
        Some((speaker, share)) => if speaker != Speaker::Remote && (Float32 {
            bits: COMPETITOR_SHARE_BITS,
        }).at_most(competing_share(scores)) && share.below(
            Float32 { bits: DOMINANT_SHARE_BITS },
        ) {
            (Speaker::Remote, share)
        } else {
            (speaker, share)
        },
    }
}

/// The length of the time that two stretches share.
pub fn windows_overlap(start_ms: u64, end_ms: u64, other_start_ms: u64, other_end_ms: u64) -> (r:
    u64)
    ensures
        r == overlap(start_ms, end_ms, other_start_ms, other_end_ms),
{
    let start: u64 = if start_ms > other_start_ms { start_ms } else { other_start_ms };
    let end: u64 = if end_ms < other_end_ms { end_ms } else { other_end_ms };
    end.saturating_sub(start)
}

/// Whether a stretch shares time with any segment.
pub open spec fn meets(start: u64, end: u64, segments: Seq<TranscriptSegment>) -> bool {
    exists|i: int|
        #![trigger segments[i]]
        0 <= i < segments.len() && overlap(start, end, segments[i].start_ms, segments[i].end_ms) > 0
}

pub fn window_overlaps_transcript(start_ms: u64, end_ms: u64, segments: &[TranscriptSegment]) -> (r:
    bool)
    ensures
        r == meets(start_ms, end_ms, segments@),
{
    let mut i: usize = 0;
    while i < segments.len()
        invariant
            i <= segments.len(),
            forall|j: int|
                #![trigger segments@[j]]
                0 <= j < i ==> overlap(
                    start_ms,
                    end_ms,
                    segments@[j].start_ms,
                    segments@[j].end_ms,
                ) == 0,
        decreases segments.len() - i,
    {
        if windows_overlap(start_ms, end_ms, segments[i].start_ms, segments[i].end_ms) > 0 {
            assert(overlap(
                start_ms,
                end_ms,
                segments@[i as int].start_ms,
                segments@[i as int].end_ms,
            ) > 0);
            return true;
        }
        i = i + 1;
    }
    false
}

fn smooth_pass(windows: &mut Vec<SpeakerWindow>, threshold: Float32)
    ensures
        window_views(final(windows)@) == smoothed_once(window_views(old(windows)@), threshold),
{
    let n: usize = windows.len();
    let ghost views = window_views(old(windows)@);
    let ghost goal = smoothed_once(views, threshold);
    // the attributions as they were
    let mut before: Vec<(SpeakerId, Float32)> = Vec::new();
    let mut j: usize = 0;
    while j < n
        invariant
            j <= n == windows.len(),
            *windows == *old(windows),
            views == window_views(windows@),
            before.len() == j,
            forall|k: int|
                #![trigger before[k]]
                0 <= k < j ==> before[k].0@ == views[k].speaker && before[k].1
                    == views[k].confidence,
        decreases n - j,
    {
        before.push((windows[j].speaker.clone(), windows[j].confidence));
        j = j + 1;
    }
    let mut i: usize = 0;
    while i < n
        invariant
            i <= n == windows.len(),
            n == views.len(),
            views == window_views(old(windows)@),
            goal == smoothed_once(views, threshold),
            before.len() == n,
            forall|k: int|
                #![trigger before[k]]
                0 <= k < n ==> before[k].0@ == views[k].speaker && before[k].1
                    == views[k].confidence,
            forall|k: int|
                #![trigger windows@[k]]
                0 <= k < n ==> windows@[k]@ == if k < i {
                    goal[k]
                } else {
                    views[k]
                },
        decreases n - i,
    {
        if i > 0 && i < n - 1 {
            if before[i - 1].0 == before[i + 1].0 && !(before[i].0 == before[i - 1].0)
                && before[i].1.lt(threshold) {
                let speaker: SpeakerId = before[i - 1].0.clone();
                let confidence: Float32 = before[i - 1].1.add(before[i + 1].1).div(
                    Float32::from_bits(TWO_BITS),
                );
                let ghost w = windows@;
                windows[i].speaker = speaker;
                windows[i].confidence = confidence;
                assert(windows@[i as int]@ == attributed(w[i as int]@, speaker@, confidence));
                assert(outlier(views, i as int, threshold));
                assert(windows@[i as int]@ == goal[i as int]);
            } else {
                assert(!outlier(views, i as int, threshold)) by {
                    assert(before[i as int].0@ == views[i as int].speaker);
                    assert(before[i - 1].0@ == views[i - 1].speaker);
                    assert(before[i + 1].0@ == views[i + 1].speaker);
                }
            }
        }
        i = i + 1;
    }
    assert(window_views(windows@) =~= goal);
}

/// Smooths the attributions of windows.
pub fn smooth(windows: &mut Vec<SpeakerWindow>, threshold: Float32)
    ensures
        window_views(final(windows)@) == smoothed(window_views(old(windows)@), threshold),
{
    smooth_pass(windows, threshold);
    smooth_pass(windows, threshold);
}

/// A list of speakers with their scores, no speaker twice.
pub open spec fn score_views(v: Seq<(SpeakerId, Float32)>) -> Scores {
    v.map_values(|e: (SpeakerId, Float32)| (e.0@, e.1))
}

fn credit(scores: &mut Vec<(SpeakerId, Float32)>, speaker: &SpeakerId, x: Float32)
    ensures
        score_views(final(scores)@) == credited(score_views(old(scores)@), speaker@, x),
{
    let ghost views = score_views(old(scores)@);
    let mut i: usize = 0;
    assert(views.take(0) + credited(views.skip(0), speaker@, x) =~= credited(views, speaker@, x))
        by {
        assert(views.skip(0) =~= views);
    }
    while i < scores.len()
        invariant
            i <= scores.len(),
            *scores == *old(scores),
            views == score_views(scores@),
            views.take(i as int) + credited(views.skip(i as int), speaker@, x) == credited(
                views,
                speaker@,
                x,
            ),
        decreases scores.len() - i,
    {
        let ghost rest = views.skip(i as int);
        if scores[i].0 == *speaker {
            let s: SpeakerId = scores[i].0.clone();
            let y: Float32 = scores[i].1.add(x);
            scores.set(i, (s, y));
            proof {
                assert(rest[0] == views[i as int]);
                assert(score_views(scores@) =~= views.take(i as int) + rest.update(
                    0,
                    (speaker@, y),
                ));
            }
            return;
        }
        proof {
            assert(rest[0] == views[i as int]);
            assert(rest.skip(1) =~= views.skip(i + 1));
            let c = credited(views.skip(i + 1), speaker@, x);
            assert(views.take(i as int) + (seq![rest[0]] + c) =~= views.take(i + 1) + c);
        }
        i = i + 1;
    }
    let y: Float32 = Float32::from_bits(0).add(x);
    scores.push((speaker.clone(), y));
    proof {
        assert(views.skip(i as int).len() == 0);
        assert(score_views(scores@) =~= views.take(i as int) + seq![(speaker@, y)]);
    }
}

/// The scores of a stretch.
pub fn speaker_scores(start_ms: u64, end_ms: u64, windows: &Vec<SpeakerWindow>) -> (r: Vec<
    (SpeakerId, Float32),
>)
    ensures
        score_views(r@) == range_scores(window_views(windows@), start_ms, end_ms),
{
    let mut scores: Vec<(SpeakerId, Float32)> = Vec::new();
    assert(score_views(scores@) =~= Seq::empty());
    if start_ms >= end_ms {
        return scores;
    }
    let ghost views = window_views(windows@);
    let mut i: usize = 0;
    while i < windows.len()
        invariant
            i <= windows.len(),
            views == window_views(windows@),
            score_views(scores@) == scores_of(views, i as int, start_ms, end_ms),
        decreases windows.len() - i,
    {
        let w: &SpeakerWindow = &windows[i];
        let shared: u64 = windows_overlap(start_ms, end_ms, w.start_ms, w.end_ms);
        if shared != 0 {
            let weight: Float32 = w.confidence.max(Float32::from_bits(LEAST_WEIGHT_BITS));
            credit(&mut scores, &w.speaker, Float32::from_u64(shared).mul(weight));
        }
        i = i + 1;
    }
    scores
}

fn sum_scores(scores: &Vec<(SpeakerId, Float32)>) -> (r: Float32)
    ensures
        r == total_score(score_views(scores@), scores.len() as int),
{
    let mut total: Float32 = Float32::from_bits(0);
    let mut i: usize = 0;
    while i < scores.len()
        invariant
            i <= scores.len(),
            total == total_score(score_views(scores@), i as int),
        decreases scores.len() - i,
    {
        total = total.add(scores[i].1);
        i = i + 1;
    }
    total
}

/// The dominant speaker of a stretch, and its share.
pub fn find_dominant(scores: &Vec<(SpeakerId, Float32)>) -> (r: Option<(SpeakerId, Float32)>)
    ensures
        match (r, dominant(score_views(scores@))) {
            (Some(a), Some(b)) => a.0@ == b.0 && a.1 == b.1,
            (None, None) => true,
            _ => false,
        },
{
    if scores.is_empty() {
        return None;
    }
    let ghost views = score_views(scores@);
    let total: Float32 = sum_scores(scores);
    let mut best: usize = 0;
    let mut i: usize = 1;
    while i < scores.len()
        invariant
            1 <= i <= scores.len(),
            views == score_views(scores@),
            best < i,
            best == last_largest(views, i as int),
        decreases scores.len() - i,
    {
        if scores[i].1.total_rank() >= scores[best].1.total_rank() {
            best = i;
        }
        i = i + 1;
    }
    let zero_score: Float32 = Float32::from_bits(0);
    let share: Float32 = if zero_score.lt(total) {
        scores[best].1.div(total).clamp(zero_score, Float32::from_bits(ONE_BITS))
    } else {
        zero_score
    };
    Some((scores[best].0.clone(), share))
}

fn runner_up_share(scores: &Vec<(SpeakerId, Float32)>) -> (r: Float32)
    ensures
        r == competing_share(score_views(scores@)),
{
    let ghost views = score_views(scores@);
    let total: Float32 = sum_scores(scores);
    let mut share: Float32 = Float32::from_bits(0);
    if !share.lt(total) {
        return share;
    }
    let mut best: usize = 0;
    let mut i: usize = 1;
    while i < scores.len()
        invariant
            1 <= i,
            i <= scores.len() || scores.len() == 0 && i == 1,
            views == score_views(scores@),
            best < i,
            best == first_largest(views, i as int),
        decreases scores.len() - i,
    {
        if scores[i].1.total_rank() > scores[best].1.total_rank() {
            best = i;
        }
        i = i + 1;
    }
    let mut k: usize = 0;
    while k < scores.len()
        invariant
            k <= scores.len(),
            views == score_views(scores@),
            share == largest_share(views, k as int, best as int, total),
        decreases scores.len() - k,
    {
        if k != best {
            share = share.max(scores[k].1.div(total));
        }
        k = k + 1;
    }
    share
}

/// Who a stretch is attributed to, with the confidence of the attribution.
pub fn speaker_for_range(start_ms: u64, end_ms: u64, windows: &Vec<SpeakerWindow>) -> (r: (
    SpeakerId,
    Float32,
))
    ensures
        (r.0@, r.1) == range_speaker(window_views(windows@), start_ms, end_ms),
{
    let scores: Vec<(SpeakerId, Float32)> = speaker_scores(start_ms, end_ms, windows);
    match find_dominant(&scores) {
        None => (SpeakerId::Remote, Float32::from_bits(0)),
        Some((speaker, share)) => {
            let competing: Float32 = runner_up_share(&scores);
            let unnamed: bool = match speaker {
                SpeakerId::Remote => true,
                _ => false,
            };
            if !unnamed && competing.ge(Float32::from_bits(COMPETITOR_SHARE_BITS)) && share.lt(
                Float32::from_bits(DOMINANT_SHARE_BITS),
            ) {
                (SpeakerId::Remote, share)
            } else {
                (speaker, share)
            }
        },
    }
}

} // verus!
