//! What holds of a chunk of the loopback from its windows to its segments.
use vstd::prelude::*;
use crate::float32::{clamped, of_integer, quotient, sum, Float32};
use crate::float32_laws::{
    law_small_products_are_exact, law_small_sums_are_exact, lemma_one_is_one, lemma_zero_is_zero,
};
use crate::meeting::data::{span, TranscriptSegment};
use crate::meeting::diarization::clusters::{
    cluster_threshold, promoted, promoted_from, refreshed, Knowledge, Matching, NEW_SPEAKER_MIN_MS,
    NEW_SPEAKER_MIN_WINDOWS,
};
use crate::meeting::diarization::embedding::{loopback_segments, numbered, speakers_after};
use crate::meeting::diarization::match_laws::{
    law_speakers_are_moved_by_their_own_windows, pulled, sure_windows,
};
use crate::meeting::diarization::run_laws::{increasing, lemma_cuts};
use crate::meeting::diarization::runs::{
    cut_points, extended, interval_runs, merge_pass, settled, stretch, transient, RunView,
};
use crate::meeting::diarization::score_laws::{
    law_sole_speaker_takes_the_stretch, windows_of, within_time,
};
use crate::meeting::diarization::split::{
    absorbed, split_segment, split_segments, stands, whole,
};
use crate::meeting::diarization::split_laws::{
    law_absorbing_goes_from_left_to_right, law_absorbing_keeps_segments,
};
use crate::meeting::diarization::vectors::{CentroidView, ONE_BITS};
use crate::meeting::diarization::windows::{
    overlap, range_speaker, smoothed, smoothed_once, WindowView,
};
use crate::meeting::diarization::{DiarizedView, Speaker};

verus! {

/// All windows are of one speaker.
pub open spec fn all_of(w: Seq<WindowView>, speaker: Speaker) -> bool {
    forall|i: int| #![trigger w[i]] 0 <= i < w.len() ==> w[i].speaker == speaker
}

/// Some window holds every point of a stretch.
pub open spec fn covers(w: Seq<WindowView>, start: u64, end: u64) -> bool {
    forall|t: u64| #[trigger] within_time(t, start, end) ==> window_holds(w, t)
}

pub open spec fn window_holds(w: Seq<WindowView>, t: u64) -> bool {
    exists|i: int|
        #![trigger w[i]]
        0 <= i < w.len() && within_time(t, w[i].start_ms, w[i].end_ms)
}

proof fn lemma_nothing_unknown(s: Knowledge, i: int, m: Matching)
    requires
        0 <= i,
        forall|j: int|
            #![trigger s.windows[j]]
            0 <= j < s.windows.len() ==> s.windows[j].speaker != Speaker::Remote,
    ensures
        promoted_from(s, i, m) == s,
    decreases s.windows.len() - i,
{
    if i < s.windows.len() {
        lemma_nothing_unknown(s, i + 1, m);
    }
}

/// Where somebody was recognised in every window, a chunk adds no speaker and leaves the
/// windows as smoothing left them, and every speaker is moved by its own windows.
pub proof fn law_recognised_windows_move_their_speakers(
    centroids: Seq<CentroidView>,
    windows: Seq<WindowView>,
    m: Matching,
    j: int,
)
    requires
        numbered(centroids, m.max_speakers),
        0 <= j < centroids.len(),
        forall|i: int|
            #![trigger windows[i]]
            0 <= i < windows.len() ==> windows[i].speaker != Speaker::Remote,
    ensures
        ({
            let w = smoothed(windows, m.confident);
            let after = speakers_after(centroids, windows, m);
            &&& after.windows == w
            &&& after.centroids.len() == centroids.len()
            &&& after.centroids[j].vector == pulled(
                centroids[j].vector,
                sure_windows(w, j as u32, m.confident),
            )
        }),
{
    let once = smoothed_once(windows, m.confident);
    let w = smoothed(windows, m.confident);
    lemma_recognised(windows, m.confident);
    lemma_recognised(once, m.confident);
    let c = refreshed(centroids, w, w.len() as int, m.confident);
    lemma_nothing_unknown(Knowledge { centroids: c, windows: w }, 0, m);
    law_speakers_are_moved_by_their_own_windows(
        centroids,
        w,
        w.len() as int,
        m.confident,
        m.max_speakers,
        j,
    );
    assert(w.take(w.len() as int) =~= w);
}

proof fn lemma_recognised(w: Seq<WindowView>, threshold: Float32)
    requires
        forall|i: int|
            #![trigger w[i]]
            0 <= i < w.len() ==> w[i].speaker != Speaker::Remote,
    ensures
        forall|i: int|
            #![trigger smoothed_once(w, threshold)[i]]
            0 <= i < w.len() ==> smoothed_once(w, threshold)[i].speaker != Speaker::Remote,
        smoothed_once(w, threshold).len() == w.len(),
{
    let r = smoothed_once(w, threshold);
    assert forall|i: int| #![trigger r[i]] 0 <= i < w.len() implies r[i].speaker
        != Speaker::Remote by {
        assert(w[i].speaker != Speaker::Remote);
        if 0 < i < w.len() - 1 {
            assert(w[i - 1].speaker != Speaker::Remote);
        }
    }
}

proof fn lemma_smooth_already(w: Seq<WindowView>, speaker: Speaker, threshold: Float32)
    requires
        all_of(w, speaker),
    ensures
        smoothed(w, threshold) == w,
{
    let once = smoothed_once(w, threshold);
    assert forall|i: int| #![trigger once[i]] 0 <= i < w.len() implies once[i] == w[i] by {
        assert(w[i].speaker == speaker);
        if 0 < i < w.len() - 1 {
            assert(w[i - 1].speaker == speaker);
        }
    }
    assert(once =~= w);
}

proof fn lemma_sole_in(w: Seq<WindowView>, speaker: Speaker, start: u64, end: u64)
    requires
        all_of(w, speaker),
        start < end,
        window_holds(w, start),
    ensures
        range_speaker(w, start, end).0 == speaker,
{
    broadcast use vstd::seq_lib::group_filter_ensures;

    let i = choose|i: int|
        #![trigger w[i]]
        0 <= i < w.len() && within_time(start, w[i].start_ms, w[i].end_ms);
    assert(overlap(start, end, w[i].start_ms, w[i].end_ms) > 0);
    law_sole_speaker_takes_the_stretch(w, start, end, speaker);
    assert(windows_of(w, speaker, start, end).contains(w[i]));
}

proof fn lemma_one_run(w: Seq<WindowView>, speaker: Speaker, cuts: Seq<u64>, k: int)
    requires
        all_of(w, speaker),
        increasing(cuts),
        1 <= k < cuts.len(),
        forall|j: int| #![trigger cuts[j]] 0 <= j < k ==> window_holds(w, cuts[j]),
    ensures
        interval_runs(w, cuts, k).len() == 1,
        interval_runs(w, cuts, k)[0].speaker == speaker,
    decreases k,
{
    assert(cuts[k - 1] < cuts[k]);
    assert(window_holds(w, cuts[k - 1]));
    lemma_sole_in(w, speaker, cuts[k - 1], cuts[k]);
    if k > 1 {
        lemma_one_run(w, speaker, cuts, k - 1);
    } else {
        assert(interval_runs(w, cuts, 0).len() == 0);
    }
}

proof fn lemma_lone_segment(
    segment: TranscriptSegment,
    w: Seq<WindowView>,
    speaker: Speaker,
    threshold: Float32,
)
    requires
        all_of(w, speaker),
        segment.start_ms < segment.end_ms,
        covers(w, segment.start_ms, segment.end_ms),
    ensures
        split_segment(segment, w, threshold) == seq![whole(segment, w)],
        whole(segment, w).speaker == speaker,
{
    let (start, end) = (segment.start_ms, segment.end_ms);
    let cuts = cut_points(w, w.len() as int, start, end);
    lemma_cuts(w, w.len() as int, start, end);
    let k = cuts.len() - 1;
    assert forall|j: int| #![trigger cuts[j]] 0 <= j < k implies window_holds(w, cuts[j]) by {
        assert(cuts[j] < cuts[k]);
        assert(j == 0 || cuts[0] < cuts[j]);
        assert(within_time(cuts[j], start, end));
    }
    lemma_one_run(w, speaker, cuts, k);
    let runs = interval_runs(w, cuts, k);
    reveal_with_fuel(merge_pass, 3);
    assert(settled(runs, stretch(start, end), threshold) == runs);
    assert(within_time(start, start, end));
    lemma_sole_in(w, speaker, start, end);
}

proof fn lemma_lone_segments(
    segments: Seq<TranscriptSegment>,
    k: int,
    w: Seq<WindowView>,
    speaker: Speaker,
    threshold: Float32,
)
    requires
        0 <= k <= segments.len(),
        all_of(w, speaker),
        forall|i: int|
            #![trigger segments[i]]
            0 <= i < segments.len() ==> segments[i].start_ms < segments[i].end_ms && covers(
                w,
                segments[i].start_ms,
                segments[i].end_ms,
            ),
    ensures
        ({
            let d = split_segments(segments, k, w, threshold);
            &&& d.len() == k
            &&& forall|i: int|
                #![trigger d[i]]
                0 <= i < k ==> d[i] == whole(segments[i], w) && d[i].speaker == speaker
        }),
    decreases k,
{
    if k > 0 {
        lemma_lone_segments(segments, k - 1, w, speaker, threshold);
        let prev = split_segments(segments, k - 1, w, threshold);
        let d = split_segments(segments, k, w, threshold);
        assert(segments[k - 1].start_ms < segments[k - 1].end_ms);
        lemma_lone_segment(segments[k - 1], w, speaker, threshold);
        assert(d =~= prev.push(whole(segments[k - 1], w)));
    }
}

proof fn lemma_absorbed_lone(
    s: Seq<DiarizedView>,
    speaker: Speaker,
    threshold: Float32,
    i: int,
)
    requires
        0 <= i < s.len(),
        forall|j: int| #![trigger s[j]] 0 <= j < s.len() ==> s[j].speaker == speaker,
    ensures
        absorbed(s, threshold).len() == s.len(),
        absorbed(s, threshold)[i].speaker == speaker,
        absorbed(s, threshold)[i].text == s[i].text,
        absorbed(s, threshold)[i].start_ms == s[i].start_ms,
        absorbed(s, threshold)[i].end_ms == s[i].end_ms,
    decreases i,
{
    law_absorbing_keeps_segments(s, threshold);
    law_absorbing_goes_from_left_to_right(s, threshold, i);
    if i > 0 {
        lemma_absorbed_lone(s, speaker, threshold, i - 1);
    }
    let a = absorbed(s, threshold)[i];
    assert(s[i].speaker == speaker);
}

/// Where one speaker was recognised in every window of a chunk, and windows cover every
/// segment, the segments stay as they are, one for one, and all are that speaker's.
pub proof fn law_lone_speaker_gets_every_segment(
    centroids: Seq<CentroidView>,
    windows: Seq<WindowView>,
    segments: Seq<TranscriptSegment>,
    m: Matching,
    speaker: Speaker,
    i: int,
)
    requires
        all_of(windows, speaker),
        speaker != Speaker::Remote,
        forall|k: int|
            #![trigger segments[k]]
            0 <= k < segments.len() ==> segments[k].start_ms < segments[k].end_ms && covers(
                windows,
                segments[k].start_ms,
                segments[k].end_ms,
            ),
        0 <= i < segments.len(),
    ensures
        ({
            let d = loopback_segments(centroids, windows, segments, m);
            &&& d.len() == segments.len()
            &&& d[i].speaker == speaker
            &&& d[i].start_ms == segments[i].start_ms
            &&& d[i].end_ms == segments[i].end_ms
            &&& d[i].text == segments[i].text@
        }),
{
    lemma_smooth_already(windows, speaker, m.confident);
    let c = refreshed(centroids, windows, windows.len() as int, m.confident);
    assert forall|j: int| #![trigger windows[j]] 0 <= j < windows.len() implies windows[j].speaker
        != Speaker::Remote by {
        assert(windows[j].speaker == speaker);
    }
    lemma_nothing_unknown(Knowledge { centroids: c, windows }, 0, m);
    lemma_lone_segments(segments, segments.len() as int, windows, speaker, m.confident);
    let split = split_segments(segments, segments.len() as int, windows, m.confident);
    lemma_absorbed_lone(split, speaker, m.confident, i);
    assert(split[i] == whole(segments[i], windows));
}

/// Where an interval goes on a run, the confidences count by the time that they stand for:
/// exactly so for integers, none and full confidence among them.
pub proof fn law_confidences_count_by_time(
    runs: Seq<RunView>,
    start: u64,
    end: u64,
    speaker: Speaker,
    confidence: Float32,
    x: nat,
    y: nat,
)
    requires
        runs.len() > 0,
        runs.last().speaker == speaker,
        runs.last().start_ms < runs.last().end_ms,
        start < end,
        span(runs.last().start_ms, runs.last().end_ms) + span(start, end) <= 0x100_0000,
        x * span(runs.last().start_ms, runs.last().end_ms) + y * span(start, end) <= 0x100_0000,
        runs.last().confidence == of_integer(x),
        confidence == of_integer(y),
    ensures
        ({
            let last = runs.last();
            let a = span(last.start_ms, last.end_ms);
            let b = span(start, end);
            let after = extended(runs, start, end, speaker, confidence);
            &&& after.len() == runs.len()
            &&& after.drop_last() == runs.drop_last()
            &&& after.last().start_ms == last.start_ms
            &&& after.last().end_ms == end
            &&& after.last().speaker == speaker
            &&& after.last().confidence == quotient(of_integer(x * a + y * b), of_integer(a + b))
        }),
        of_integer(0) == (Float32 { bits: 0 }),
        of_integer(1) == (Float32 { bits: ONE_BITS }),
{
    let last = runs.last();
    let a = span(last.start_ms, last.end_ms);
    let b = span(start, end);
    lemma_zero_is_zero();
    lemma_one_is_one();
    assert(x <= x * a && y <= y * b && x * a >= 0 && y * b >= 0) by (nonlinear_arith)
        requires
            a >= 1,
            b >= 1,
    ;
    law_small_products_are_exact(x, a);
    law_small_products_are_exact(y, b);
    law_small_sums_are_exact(x * a, y * b);
    law_small_sums_are_exact(a, b);
    assert(extended(runs, start, end, speaker, confidence).drop_last() =~= runs.drop_last());
}

/// A run stands on its own after a split from 1.2 seconds on, or from a share of 0.18 on; it is
/// merged away below 0.8 seconds, or where its share is below 0.08 and it is not sure.
pub proof fn law_short_runs_are_told_by_time_and_share(
    run: RunView,
    length: u64,
    threshold: Float32,
)
    requires
        length > 0,
    ensures
        ({
            let d = span(run.start_ms, run.end_ms);
            let share = quotient(of_integer(d), of_integer(length as nat));
            &&& stands(run, length as nat) <==> d >= 1200 || (Float32 {
                bits: 0x3e38_51ec,
            }).at_most(share)
            &&& transient(run, length, threshold) <==> d < 800 || (share.below(
                Float32 { bits: 0x3da3_d70a },
            ) && run.confidence.below(threshold))
        }),
{
}

/// A cluster is a new speaker from two windows and a second and a half on; windows of a
/// cluster are 0.15 more alike than a confident match, at least 0.45 and at most 0.75.
pub proof fn law_clusters_are_told_by_number_time_and_likeness(confident: Float32)
    ensures
        NEW_SPEAKER_MIN_WINDOWS == 2,
        NEW_SPEAKER_MIN_MS == 1500,
        cluster_threshold(confident) == clamped(
            sum(confident, Float32 { bits: 0x3e19_999a }),
            Float32 { bits: 0x3ee6_6666 },
            Float32 { bits: 0x3f40_0000 },
        ),
{
}

/// A chunk goes its way in order: the windows are smoothed twice over, the speakers are moved
/// by them, unknown windows are promoted, and the windows are smoothed again; by those the
/// segments are split, and what says too little is absorbed.
pub proof fn law_chunks_go_their_way_in_order(
    centroids: Seq<CentroidView>,
    windows: Seq<WindowView>,
    segments: Seq<TranscriptSegment>,
    m: Matching,
)
    ensures
        ({
            let first = smoothed_once(smoothed_once(windows, m.confident), m.confident);
            let moved = refreshed(centroids, first, first.len() as int, m.confident);
            let after = promoted(Knowledge { centroids: moved, windows: first }, m);
            let last = smoothed_once(smoothed_once(after.windows, m.confident), m.confident);
            &&& speakers_after(centroids, windows, m) == after
            &&& loopback_segments(centroids, windows, segments, m) == absorbed(
                split_segments(segments, segments.len() as int, last, m.confident),
                m.confident,
            )
        }),
{
}

} // verus!
