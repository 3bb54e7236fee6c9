//! Speaker runs: a stretch of time cut at the window bounds, with short runs merged into
//! their neighbours.
use vstd::prelude::*;
use crate::float32::{of_integer, product, quotient, sum, Float32};
use crate::meeting::data::span;
use crate::meeting::diarization::windows::{
    mean, overlap, range_speaker, speaker_for_range, window_views, windows_overlap, SpeakerWindow,
    WindowView, TWO_BITS,
};
use crate::meeting::diarization::{Speaker, SpeakerId};

verus! {

/// A run shorter than this is merged away.
pub const TRANSIENT_RUN_MS: u64 = 800;

/// 0.08, the share below which a run of low confidence is merged away.
pub const TRANSIENT_SHARE_BITS: u32 = 0x3da3_d70a;

/// A stretch of one speaker.
#[derive(Debug)]
pub struct SpeakerRun {
    pub start_ms: u64,
    pub end_ms: u64,
    pub speaker: SpeakerId,
    pub confidence: Float32,
}

/// What a run says.
pub struct RunView {
    pub start_ms: u64,
    pub end_ms: u64,
    pub speaker: Speaker,
    pub confidence: Float32,
}

impl View for SpeakerRun {
    type V = RunView;

    open spec fn view(&self) -> RunView {
        RunView {
            start_ms: self.start_ms,
            end_ms: self.end_ms,
            speaker: self.speaker@,
            confidence: self.confidence,
        }
    }
}

impl SpeakerRun {
    pub fn duration_ms(&self) -> (r: u64)
        ensures
            r == span(self.start_ms, self.end_ms),
    {
        self.end_ms.saturating_sub(self.start_ms)
    }
}

/// What the runs of a list say.
pub open spec fn run_views(v: Seq<SpeakerRun>) -> Seq<RunView> {
    v.map_values(|r: SpeakerRun| r@)
}

/// `x` in its place among numbers that increase; they stay as they are where it is there.
pub open spec fn placed(s: Seq<u64>, x: u64) -> Seq<u64>
    decreases s.len(),
{
    if s.len() == 0 {
        seq![x]
    } else if x < s[0] {
        seq![x] + s
    } else if x == s[0] {
        s
    } else {
        seq![s[0]] + placed(s.skip(1), x)
    }
}

/// The points at which the stretch from `start` to `end` is cut: its own bounds, and those
/// of each of the first `k` windows that shares time with it, as far as they lie in it.
pub open spec fn cut_points(w: Seq<WindowView>, k: int, start: u64, end: u64) -> Seq<u64>
    decreases k,
{
    if k <= 0 {
        seq![start, end]
    } else {
        let prev = cut_points(w, k - 1, start, end);
        let v = w[k - 1];
        if overlap(start, end, v.start_ms, v.end_ms) == 0 {
            prev
        } else {
            placed(
                placed(
                    prev,
                    if v.start_ms > start {
                        v.start_ms
                    } else {
                        start
                    },
                ),
                if v.end_ms < end {
                    v.end_ms
                } else {
                    end
                },
            )
        }
    }
}

pub open spec fn at_least_one(x: nat) -> nat {
    if x == 0 {
        1
    } else {
        x
    }
}

/// The runs with one more interval: part of the last run where the speaker is the same,
/// with the confidences weighted by duration.
pub open spec fn extended(
    runs: Seq<RunView>,
    start: u64,
    end: u64,
    speaker: Speaker,
    confidence: Float32,
) -> Seq<RunView> {
    if runs.len() > 0 && runs.last().speaker == speaker {
        let last = runs.last();
        let a = of_integer(at_least_one(span(last.start_ms, last.end_ms)));
        let b = of_integer(at_least_one(span(start, end)));
        runs.drop_last().push(
            RunView {
                end_ms: end,
                confidence: quotient(
                    sum(product(last.confidence, a), product(confidence, b)),
                    sum(a, b),
                ),
                ..last
            },
        )
    } else {
        runs.push(RunView { start_ms: start, end_ms: end, speaker, confidence })
    }
}

/// The runs of the first `k` intervals between cut points.
pub open spec fn interval_runs(w: Seq<WindowView>, cuts: Seq<u64>, k: int) -> Seq<RunView>
    decreases k,
{
    if k <= 0 {
        Seq::empty()
    } else {
        let (speaker, confidence) = range_speaker(w, cuts[k - 1], cuts[k]);
        extended(interval_runs(w, cuts, k - 1), cuts[k - 1], cuts[k], speaker, confidence)
    }
}

/// Whether a run is too short to stand on its own in a stretch of `total` milliseconds.
pub open spec fn transient(run: RunView, total: u64, threshold: Float32) -> bool {
    let d = span(run.start_ms, run.end_ms);
    d < TRANSIENT_RUN_MS || (quotient(of_integer(d), of_integer(total as nat)).below(
        Float32 { bits: TRANSIENT_SHARE_BITS },
    ) && run.confidence.below(threshold))
}

/// Whether the runs on both sides of run `i` are of one speaker.
pub open spec fn sandwiched(runs: Seq<RunView>, i: int) -> bool {
    0 < i < runs.len() - 1 && runs[i - 1].speaker == runs[i + 1].speaker
}

/// Whether run `i` goes to the run before it: to the longer neighbour, or to the only one.
pub open spec fn goes_left(runs: Seq<RunView>, i: int) -> bool {
    i > 0 && (i + 1 >= runs.len() || span(runs[i - 1].start_ms, runs[i - 1].end_ms) >= span(
        runs[i + 1].start_ms,
        runs[i + 1].end_ms,
    ))
}

/// The runs without run `i`, its time given to its neighbours.
#[verifier::opaque]
pub open spec fn without_run(runs: Seq<RunView>, i: int) -> Seq<RunView> {
    if sandwiched(runs, i) {
        runs.update(
            i - 1,
            RunView {
                end_ms: runs[i + 1].end_ms,
                confidence: mean(runs[i - 1].confidence, runs[i + 1].confidence),
                ..runs[i - 1]
            },
        ).remove(i + 1).remove(i)
    } else if goes_left(runs, i) {
        runs.update(
            i - 1,
            RunView {
                end_ms: runs[i].end_ms,
                confidence: mean(runs[i - 1].confidence, runs[i].confidence),
                ..runs[i - 1]
            },
        ).remove(i)
    } else {
        runs.update(
            i + 1,
            RunView {
                start_ms: runs[i].start_ms,
                confidence: mean(runs[i + 1].confidence, runs[i].confidence),
                ..runs[i + 1]
            },
        ).remove(i)
    }
}

/// Where a pass goes on after run `i` is gone: at the run that took its time.
pub open spec fn resume_at(runs: Seq<RunView>, i: int) -> int {
    if i > 0 && (sandwiched(runs, i) || goes_left(runs, i)) {
        i - 1
    } else {
        i
    }
}

/// What a pass from run `i` on leaves.
pub open spec fn merge_pass(runs: Seq<RunView>, i: int, total: u64, threshold: Float32) -> Seq<
    RunView,
>
    decreases 2 * runs.len() - i,
{
    if i < 0 || i >= runs.len() {
        runs
    } else if runs.len() == 1 || !transient(runs[i], total, threshold) {
        merge_pass(runs, i + 1, total, threshold)
    } else {
        proof {
            reveal(without_run);
        }
        merge_pass(without_run(runs, i), resume_at(runs, i), total, threshold)
    }
}

/// Taking a run out leaves fewer runs.
pub proof fn lemma_fewer_runs(runs: Seq<RunView>, i: int)
    requires
        0 <= i < runs.len(),
        runs.len() > 1,
    ensures
        without_run(runs, i).len() < runs.len(),
        0 <= resume_at(runs, i) <= without_run(runs, i).len(),
        2 * without_run(runs, i).len() - resume_at(runs, i) < 2 * runs.len() - i,
{
    reveal(without_run);
}

/// What passes leave when they are repeated until one merges nothing.
pub open spec fn settled(runs: Seq<RunView>, total: u64, threshold: Float32) -> Seq<RunView>
    decreases runs.len(),
{
    let next = merge_pass(runs, 0, total, threshold);
    if next.len() < runs.len() {
        settled(next, total, threshold)
    } else {
        runs
    }
}

/// The length of a stretch, at least one.
pub open spec fn stretch(start: u64, end: u64) -> u64 {
    at_least_one(span(start, end)) as u64
}

/// The speaker runs of a stretch.
pub open spec fn range_runs(w: Seq<WindowView>, start: u64, end: u64, threshold: Float32) -> Seq<
    RunView,
> {
    if start >= end {
        Seq::empty()
    } else {
        let cuts = cut_points(w, w.len() as int, start, end);
        settled(interval_runs(w, cuts, cuts.len() - 1), stretch(start, end), threshold)
    }
}

/// Puts a number in its place.
fn place(points: &mut Vec<u64>, x: u64)
    ensures
        final(points)@ == placed(old(points)@, x),
{
    let ghost s = old(points)@;
    let mut i: usize = 0;
    assert(s.skip(0) =~= s);
    assert(s.take(0) + placed(s, x) =~= placed(s, x));
    while i < points.len() && points[i] < x
        invariant
            i <= points.len(),
            points@ == s,
            s.take(i as int) + placed(s.skip(i as int), x) == placed(s, x),
        decreases points.len() - i,
    {
        proof {
            let rest = s.skip(i as int);
            assert(rest.skip(1) =~= s.skip(i + 1));
            let c = placed(s.skip(i + 1), x);
            assert(s.take(i as int) + (seq![rest[0]] + c) =~= s.take(i + 1) + c);
        }
        i = i + 1;
    }
    if i < points.len() && points[i] == x {
        assert(s.take(i as int) + s.skip(i as int) =~= s);
    } else {
        points.insert(i, x);
        proof {
            let rest = s.skip(i as int);
            if i < s.len() {
                assert(points@ =~= s.take(i as int) + (seq![x] + rest));
            } else {
                assert(points@ =~= s.take(i as int) + seq![x]);
            }
        }
    }
}

/// The points at which a stretch is cut.
fn find_cuts(start: u64, end: u64, windows: &Vec<SpeakerWindow>) -> (r: Vec<u64>)
    ensures
        r@ == cut_points(window_views(windows@), windows.len() as int, start, end),
{
    let mut points: Vec<u64> = Vec::new();
    points.push(start);
    points.push(end);
    assert(points@ =~= seq![start, end]);
    let ghost views = window_views(windows@);
    let mut i: usize = 0;
    while i < windows.len()
        invariant
            i <= windows.len(),
            views == window_views(windows@),
            points@ == cut_points(views, i as int, start, end),
        decreases windows.len() - i,
    {
        let w: &SpeakerWindow = &windows[i];
        if windows_overlap(start, end, w.start_ms, w.end_ms) != 0 {
            let a: u64 = if w.start_ms > start { w.start_ms } else { start };
            let b: u64 = if w.end_ms < end { w.end_ms } else { end };
            place(&mut points, a);
            place(&mut points, b);
        }
        i = i + 1;
    }
    points
}

fn max_one(x: u64) -> (r: u64)
    ensures
        r == at_least_one(x as nat),
{
    if x == 0 {
        1
    } else {
        x
    }
}

fn extend_runs(
    runs: &mut Vec<SpeakerRun>,
    start: u64,
    end: u64,
    speaker: SpeakerId,
    confidence: Float32,
)
    ensures
        run_views(final(runs)@) == extended(
            run_views(old(runs)@),
            start,
            end,
            speaker@,
            confidence,
        ),
{
    let n: usize = runs.len();
    let ghost views = run_views(old(runs)@);
    if n > 0 && runs[n - 1].speaker == speaker {
        let a: Float32 = Float32::from_u64(max_one(runs[n - 1].duration_ms()));
        let b: Float32 = Float32::from_u64(max_one(end.saturating_sub(start)));
        let c: Float32 = runs[n - 1].confidence.mul(a).add(confidence.mul(b)).div(a.add(b));
        runs[n - 1].end_ms = end;
        runs[n - 1].confidence = c;
        assert(run_views(runs@) =~= extended(views, start, end, speaker@, confidence));
    } else {
        runs.push(SpeakerRun { start_ms: start, end_ms: end, speaker, confidence });
        assert(run_views(runs@) =~= extended(views, start, end, speaker@, confidence));
    }
}

fn is_transient(run: &SpeakerRun, total: u64, threshold: Float32) -> (r: bool)
    ensures
        r == transient(run@, total, threshold),
{
    let d: u64 = run.duration_ms();
    d < TRANSIENT_RUN_MS || (Float32::from_u64(d).div(Float32::from_u64(total)).lt(
        Float32::from_bits(TRANSIENT_SHARE_BITS),
    ) && run.confidence.lt(threshold))
}

fn average(a: Float32, b: Float32) -> (r: Float32)
    ensures
        r == mean(a, b),
{
    a.add(b).div(Float32::from_bits(TWO_BITS))
}

/// Takes run `i` out and says where the pass goes on.
fn remove_run(runs: &mut Vec<SpeakerRun>, i: usize) -> (r: usize)
    requires
        i < old(runs).len(),
        old(runs).len() > 1,
    ensures
        run_views(final(runs)@) == without_run(run_views(old(runs)@), i as int),
        r == resume_at(run_views(old(runs)@), i as int),
{
    let n: usize = runs.len();
    let ghost views = run_views(old(runs)@);
    proof {
        reveal(without_run);
    }
    if i > 0 && i + 1 < n && runs[i - 1].speaker == runs[i + 1].speaker {
        let c: Float32 = average(runs[i - 1].confidence, runs[i + 1].confidence);
        let end: u64 = runs[i + 1].end_ms;
        runs[i - 1].end_ms = end;
        runs[i - 1].confidence = c;
        runs.remove(i + 1);
        runs.remove(i);
        assert(run_views(runs@) =~= without_run(views, i as int));
        return i - 1;
    }
    let left: bool = if i == 0 {
        false
    } else if i + 1 >= n {
        true
    } else {
        runs[i - 1].duration_ms() >= runs[i + 1].duration_ms()
    };
    assert(left == goes_left(views, i as int)) by {
        if i > 0 && i + 1 < n {
            assert(views[i - 1] == runs@[i - 1]@);
            assert(views[i + 1] == runs@[i + 1]@);
        }
    }
    assert(!sandwiched(views, i as int)) by {
        if i > 0 && i + 1 < n {
            assert(views[i - 1] == runs@[i - 1]@);
            assert(views[i + 1] == runs@[i + 1]@);
        }
    }
    if left {
        let c: Float32 = average(runs[i - 1].confidence, runs[i].confidence);
        let end: u64 = runs[i].end_ms;
        runs[i - 1].end_ms = end;
        runs[i - 1].confidence = c;
        runs.remove(i);
        assert(run_views(runs@) =~= without_run(views, i as int));
        i - 1
    } else {
        let c: Float32 = average(runs[i + 1].confidence, runs[i].confidence);
        let start: u64 = runs[i].start_ms;
        runs[i + 1].start_ms = start;
        runs[i + 1].confidence = c;
        runs.remove(i);
        assert(run_views(runs@) =~= without_run(views, i as int));
        i
    }
}

/// Merges runs that are too short into their neighbours, until none is left or only one run.
pub fn merge_transient_runs(
    runs: &mut Vec<SpeakerRun>,
    range_start_ms: u64,
    range_end_ms: u64,
    threshold: Float32,
)
    ensures
        run_views(final(runs)@) == settled(
            run_views(old(runs)@),
            stretch(range_start_ms, range_end_ms),
            threshold,
        ),
{
    let total: u64 = max_one(range_end_ms.saturating_sub(range_start_ms));
    let ghost goal = settled(run_views(runs@), total, threshold);
    let mut changed: bool = true;
    while changed
        invariant
            total == stretch(range_start_ms, range_end_ms),
            goal == settled(run_views(old(runs)@), total, threshold),
            settled(run_views(runs@), total, threshold) == goal,
            !changed ==> run_views(runs@) == goal,
        decreases runs.len(), (if changed { 1int } else { 0 }),
    {
        let ghost before = run_views(runs@);
        let count: usize = runs.len();
        let mut i: usize = 0;
        while i < runs.len()
            invariant
                i <= runs.len() <= count,
                count == before.len(),
                merge_pass(run_views(runs@), i as int, total, threshold) == merge_pass(
                    before,
                    0,
                    total,
                    threshold,
                ),
            decreases 2 * runs.len() - i,
        {
            assert(run_views(runs@)[i as int] == runs@[i as int]@);
            if runs.len() == 1 || !is_transient(&runs[i], total, threshold) {
                i = i + 1;
            } else {
                proof {
                    lemma_fewer_runs(run_views(runs@), i as int);
                }
                i = remove_run(runs, i);
            }
        }
        changed = runs.len() < count;
        proof {
            lemma_pass_idle(before, 0, total, threshold);
        }
    }
}

/// A pass that merges nothing leaves the runs as they are.
proof fn lemma_pass_idle(runs: Seq<RunView>, i: int, total: u64, threshold: Float32)
    requires
        0 <= i,
    ensures
        merge_pass(runs, i, total, threshold).len() <= runs.len(),
        merge_pass(runs, i, total, threshold).len() == runs.len() ==> merge_pass(
            runs,
            i,
            total,
            threshold,
        ) == runs,
    decreases 2 * runs.len() - i,
{
    if i < runs.len() {
        if runs.len() == 1 || !transient(runs[i], total, threshold) {
            lemma_pass_idle(runs, i + 1, total, threshold);
        } else {
            lemma_fewer_runs(runs, i);
            lemma_pass_idle(without_run(runs, i), resume_at(runs, i), total, threshold);
        }
    }
}

/// The speaker runs of a stretch.
pub fn speaker_runs(
    start_ms: u64,
    end_ms: u64,
    windows: &Vec<SpeakerWindow>,
    threshold: Float32,
) -> (r: Vec<SpeakerRun>)
    ensures
        run_views(r@) == range_runs(window_views(windows@), start_ms, end_ms, threshold),
{
    let mut runs: Vec<SpeakerRun> = Vec::new();
    assert(run_views(runs@) =~= Seq::empty());
    if start_ms >= end_ms {
        return runs;
    }
    let ghost views = window_views(windows@);
    let cuts: Vec<u64> = find_cuts(start_ms, end_ms, windows);
    let mut i: usize = 1;
    proof {
        lemma_cut_count(views, windows.len() as int, start_ms, end_ms);
    }
    while i < cuts.len()
        invariant
            1 <= i <= cuts.len(),
            views == window_views(windows@),
            run_views(runs@) == interval_runs(views, cuts@, i - 1),
        decreases cuts.len() - i,
    {
        let (speaker, confidence) = speaker_for_range(cuts[i - 1], cuts[i], windows);
        extend_runs(&mut runs, cuts[i - 1], cuts[i], speaker, confidence);
        i = i + 1;
    }
    merge_transient_runs(&mut runs, start_ms, end_ms, threshold);
    runs
}

proof fn lemma_cut_count(w: Seq<WindowView>, k: int, start: u64, end: u64)
    ensures
        cut_points(w, k, start, end).len() >= 2,
    decreases k,
{
    if k > 0 {
        lemma_cut_count(w, k - 1, start, end);
        let prev = cut_points(w, k - 1, start, end);
        let v = w[k - 1];
        let a = if v.start_ms > start {
            v.start_ms
        } else {
            start
        };
        let b = if v.end_ms < end {
            v.end_ms
        } else {
            end
        };
        lemma_placed_count(prev, a);
        lemma_placed_count(placed(prev, a), b);
    }
}

proof fn lemma_placed_count(s: Seq<u64>, x: u64)
    ensures
        placed(s, x).len() >= s.len(),
    decreases s.len(),
{
    if s.len() > 0 && x > s[0] {
        lemma_placed_count(s.skip(1), x);
    }
}

} // verus!
