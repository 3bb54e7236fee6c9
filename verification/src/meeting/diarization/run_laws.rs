//! What holds of speaker runs.
use vstd::prelude::*;
use crate::float32::Float32;
use crate::meeting::diarization::runs::{
    cut_points, extended, goes_left, interval_runs, lemma_fewer_runs, merge_pass, placed,
    range_runs, resume_at, sandwiched, settled, stretch, transient, without_run, RunView,
};
use crate::meeting::diarization::windows::{overlap, range_speaker, WindowView};

verus! {

/// Run `i` lasts, and ends where the next one starts.
pub open spec fn leads_on(runs: Seq<RunView>, i: int) -> bool {
    &&& runs[i].start_ms < runs[i].end_ms
    &&& i + 1 < runs.len() ==> runs[i].end_ms == runs[i + 1].start_ms
}

/// The run behind run `i` is of another speaker.
pub open spec fn changes(runs: Seq<RunView>, i: int) -> bool {
    runs[i].speaker != runs[i + 1].speaker
}

/// The runs fill the time from `start` to `end`, one behind the other.
pub open spec fn tiles(runs: Seq<RunView>, start: u64, end: u64) -> bool {
    &&& runs.len() > 0
    &&& runs[0].start_ms == start
    &&& runs[runs.len() - 1].end_ms == end
    &&& forall|i: int| 0 <= i < runs.len() ==> #[trigger] leads_on(runs, i)
}

/// Neighbouring runs are of different speakers.
pub open spec fn alternate(runs: Seq<RunView>) -> bool {
    forall|i: int| 0 <= i < runs.len() - 1 ==> #[trigger] changes(runs, i)
}

pub open spec fn increasing(s: Seq<u64>) -> bool {
    forall|i: int, j: int| #![trigger s[i], s[j]] 0 <= i < j < s.len() ==> s[i] < s[j]
}

proof fn lemma_placed(s: Seq<u64>, x: u64)
    requires
        increasing(s),
        s.len() > 0,
        s[0] <= x <= s[s.len() - 1],
    ensures
        increasing(placed(s, x)),
        placed(s, x).len() >= s.len(),
        placed(s, x)[0] == s[0],
        placed(s, x)[placed(s, x).len() - 1] == s[s.len() - 1],
    decreases s.len(),
{
    if x > s[0] {
        let rest = s.skip(1);
        assert(rest[0] == s[1]);
        let r = placed(s, x);
        if x < rest[0] {
            assert(placed(rest, x) == seq![x] + rest);
            assert forall|i: int, j: int| #![trigger r[i], r[j]] 0 <= i < j < r.len() implies r[i]
                < r[j] by {
                if i >= 2 {
                    assert(r[i] == s[i - 1] && r[j] == s[j - 1]);
                } else if j >= 2 {
                    assert(r[j] == s[j - 1]);
                    assert(s[1] <= s[j - 1]);
                }
            }
            assert(r[r.len() - 1] == s[s.len() - 1]);
        } else {
            assert(rest[rest.len() - 1] == s[s.len() - 1]);
            assert(increasing(rest)) by {
                assert forall|i: int, j: int|
                    #![trigger rest[i], rest[j]]
                    0 <= i < j < rest.len() implies rest[i] < rest[j] by {
                    assert(rest[i] == s[i + 1] && rest[j] == s[j + 1]);
                }
            }
            lemma_placed(rest, x);
            let p = placed(rest, x);
            assert forall|i: int, j: int| #![trigger r[i], r[j]] 0 <= i < j < r.len() implies r[i]
                < r[j] by {
                assert(r[j] == p[j - 1]);
                if i > 0 {
                    assert(r[i] == p[i - 1]);
                } else {
                    assert(p[0] <= p[j - 1]);
                }
            }
        }
    }
}

pub proof fn lemma_cuts(w: Seq<WindowView>, k: int, start: u64, end: u64)
    requires
        start < end,
        0 <= k <= w.len(),
    ensures
        ({
            let cuts = cut_points(w, k, start, end);
            &&& increasing(cuts)
            &&& cuts.len() >= 2
            &&& cuts[0] == start
            &&& cuts[cuts.len() - 1] == end
        }),
    decreases k,
{
    if k > 0 {
        lemma_cuts(w, k - 1, start, end);
        let prev = cut_points(w, k - 1, start, end);
        let v = w[k - 1];
        if overlap(start, end, v.start_ms, v.end_ms) > 0 {
            let a = if v.start_ms > start {
                v.start_ms
            } else {
                start
            };
            let b = if v.end_ms < end {
                v.end_ms
            } else {
                end
            };
            lemma_placed(prev, a);
            lemma_placed(placed(prev, a), b);
        }
    }
}

pub proof fn lemma_interval_runs(w: Seq<WindowView>, cuts: Seq<u64>, k: int)
    requires
        increasing(cuts),
        1 <= k < cuts.len(),
    ensures
        tiles(interval_runs(w, cuts, k), cuts[0], cuts[k]),
        alternate(interval_runs(w, cuts, k)),
    decreases k,
{
    let (speaker, confidence) = range_speaker(w, cuts[k - 1], cuts[k]);
    let prev = interval_runs(w, cuts, k - 1);
    let r = interval_runs(w, cuts, k);
    assert(r == extended(prev, cuts[k - 1], cuts[k], speaker, confidence));
    assert(cuts[k - 1] < cuts[k]);
    if k == 1 {
        assert(prev.len() == 0);
    } else {
        lemma_interval_runs(w, cuts, k - 1);
        assert(cuts[k - 2] < cuts[k - 1]);
        assert(cuts[0] < cuts[k]);
        let n = prev.len();
        assert(prev[n - 1].end_ms == cuts[k - 1]);
        assert forall|i: int| 0 <= i < r.len() implies #[trigger] leads_on(r, i) by {
            if i < n {
                assert(leads_on(prev, i));
            }
        }
        assert forall|i: int| 0 <= i < r.len() - 1 implies #[trigger] changes(r, i) by {
            if i < n - 1 {
                assert(changes(prev, i));
            }
        }
    }
}

/// Taking a run out leaves no gap, and no two neighbours of one speaker.
proof fn lemma_without_run(runs: Seq<RunView>, i: int, start: u64, end: u64)
    requires
        0 <= i < runs.len(),
        runs.len() > 1,
        tiles(runs, start, end),
        alternate(runs),
    ensures
        tiles(without_run(runs, i), start, end),
        alternate(without_run(runs, i)),
{
    reveal(without_run);
    let r = without_run(runs, i);
    let n = runs.len() as int;
    assert(leads_on(runs, i));
    if i > 0 {
        assert(leads_on(runs, i - 1));
    }
    if i + 1 < n {
        assert(leads_on(runs, i + 1));
    }
    // the run that takes the time, and how many are gone behind it
    let taker = if sandwiched(runs, i) || goes_left(runs, i) {
        i - 1
    } else {
        i
    };
    let gone = if sandwiched(runs, i) {
        2int
    } else {
        1int
    };
    assert(r.len() == n - gone);
    assert(forall|a: int| #![trigger r[a]] 0 <= a < taker ==> r[a] == runs[a]);
    assert(forall|a: int| #![trigger r[a]] taker < a < r.len() ==> r[a] == runs[a + gone]);
    assert forall|a: int| 0 <= a < r.len() implies #[trigger] leads_on(r, a) by {
        if a < taker {
            assert(leads_on(runs, a));
        } else {
            assert(leads_on(runs, a + gone));
        }
    }
    assert forall|a: int| 0 <= a < r.len() - 1 implies #[trigger] changes(r, a) by {
        if a < taker {
            assert(changes(runs, a));
        } else if a > taker {
            assert(changes(runs, a + gone));
        } else if sandwiched(runs, i) {
            assert(changes(runs, i + 1));
        } else if !goes_left(runs, i) {
            assert(changes(runs, i + 1));
        }
    }
}

proof fn lemma_merge_pass(
    runs: Seq<RunView>,
    i: int,
    total: u64,
    threshold: Float32,
    start: u64,
    end: u64,
)
    requires
        0 <= i,
        tiles(runs, start, end),
        alternate(runs),
    ensures
        tiles(merge_pass(runs, i, total, threshold), start, end),
        alternate(merge_pass(runs, i, total, threshold)),
        merge_pass(runs, i, total, threshold).len() <= runs.len(),
        merge_pass(runs, i, total, threshold).len() == runs.len() && runs.len() > 1
            ==> forall|j: int| i <= j < runs.len() ==> !transient(#[trigger] runs[j], total, threshold),
    decreases 2 * runs.len() - i,
{
    if i < runs.len() {
        if runs.len() == 1 || !transient(runs[i], total, threshold) {
            lemma_merge_pass(runs, i + 1, total, threshold, start, end);
        } else {
            lemma_fewer_runs(runs, i);
            lemma_without_run(runs, i, start, end);
            lemma_merge_pass(
                without_run(runs, i),
                resume_at(runs, i),
                total,
                threshold,
                start,
                end,
            );
        }
    }
}

/// Merging keeps the runs without gap and the speakers of neighbours different, and leaves
/// no run that is too short, unless only one is left.
pub proof fn law_merging_settles(
    runs: Seq<RunView>,
    total: u64,
    threshold: Float32,
    start: u64,
    end: u64,
)
    requires
        tiles(runs, start, end),
        alternate(runs),
    ensures
        tiles(settled(runs, total, threshold), start, end),
        alternate(settled(runs, total, threshold)),
        settled(runs, total, threshold).len() == 1 || forall|j: int|
            0 <= j < settled(runs, total, threshold).len() ==> !transient(
                #[trigger] settled(runs, total, threshold)[j],
                total,
                threshold,
            ),
    decreases runs.len(),
{
    lemma_merge_pass(runs, 0, total, threshold, start, end);
    let next = merge_pass(runs, 0, total, threshold);
    if next.len() < runs.len() {
        law_merging_settles(next, total, threshold, start, end);
    }
}

/// The speaker runs of a stretch fill it without gap, neighbours are of different
/// speakers, and none is too short to stand on its own, unless there is only one.
pub proof fn law_runs_fill_the_stretch(
    w: Seq<WindowView>,
    start: u64,
    end: u64,
    threshold: Float32,
)
    requires
        start < end,
    ensures
        tiles(range_runs(w, start, end, threshold), start, end),
        alternate(range_runs(w, start, end, threshold)),
        range_runs(w, start, end, threshold).len() == 1 || forall|j: int|
            0 <= j < range_runs(w, start, end, threshold).len() ==> !transient(
                #[trigger] range_runs(w, start, end, threshold)[j],
                stretch(start, end),
                threshold,
            ),
{
    let cuts = cut_points(w, w.len() as int, start, end);
    lemma_cuts(w, w.len() as int, start, end);
    lemma_interval_runs(w, cuts, cuts.len() - 1);
    law_merging_settles(
        interval_runs(w, cuts, cuts.len() - 1),
        stretch(start, end),
        threshold,
        start,
        end,
    );
}

} // verus!
