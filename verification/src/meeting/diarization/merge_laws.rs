//! Whose time is whose: how runs come from windows, and who gets the time of a short run.
use vstd::prelude::*;
use crate::float32::Float32;
use crate::meeting::data::span;
use crate::meeting::diarization::run_laws::{
    changes, increasing, leads_on, lemma_cuts, lemma_interval_runs, tiles,
};
use crate::meeting::diarization::runs::{
    cut_points, extended, goes_left, interval_runs, lemma_fewer_runs, merge_pass, placed,
    range_runs, resume_at, sandwiched, settled, stretch, transient, without_run, RunView,
};
use crate::meeting::diarization::score_laws::{law_sole_speaker_takes_the_stretch, windows_of};
use crate::meeting::diarization::windows::{mean, overlap, range_speaker, WindowView};
use crate::meeting::diarization::Speaker;

verus! {

/// At time `t` a run of the speaker goes on.
pub open spec fn speaks_at(runs: Seq<RunView>, t: u64, speaker: Speaker) -> bool {
    exists|i: int|
        #![trigger runs[i]]
        0 <= i < runs.len() && runs[i].start_ms <= t < runs[i].end_ms && runs[i].speaker == speaker
}

proof fn lemma_placed_contains(s: Seq<u64>, x: u64, y: u64)
    ensures
        placed(s, x).contains(y) <==> s.contains(y) || y == x,
    decreases s.len(),
{
    let r = placed(s, x);
    if s.len() == 0 {
        assert(r[0] == x);
    } else if x < s[0] {
        assert(r[0] == x);
        if s.contains(y) {
            let i = choose|i: int| 0 <= i < s.len() && s[i] == y;
            assert(r[i + 1] == y);
        }
        if r.contains(y) {
            let i = choose|i: int| 0 <= i < r.len() && r[i] == y;
            if i > 0 {
                assert(s[i - 1] == y);
            }
        }
    } else if x > s[0] {
        let rest = s.skip(1);
        lemma_placed_contains(rest, x, y);
        let p = placed(rest, x);
        if s.contains(y) || y == x {
            if s.contains(y) {
                let i = choose|i: int| 0 <= i < s.len() && s[i] == y;
                if i == 0 {
                    assert(r[0] == y);
                } else {
                    assert(rest[i - 1] == y);
                }
            }
            if p.contains(y) {
                let i = choose|i: int| 0 <= i < p.len() && p[i] == y;
                assert(r[i + 1] == y);
            }
        }
        if r.contains(y) {
            let i = choose|i: int| 0 <= i < r.len() && r[i] == y;
            if i == 0 {
                assert(s[0] == y);
            } else {
                assert(p[i - 1] == y);
                if rest.contains(y) {
                    let j = choose|j: int| 0 <= j < rest.len() && rest[j] == y;
                    assert(s[j + 1] == y);
                }
            }
        }
    } else {
        assert(s[0] == x);
    }
}

/// `y` is where a window that shares time with the stretch starts or ends within it.
pub open spec fn window_bound(v: WindowView, start: u64, end: u64, y: u64) -> bool {
    overlap(start, end, v.start_ms, v.end_ms) > 0 && (y == (if v.start_ms > start {
        v.start_ms
    } else {
        start
    }) || y == (if v.end_ms < end {
        v.end_ms
    } else {
        end
    }))
}

/// A stretch is cut at its own bounds and wherever a window starts or ends in it, at every
/// such point once and nowhere else, in the order of time.
pub proof fn law_stretches_are_cut_at_window_bounds(
    w: Seq<WindowView>,
    k: int,
    start: u64,
    end: u64,
    y: u64,
)
    requires
        start < end,
        0 <= k <= w.len(),
    ensures
        increasing(cut_points(w, k, start, end)),
        cut_points(w, k, start, end).contains(y) <==> y == start || y == end || exists|i: int|
            #![trigger w[i]]
            0 <= i < k && window_bound(w[i], start, end, y),
    decreases k,
{
    lemma_cuts(w, k, start, end);
    if k <= 0 {
        let c = cut_points(w, 0, start, end);
        assert(c[0] == start && c[1] == end);
    } else {
        law_stretches_are_cut_at_window_bounds(w, k - 1, start, end, y);
        let prev = cut_points(w, k - 1, start, end);
        let v = w[k - 1];
        let a = if v.start_ms > start {
            v.start_ms
        } else {
            start
        };
        let b = if v.end_ms < end {
            v.end_ms
        } else {
            end
        };
        lemma_placed_contains(prev, a, y);
        lemma_placed_contains(placed(prev, a), b, y);
        if exists|i: int| #![trigger w[i]] 0 <= i < k && window_bound(w[i], start, end, y) {
            let i = choose|i: int| #![trigger w[i]] 0 <= i < k && window_bound(w[i], start, end, y);
            if i < k - 1 {
                assert(window_bound(w[i], start, end, y));
            }
        }
        if window_bound(v, start, end, y) {
            assert(window_bound(w[k - 1], start, end, y));
        }
        if prev.contains(y) && y != start && y != end {
            let i = choose|i: int|
                #![trigger w[i]]
                0 <= i < k - 1 && window_bound(w[i], start, end, y);
            assert(0 <= i < k && window_bound(w[i], start, end, y));
        }
    }
}

/// Before short runs are merged, every interval between two cuts is the speaker's that the
/// windows give it to, and no other time changes hands.
pub proof fn law_intervals_go_to_their_speaker(
    w: Seq<WindowView>,
    cuts: Seq<u64>,
    k: int,
    j: int,
    t: u64,
)
    requires
        increasing(cuts),
        0 <= j < k < cuts.len(),
        cuts[j] <= t < cuts[j + 1],
    ensures
        speaks_at(interval_runs(w, cuts, k), t, range_speaker(w, cuts[j], cuts[j + 1]).0),
    decreases k,
{
    let (speaker, confidence) = range_speaker(w, cuts[k - 1], cuts[k]);
    let prev = interval_runs(w, cuts, k - 1);
    let r = interval_runs(w, cuts, k);
    assert(r == extended(prev, cuts[k - 1], cuts[k], speaker, confidence));
    lemma_interval_runs(w, cuts, k);
    if j < k - 1 {
        law_intervals_go_to_their_speaker(w, cuts, k - 1, j, t);
        lemma_interval_runs(w, cuts, k - 1);
        let s = range_speaker(w, cuts[j], cuts[j + 1]).0;
        let i = choose|i: int|
            #![trigger prev[i]]
            0 <= i < prev.len() && prev[i].start_ms <= t < prev[i].end_ms && prev[i].speaker == s;
        assert(cuts[k - 1] < cuts[k]);
        assert(r[i].start_ms <= t < r[i].end_ms && r[i].speaker == s);
    } else {
        let n = r.len() - 1;
        if k > 1 {
            lemma_interval_runs(w, cuts, k - 1);
            assert(leads_on(prev, prev.len() - 1));
            assert(cuts[0] < cuts[k]);
        } else {
            assert(prev.len() == 0);
        }
        assert(r[n].start_ms <= t < r[n].end_ms && r[n].speaker == speaker);
    }
}

/// Who gets the time of run `i`: the speaker on both sides where there is only one, else the
/// neighbour that lasts longer, the earlier one where both last equally long.
pub open spec fn heir(runs: Seq<RunView>, i: int) -> Speaker {
    let before = span(runs[i - 1].start_ms, runs[i - 1].end_ms);
    let after = span(runs[i + 1].start_ms, runs[i + 1].end_ms);
    if i == 0 {
        runs[i + 1].speaker
    } else if i == runs.len() - 1 {
        runs[i - 1].speaker
    } else if before >= after {
        runs[i - 1].speaker
    } else {
        runs[i + 1].speaker
    }
}

/// Taking out a run gives its time to its heir, and leaves all other time with whom it was.
pub proof fn law_short_runs_leave_their_time_to_the_heir(
    runs: Seq<RunView>,
    i: int,
    start: u64,
    end: u64,
    j: int,
    t: u64,
)
    requires
        tiles(runs, start, end),
        runs.len() > 1,
        0 <= i < runs.len(),
        0 <= j < runs.len(),
        runs[j].start_ms <= t < runs[j].end_ms,
    ensures
        speaks_at(
            without_run(runs, i),
            t,
            if j == i {
                heir(runs, i)
            } else {
                runs[j].speaker
            },
        ),
{
    reveal(without_run);
    let r = without_run(runs, i);
    let n = runs.len() as int;
    assert(leads_on(runs, i));
    if i > 0 {
        assert(leads_on(runs, i - 1));
    }
    if i + 1 < n {
        assert(leads_on(runs, i + 1));
    }
    let taker = if sandwiched(runs, i) || goes_left(runs, i) {
        i - 1
    } else {
        i
    };
    let gone = if sandwiched(runs, i) {
        2int
    } else {
        1int
    };
    assert(r.len() == n - gone);
    let speaker = if j == i {
        heir(runs, i)
    } else {
        runs[j].speaker
    };
    if j < taker {
        assert(r[j] == runs[j]);
    } else if j > taker + gone {
        assert(r[j - gone] == runs[j]);
    } else {
        assert(r[taker].start_ms <= t < r[taker].end_ms && r[taker].speaker == speaker);
    }
}

proof fn lemma_pass_over(runs: Seq<RunView>, i: int, j: int, total: u64, threshold: Float32)
    requires
        0 <= i <= j <= runs.len(),
        forall|a: int|
            #![trigger runs[a]]
            i <= a < j ==> !transient(runs[a], total, threshold),
    ensures
        merge_pass(runs, i, total, threshold) == merge_pass(runs, j, total, threshold),
    decreases j - i,
{
    if i < j {
        assert(!transient(runs[i], total, threshold));
        lemma_pass_over(runs, i + 1, j, total, threshold);
    }
}

/// Where no run is too short, or there is only one, merging changes nothing.
pub proof fn law_long_runs_stay(runs: Seq<RunView>, total: u64, threshold: Float32)
    requires
        runs.len() <= 1 || forall|a: int|
            #![trigger runs[a]]
            0 <= a < runs.len() ==> !transient(runs[a], total, threshold),
    ensures
        settled(runs, total, threshold) == runs,
{
    if runs.len() <= 1 {
        reveal_with_fuel(merge_pass, 3);
    } else {
        lemma_pass_over(runs, 0, runs.len() as int, total, threshold);
    }
    assert(merge_pass(runs, 0, total, threshold) == runs);
}

proof fn lemma_pass_changes(runs: Seq<RunView>, i: int, total: u64, threshold: Float32)
    requires
        0 <= i,
    ensures
        merge_pass(runs, i, total, threshold).len() <= runs.len(),
        merge_pass(runs, i, total, threshold).len() == runs.len() ==> merge_pass(
            runs,
            i,
            total,
            threshold,
        ) == runs,
    decreases 2 * runs.len() - i,
{
    if i < runs.len() {
        if runs.len() == 1 || !transient(runs[i], total, threshold) {
            lemma_pass_changes(runs, i + 1, total, threshold);
        } else {
            lemma_fewer_runs(runs, i);
            lemma_pass_changes(without_run(runs, i), resume_at(runs, i), total, threshold);
        }
    }
}

/// Short runs are merged one at a time, the first one first, until none is left or only one
/// run is.
pub proof fn law_first_short_run_goes_first(
    runs: Seq<RunView>,
    i: int,
    total: u64,
    threshold: Float32,
)
    requires
        runs.len() > 1,
        0 <= i < runs.len(),
        transient(runs[i], total, threshold),
        forall|a: int|
            #![trigger runs[a]]
            0 <= a < i ==> !transient(runs[a], total, threshold),
    ensures
        settled(runs, total, threshold) == settled(without_run(runs, i), total, threshold),
{
    let next = without_run(runs, i);
    let at = resume_at(runs, i);
    lemma_fewer_runs(runs, i);
    lemma_pass_over(runs, 0, i, total, threshold);
    assert forall|a: int| #![trigger next[a]] 0 <= a < at implies !transient(
        next[a],
        total,
        threshold,
    ) by {
        reveal(without_run);
        assert(next[a] == runs[a]);
    }
    lemma_pass_over(next, 0, at, total, threshold);
    let done = merge_pass(next, 0, total, threshold);
    assert(merge_pass(runs, 0, total, threshold) == done);
    lemma_pass_changes(next, 0, total, threshold);
}

proof fn lemma_place_before_last(s: Seq<u64>, last: u64, x: u64)
    requires
        increasing(s),
        forall|i: int| #![trigger s[i]] 0 <= i < s.len() ==> s[i] < x,
        x < last,
    ensures
        placed(s.push(last), x) == s.push(x).push(last),
    decreases s.len(),
{
    let t = s.push(last);
    if s.len() == 0 {
        assert(placed(t, x) =~= s.push(x).push(last));
    } else {
        assert(t[0] == s[0]);
        let rest = s.skip(1);
        assert forall|i: int, j: int|
            #![trigger rest[i], rest[j]]
            0 <= i < j < rest.len() implies rest[i] < rest[j] by {
            assert(s[i + 1] < s[j + 1]);
        }
        assert forall|i: int| #![trigger rest[i]] 0 <= i < rest.len() implies rest[i] < x by {
            assert(s[i + 1] < x);
        }
        lemma_place_before_last(rest, last, x);
        assert(t.skip(1) =~= rest.push(last));
        assert(placed(t, x) =~= s.push(x).push(last));
    }
}

proof fn lemma_place_again(s: Seq<u64>, x: u64, i: int)
    requires
        increasing(s),
        0 <= i < s.len(),
        s[i] == x,
    ensures
        placed(s, x) == s,
    decreases s.len(),
{
    if i > 0 {
        assert(s[0] < s[i]);
        let rest = s.skip(1);
        assert forall|a: int, b: int|
            #![trigger rest[a], rest[b]]
            0 <= a < b < rest.len() implies rest[a] < rest[b] by {
            assert(s[a + 1] < s[b + 1]);
        }
        assert(rest[i - 1] == x);
        lemma_place_again(rest, x, i - 1);
        assert(seq![s[0]] + rest =~= s);
    }
}

/// Windows lie back to back from `start` to `end`, one behind the other.
pub open spec fn back_to_back(w: Seq<WindowView>, start: u64, end: u64) -> bool {
    &&& w.len() > 0
    &&& w[0].start_ms == start
    &&& w.last().end_ms == end
    &&& forall|i: int| #![trigger w[i]] 0 <= i < w.len() ==> w[i].start_ms < w[i].end_ms
    &&& forall|i: int, j: int|
        #![trigger w[i], w[j]]
        0 <= i && j == i + 1 && j < w.len() ==> w[i].end_ms == w[j].start_ms
}

proof fn lemma_back_to_back(w: Seq<WindowView>, start: u64, end: u64, i: int, j: int)
    requires
        back_to_back(w, start, end),
        0 <= i <= j < w.len(),
    ensures
        start <= w[i].start_ms,
        w[j].end_ms <= end,
        i < j ==> w[i].end_ms <= w[j].start_ms,
{
    lemma_starts(w, start, end, i);
    lemma_ends(w, start, end, j);
    lemma_follow(w, start, end, i, j);
}

proof fn lemma_starts(w: Seq<WindowView>, start: u64, end: u64, i: int)
    requires
        back_to_back(w, start, end),
        0 <= i < w.len(),
    ensures
        start <= w[i].start_ms,
    decreases i,
{
    if i > 0 {
        lemma_starts(w, start, end, i - 1);
        assert(w[i - 1].start_ms < w[i - 1].end_ms);
        assert(w[i - 1].end_ms == w[i].start_ms);
    }
}

proof fn lemma_ends(w: Seq<WindowView>, start: u64, end: u64, j: int)
    requires
        back_to_back(w, start, end),
        0 <= j < w.len(),
    ensures
        w[j].end_ms <= end,
    decreases w.len() - j,
{
    if j + 1 < w.len() {
        lemma_ends(w, start, end, j + 1);
        assert(w[j].end_ms == w[j + 1].start_ms);
        assert(w[j + 1].start_ms < w[j + 1].end_ms);
    }
}

proof fn lemma_follow(w: Seq<WindowView>, start: u64, end: u64, i: int, j: int)
    requires
        back_to_back(w, start, end),
        0 <= i <= j < w.len(),
    ensures
        i < j ==> w[i].end_ms <= w[j].start_ms,
    decreases j - i,
{
    if i < j {
        lemma_follow(w, start, end, i, j - 1);
        assert(w[j - 1].end_ms == w[j].start_ms);
        assert(w[j - 1].start_ms < w[j - 1].end_ms);
    }
}

/// The bounds of the first `k` windows, and the end.
spec fn bounds(w: Seq<WindowView>, k: int, start: u64, end: u64) -> Seq<u64> {
    let ends = Seq::new(
        (k + 1) as nat,
        |i: int|
            if i == 0 {
                start
            } else {
                w[i - 1].end_ms
            },
    );
    if k < w.len() {
        ends.push(end)
    } else {
        ends
    }
}

proof fn lemma_bounds(w: Seq<WindowView>, k: int, start: u64, end: u64)
    requires
        back_to_back(w, start, end),
        0 <= k <= w.len(),
    ensures
        cut_points(w, k, start, end) == bounds(w, k, start, end),
        increasing(bounds(w, k, start, end)),
    decreases k,
{
    lemma_back_to_back(w, start, end, 0, w.len() - 1);
    assert(start < end) by {
        lemma_back_to_back(w, start, end, 0, 0);
        assert(w[0].start_ms < w[0].end_ms);
    }
    lemma_cuts(w, k, start, end);
    if k == 0 {
        assert(cut_points(w, 0, start, end) =~= bounds(w, 0, start, end));
    } else {
        lemma_bounds(w, k - 1, start, end);
        let prev = bounds(w, k - 1, start, end);
        let v = w[k - 1];
        lemma_back_to_back(w, start, end, k - 1, k - 1);
        assert(v.start_ms < v.end_ms);
        assert(v.start_ms == prev[k - 1]) by {
            if k > 1 {
                assert(w[k - 2].end_ms == w[k - 1].start_ms);
            }
        }
        lemma_place_again(prev, v.start_ms, k - 1);
        assert(prev == cut_points(w, k - 1, start, end));
        if k < w.len() {
            let front = prev.drop_last();
            assert(prev =~= front.push(end));
            assert(increasing(front)) by {
                assert forall|i: int, j: int|
                    #![trigger front[i], front[j]]
                    0 <= i < j < front.len() implies front[i] < front[j] by {
                    assert(prev[i] < prev[j]);
                }
            }
            assert forall|i: int|
                #![trigger front[i]]
                0 <= i < front.len() implies front[i] < v.end_ms by {
                if i < k - 1 {
                    assert(prev[i] < prev[k - 1]);
                }
            }
            assert(v.end_ms < end) by {
                lemma_back_to_back(w, start, end, k - 1, k);
                lemma_back_to_back(w, start, end, k, k);
                assert(w[k].start_ms < w[k].end_ms);
            }
            lemma_place_before_last(front, end, v.end_ms);
            assert(front.push(v.end_ms).push(end) =~= bounds(w, k, start, end));
        } else {
            assert(v == w.last());
            assert(prev[k] == end);
            lemma_place_again(prev, end, k);
            assert(prev =~= bounds(w, k, start, end));
        }
    }
}

/// The runs that windows make which lie back to back.
pub open spec fn window_runs(w: Seq<WindowView>) -> Seq<RunView> {
    Seq::new(
        w.len(),
        |i: int|
            RunView {
                start_ms: w[i].start_ms,
                end_ms: w[i].end_ms,
                speaker: w[i].speaker,
                confidence: range_speaker(w, w[i].start_ms, w[i].end_ms).1,
            },
    )
}

proof fn lemma_own_interval(w: Seq<WindowView>, start: u64, end: u64, i: int)
    requires
        back_to_back(w, start, end),
        0 <= i < w.len(),
    ensures
        range_speaker(w, w[i].start_ms, w[i].end_ms).0 == w[i].speaker,
{
    broadcast use vstd::seq_lib::group_filter_ensures;

    let (a, b) = (w[i].start_ms, w[i].end_ms);
    assert(a < b);
    assert forall|j: int|
        #![trigger w[j]]
        0 <= j < w.len() && overlap(a, b, w[j].start_ms, w[j].end_ms) > 0 implies w[j].speaker
        == w[i].speaker by {
        if j < i {
            lemma_back_to_back(w, start, end, j, i);
        } else if j > i {
            lemma_back_to_back(w, start, end, i, j);
        }
    }
    law_sole_speaker_takes_the_stretch(w, a, b, w[i].speaker);
    assert(windows_of(w, w[i].speaker, a, b).contains(w[i]));
}

proof fn lemma_window_runs(w: Seq<WindowView>, start: u64, end: u64, k: int)
    requires
        back_to_back(w, start, end),
        0 <= k <= w.len(),
        forall|i: int, j: int|
            #![trigger w[i], w[j]]
            0 <= i && j == i + 1 && j < w.len() ==> w[i].speaker != w[j].speaker,
    ensures
        interval_runs(w, bounds(w, w.len() as int, start, end), k) == window_runs(w).take(k),
    decreases k,
{
    if k > 0 {
        lemma_window_runs(w, start, end, k - 1);
        let cuts = bounds(w, w.len() as int, start, end);
        let prev = window_runs(w).take(k - 1);
        lemma_own_interval(w, start, end, k - 1);
        assert(cuts[k] == w[k - 1].end_ms);
        assert(cuts[k - 1] == w[k - 1].start_ms) by {
            if k > 1 {
                assert(w[k - 2].end_ms == w[k - 1].start_ms);
            }
        }
        if k > 1 {
            assert(prev.last() == window_runs(w)[k - 2]);
            assert(w[k - 2].speaker != w[k - 1].speaker);
        }
        assert(window_runs(w).take(k) =~= prev.push(window_runs(w)[k - 1]));
    } else {
        assert(window_runs(w).take(0) =~= Seq::empty());
    }
}

/// Windows that fill a stretch back to back, with a change of speaker from each to the next,
/// make one run each, of the window's speaker and time, where none of them is too short to
/// stand on its own.
pub proof fn law_windows_back_to_back_are_the_runs(
    w: Seq<WindowView>,
    start: u64,
    end: u64,
    threshold: Float32,
)
    requires
        back_to_back(w, start, end),
        forall|i: int, j: int|
            #![trigger w[i], w[j]]
            0 <= i && j == i + 1 && j < w.len() ==> w[i].speaker != w[j].speaker,
        forall|i: int|
            #![trigger window_runs(w)[i]]
            0 <= i < w.len() ==> !transient(window_runs(w)[i], stretch(start, end), threshold),
    ensures
        range_runs(w, start, end, threshold) == window_runs(w),
{
    let n = w.len() as int;
    lemma_back_to_back(w, start, end, 0, 0);
    assert(w[0].start_ms < w[0].end_ms);
    lemma_bounds(w, n, start, end);
    lemma_window_runs(w, start, end, n);
    assert(window_runs(w).take(n) =~= window_runs(w));
    law_long_runs_stay(window_runs(w), stretch(start, end), threshold);
}

/// The run that takes the time of a short one takes the mean of confidences: of the two that
/// it is made of where it lies between, else of its own and the short one's.
pub proof fn law_heirs_take_the_mean_confidence(runs: Seq<RunView>, i: int)
    requires
        runs.len() > 1,
        0 <= i < runs.len(),
    ensures
        ({
            let r = without_run(runs, i);
            let last = i == runs.len() - 1;
            if 0 < i && !last && runs[i - 1].speaker == runs[i + 1].speaker {
                r.len() == runs.len() - 2 && r[i - 1].confidence == mean(
                    runs[i - 1].confidence,
                    runs[i + 1].confidence,
                )
            } else if 0 < i && (last || span(runs[i - 1].start_ms, runs[i - 1].end_ms) >= span(
                runs[i + 1].start_ms,
                runs[i + 1].end_ms,
            )) {
                r.len() == runs.len() - 1 && r[i - 1].confidence == mean(
                    runs[i - 1].confidence,
                    runs[i].confidence,
                )
            } else {
                r.len() == runs.len() - 1 && r[i].confidence == mean(
                    runs[i + 1].confidence,
                    runs[i].confidence,
                )
            }
        }),
{
    reveal(without_run);
}

} // verus!
