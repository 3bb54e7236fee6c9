//! What holds of speech regions.
use vstd::prelude::*;
use crate::meeting::speech::{
    all_pieces, bounded, frame_end, padded, pieces, raw_regions, regions, scan,
    PADDING_FRAMES,
};

verus! {

/// Ranges within `n` samples, none empty, one behind the other.
pub open spec fn ordered(r: Seq<(int, int)>, n: int) -> bool {
    &&& forall|i: int| #![trigger r[i]] 0 <= i < r.len() ==> 0 <= r[i].0 < r[i].1 <= n
    &&& forall|i: int, j: int|
        #![trigger r[i], r[j]]
        0 <= i < j < r.len() ==> r[i].1 <= r[j].0
}

/// Some range holds everything from `lo` to `hi`.
pub open spec fn covered(r: Seq<(int, int)>, lo: int, hi: int) -> bool {
    exists|i: int| #![trigger r[i]] 0 <= i < r.len() && r[i].0 <= lo && hi <= r[i].1
}

/// Some range holds sample `x`.
pub open spec fn holds_sample(r: Seq<(int, int)>, x: int) -> bool {
    exists|i: int| #![trigger r[i]] 0 <= i < r.len() && r[i].0 <= x < r[i].1
}

/// Frames of `w` samples that make up `n` samples.
pub open spec fn framed(frames: int, w: int, n: int) -> bool {
    w > 0 && (frames - 1) * w < n <= frames * w
}

pub proof fn lemma_frame_bounds(i: int, frames: int, w: int, n: int)
    requires
        framed(frames, w, n),
        0 <= i < frames,
    ensures
        0 <= i * w < frame_end(i, w, n) <= n,
        i + 1 < frames ==> frame_end(i, w, n) == (i + 1) * w,
        i > 0 ==> frame_end(i - 1, w, n) == i * w,
{
    assert(0 <= i * w <= (frames - 1) * w) by (nonlinear_arith)
        requires
            0 <= i <= frames - 1,
            w > 0,
    ;
    assert((i + 1) * w == i * w + w) by (nonlinear_arith);
    if i + 1 < frames {
        assert((i + 1) * w <= (frames - 1) * w) by (nonlinear_arith)
            requires
                i + 1 <= frames - 1,
                w > 0,
        ;
    }
}

/// The first sample that the first `k` frames leave out.
spec fn seen(k: int, w: int, n: int) -> int {
    if k <= 0 {
        0
    } else {
        frame_end(k - 1, w, n)
    }
}

proof fn lemma_scan(flags: Seq<bool>, k: int, w: int, n: int)
    requires
        0 <= k <= flags.len(),
        flags.len() > 0,
        framed(flags.len() as int, w, n),
    ensures
        ({
            let s = scan(flags, k, w, n);
            &&& ordered(s.closed, n)
            &&& forall|i: int|
                #![trigger s.closed[i]]
                0 <= i < s.closed.len() ==> s.closed[i].1 <= match s.open {
                    Some(o) => o.start,
                    None => seen(k, w, n),
                }
            &&& s.open matches Some(o) ==> 0 <= o.start < o.end <= seen(k, w, n)
            &&& forall|i: int|
                0 <= i < k && #[trigger] flags[i] ==> covered(
                    s.closed,
                    i * w,
                    frame_end(i, w, n),
                ) || (s.open matches Some(o) && o.start <= i * w && frame_end(i, w, n) <= o.end)
        }),
    decreases k,
{
    if k > 0 {
        lemma_scan(flags, k - 1, w, n);
        lemma_frame_bounds(k - 1, flags.len() as int, w, n);
        let prev = scan(flags, k - 1, w, n);
        let s = scan(flags, k, w, n);
        assert(seen(k - 1, w, n) <= (k - 1) * w) by {
            if k > 1 {
                lemma_frame_bounds(k - 2, flags.len() as int, w, n);
            }
        }
        assert(seen(k - 1, w, n) <= seen(k, w, n));
        assert forall|i: int| 0 <= i < k && #[trigger] flags[i] implies covered(
            s.closed,
            i * w,
            frame_end(i, w, n),
        ) || (s.open matches Some(o) && o.start <= i * w && frame_end(i, w, n) <= o.end) by {
            lemma_frame_bounds(i, flags.len() as int, w, n);
            if i < k - 1 {
                // the frame ends before the last one starts
                assert((i + 1) * w <= (k - 1) * w) by (nonlinear_arith)
                    requires
                        i + 1 <= k - 1,
                        w > 0,
                ;
                if covered(prev.closed, i * w, frame_end(i, w, n)) {
                    let c = choose|c: int|
                        #![trigger prev.closed[c]]
                        0 <= c < prev.closed.len() && prev.closed[c].0 <= i * w && frame_end(
                            i,
                            w,
                            n,
                        ) <= prev.closed[c].1;
                    assert(s.closed[c] == prev.closed[c]);
                } else if !flags[k - 1] && s.open is None {
                    assert(s.closed[s.closed.len() - 1] == (
                        prev.open->0.start,
                        prev.open->0.end,
                    ));
                }
            } else {
                assert(i == k - 1);
                if prev.open is Some {
                    assert(prev.open->0.start <= i * w);
                }
            }
        }
    }
}

pub proof fn lemma_raw(flags: Seq<bool>, w: int, n: int)
    requires
        flags.len() > 0,
        framed(flags.len() as int, w, n),
    ensures
        ordered(raw_regions(flags, w, n), n),
        forall|i: int|
            0 <= i < flags.len() && #[trigger] flags[i] ==> covered(
                raw_regions(flags, w, n),
                i * w,
                frame_end(i, w, n),
            ),
{
    let k = flags.len() as int;
    lemma_scan(flags, k, w, n);
    lemma_frame_bounds(k - 1, k, w, n);
    let s = scan(flags, k, w, n);
    let raw = raw_regions(flags, w, n);
    assert forall|i: int| 0 <= i < flags.len() && #[trigger] flags[i] implies covered(
        raw,
        i * w,
        frame_end(i, w, n),
    ) by {
        lemma_frame_bounds(i, k, w, n);
        if covered(s.closed, i * w, frame_end(i, w, n)) {
            let c = choose|c: int|
                #![trigger s.closed[c]]
                0 <= c < s.closed.len() && s.closed[c].0 <= i * w && frame_end(i, w, n)
                    <= s.closed[c].1;
            assert(raw[c] == s.closed[c]);
        } else {
            assert(raw[raw.len() - 1] == (s.open->0.start, n));
        }
    }
}

proof fn lemma_padded(raw: Seq<(int, int)>, k: int, p: int, n: int)
    requires
        0 <= k <= raw.len(),
        p >= 0,
        ordered(raw, n),
    ensures
        ({
            let r = padded(raw, k, p, n);
            &&& ordered(r, n)
            &&& k > 0 ==> r.len() > 0 && r.last().0 <= (if raw[k - 1].0 > p {
                raw[k - 1].0 - p
            } else {
                0
            })
            &&& forall|i: int|
                #![trigger raw[i]]
                0 <= i < k ==> covered(r, raw[i].0, raw[i].1)
        }),
    decreases k,
{
    if k > 0 {
        lemma_padded(raw, k - 1, p, n);
        let prev = padded(raw, k - 1, p, n);
        let r = padded(raw, k, p, n);
        if k > 1 {
            assert(raw[k - 2].1 <= raw[k - 1].0);
            assert(raw[k - 2].0 < raw[k - 2].1);
        }
        assert(raw[k - 1].0 < raw[k - 1].1);
        assert forall|i: int| #![trigger raw[i]] 0 <= i < k implies covered(
            r,
            raw[i].0,
            raw[i].1,
        ) by {
            if i < k - 1 {
                let c = choose|c: int|
                    #![trigger prev[c]]
                    0 <= c < prev.len() && prev[c].0 <= raw[i].0 && raw[i].1 <= prev[c].1;
                assert(r[c].0 <= prev[c].0 && prev[c].1 <= r[c].1);
            } else {
                let c = r.len() - 1;
                assert(r[c].0 <= raw[i].0 && raw[i].1 <= r[c].1);
            }
        }
        assert forall|i: int, j: int|
            #![trigger r[i], r[j]]
            0 <= i < j < r.len() implies r[i].1 <= r[j].0 by {
            assert(r[i] == prev[i]);
            if j < r.len() - 1 {
                assert(r[j] == prev[j]);
            } else if prev.len() == r.len() {
                assert(prev[i].1 <= prev[j].0);
            } else {
                assert(prev[i].1 <= prev.last().1);
            }
        }
        assert forall|i: int|
            #![trigger r[i]]
            0 <= i < r.len() implies 0 <= r[i].0 < r[i].1 <= n by {
            if i < prev.len() {
                assert(0 <= prev[i].0 < prev[i].1 <= n);
            }
        }
    }
}

proof fn lemma_pieces(start: int, end: int, max: int)
    requires
        max > 0,
        start < end,
    ensures
        ({
            let r = pieces(start, end, max);
            &&& r.len() > 0
            &&& forall|i: int|
                #![trigger r[i]]
                0 <= i < r.len() ==> start <= r[i].0 < r[i].1 <= end && r[i].1 - r[i].0 <= max
            &&& forall|i: int, j: int|
                #![trigger r[i], r[j]]
                0 <= i < j < r.len() ==> r[i].1 <= r[j].0
            &&& forall|x: int| start <= x < end ==> #[trigger] holds_sample(r, x)
        }),
    decreases end - start,
{
    let r = pieces(start, end, max);
    if end - start > max {
        lemma_pieces(start + max, end, max);
        let rest = pieces(start + max, end, max);
        assert forall|i: int| #![trigger r[i]] 0 <= i < r.len() implies start <= r[i].0 < r[i].1
            <= end && r[i].1 - r[i].0 <= max by {
            if i > 0 {
                assert(r[i] == rest[i - 1]);
            }
        }
        assert forall|i: int, j: int|
            #![trigger r[i], r[j]]
            0 <= i < j < r.len() implies r[i].1 <= r[j].0 by {
            assert(r[j] == rest[j - 1]);
            if i > 0 {
                assert(r[i] == rest[i - 1]);
            }
        }
        assert forall|x: int| start <= x < end implies #[trigger] holds_sample(r, x) by {
            if x < start + max {
                assert(r[0] == (start, start + max));
            } else {
                assert(holds_sample(rest, x));
                let c = choose|c: int|
                    #![trigger rest[c]]
                    0 <= c < rest.len() && rest[c].0 <= x < rest[c].1;
                assert(r[c + 1] == rest[c]);
            }
        }
    } else {
        assert forall|x: int| start <= x < end implies #[trigger] holds_sample(r, x) by {
            assert(r[0] == (start, end));
        }
    }
}

proof fn lemma_all_pieces(segments: Seq<(int, int)>, k: int, max: int, n: int)
    requires
        max > 0,
        0 <= k <= segments.len(),
        ordered(segments, n),
    ensures
        ({
            let r = all_pieces(segments, k, max);
            &&& ordered(r, n)
            &&& forall|i: int|
                #![trigger r[i]]
                0 <= i < r.len() ==> r[i].1 - r[i].0 <= max
            &&& forall|i: int|
                #![trigger r[i]]
                0 <= i < r.len() ==> k > 0 && r[i].1 <= segments[k - 1].1
            &&& forall|i: int, x: int|
                #![trigger segments[i], holds_sample(r, x)]
                0 <= i < k && segments[i].0 <= x < segments[i].1 ==> holds_sample(r, x)
        }),
    decreases k,
{
    if k > 0 {
        lemma_all_pieces(segments, k - 1, max, n);
        let (start, end) = segments[k - 1];
        lemma_pieces(start, end, max);
        let prev = all_pieces(segments, k - 1, max);
        let new = pieces(start, end, max);
        let r = all_pieces(segments, k, max);
        if k > 1 {
            assert(segments[k - 2].1 <= segments[k - 1].0);
        }
        assert forall|i: int| #![trigger r[i]] 0 <= i < r.len() implies 0 <= r[i].0 < r[i].1 <= n
            && r[i].1 - r[i].0 <= max && r[i].1 <= segments[k - 1].1 by {
            if i < prev.len() {
                assert(r[i] == prev[i]);
            } else {
                assert(r[i] == new[i - prev.len()]);
            }
        }
        assert forall|i: int, j: int|
            #![trigger r[i], r[j]]
            0 <= i < j < r.len() implies r[i].1 <= r[j].0 by {
            if j < prev.len() {
                assert(r[i] == prev[i] && r[j] == prev[j]);
            } else {
                assert(r[j] == new[j - prev.len()]);
                if i < prev.len() {
                    assert(r[i] == prev[i]);
                } else {
                    assert(r[i] == new[i - prev.len()]);
                }
            }
        }
        assert forall|i: int, x: int|
            #![trigger segments[i], holds_sample(r, x)]
            0 <= i < k && segments[i].0 <= x < segments[i].1 implies holds_sample(r, x) by {
            if i < k - 1 {
                assert(holds_sample(prev, x));
                let c = choose|c: int|
                    #![trigger prev[c]]
                    0 <= c < prev.len() && prev[c].0 <= x < prev[c].1;
                assert(r[c] == prev[c]);
            } else {
                assert(holds_sample(new, x));
                let c = choose|c: int|
                    #![trigger new[c]]
                    0 <= c < new.len() && new[c].0 <= x < new[c].1;
                assert(r[c + prev.len()] == new[c]);
            }
        }
    }
}

/// Splitting leaves no range longer than the bound, keeps the ranges in order and apart,
/// and loses no sample.
pub proof fn law_split_keeps_samples(segments: Seq<(int, int)>, max: int, n: int)
    requires
        max > 0,
        ordered(segments, n),
    ensures
        ordered(bounded(segments, max), n),
        forall|i: int|
            #![trigger bounded(segments, max)[i]]
            0 <= i < bounded(segments, max).len() ==> bounded(segments, max)[i].1 - bounded(
                segments,
                max,
            )[i].0 <= max,
        forall|x: int| #[trigger]
            holds_sample(bounded(segments, max), x) == holds_sample(segments, x),
{
    lemma_all_pieces(segments, segments.len() as int, max, n);
    let r = bounded(segments, max);
    assert forall|x: int| #[trigger] holds_sample(r, x) == holds_sample(segments, x) by {
        if holds_sample(segments, x) {
            let c = choose|c: int|
                #![trigger segments[c]]
                0 <= c < segments.len() && segments[c].0 <= x < segments[c].1;
            assert(holds_sample(r, x));
        }
        if holds_sample(r, x) {
            lemma_pieces_inside(segments, segments.len() as int, max, x);
        }
    }
}

proof fn lemma_pieces_inside(segments: Seq<(int, int)>, k: int, max: int, x: int)
    requires
        max > 0,
        0 <= k <= segments.len(),
        forall|i: int| #![trigger segments[i]] 0 <= i < segments.len() ==> segments[i].0
            < segments[i].1,
        holds_sample(all_pieces(segments, k, max), x),
    ensures
        holds_sample(segments, x),
    decreases k,
{
    if k > 0 {
        let prev = all_pieces(segments, k - 1, max);
        let (start, end) = segments[k - 1];
        let new = pieces(start, end, max);
        lemma_pieces(start, end, max);
        let r = all_pieces(segments, k, max);
        let c = choose|c: int| #![trigger r[c]] 0 <= c < r.len() && r[c].0 <= x < r[c].1;
        if c < prev.len() {
            assert(prev[c] == r[c]);
            lemma_pieces_inside(segments, k - 1, max, x);
        } else {
            assert(new[c - prev.len()] == r[c]);
            assert(segments[k - 1].0 <= x < segments[k - 1].1);
        }
    }
}

/// Speech regions are not empty, lie within the audio one behind the other, and are no
/// longer than the bound.
pub proof fn law_regions_ordered(flags: Seq<bool>, w: int, n: int, max: int)
    requires
        flags.len() > 0,
        framed(flags.len() as int, w, n),
    ensures
        ordered(regions(flags, w, n, max), n),
        max > 0 ==> forall|i: int|
            #![trigger regions(flags, w, n, max)[i]]
            0 <= i < regions(flags, w, n, max).len() ==> regions(flags, w, n, max)[i].1 - regions(
                flags,
                w,
                n,
                max,
            )[i].0 <= max,
{
    let raw = raw_regions(flags, w, n);
    lemma_raw(flags, w, n);
    lemma_padded(raw, raw.len() as int, PADDING_FRAMES * w, n);
    let wide = padded(raw, raw.len() as int, PADDING_FRAMES * w, n);
    if max > 0 {
        lemma_all_pieces(wide, wide.len() as int, max, n);
    }
}

/// No speech is lost: every sample of a frame with speech lies in a region.
pub proof fn law_regions_cover_speech(flags: Seq<bool>, w: int, n: int, max: int, i: int, x: int)
    requires
        framed(flags.len() as int, w, n),
        0 <= i < flags.len(),
        flags[i],
        i * w <= x < frame_end(i, w, n),
    ensures
        holds_sample(regions(flags, w, n, max), x),
{
    let raw = raw_regions(flags, w, n);
    lemma_raw(flags, w, n);
    lemma_padded(raw, raw.len() as int, PADDING_FRAMES * w, n);
    let wide = padded(raw, raw.len() as int, PADDING_FRAMES * w, n);
    assert(covered(raw, i * w, frame_end(i, w, n)));
    let c = choose|c: int|
        #![trigger raw[c]]
        0 <= c < raw.len() && raw[c].0 <= i * w && frame_end(i, w, n) <= raw[c].1;
    assert(covered(wide, raw[c].0, raw[c].1));
    let e = choose|e: int|
        #![trigger wide[e]]
        0 <= e < wide.len() && wide[e].0 <= raw[c].0 && raw[c].1 <= wide[e].1;
    assert(wide[e].0 <= x < wide[e].1);
    if max > 0 {
        lemma_all_pieces(wide, wide.len() as int, max, n);
        assert(holds_sample(all_pieces(wide, wide.len() as int, max), x));
    }
}

/// Audio without a frame with speech has no region.
pub proof fn law_silence_has_no_region(flags: Seq<bool>, w: int, n: int, max: int)
    requires
        forall|i: int| 0 <= i < flags.len() ==> !#[trigger] flags[i],
    ensures
        regions(flags, w, n, max).len() == 0,
{
    lemma_silent_scan(flags, flags.len() as int, w, n);
}

proof fn lemma_silent_scan(flags: Seq<bool>, k: int, w: int, n: int)
    requires
        0 <= k <= flags.len(),
        forall|i: int| 0 <= i < flags.len() ==> !#[trigger] flags[i],
    ensures
        scan(flags, k, w, n).closed.len() == 0,
        scan(flags, k, w, n).open is None,
    decreases k,
{
    if k > 0 {
        lemma_silent_scan(flags, k - 1, w, n);
    }
}

} // verus!
