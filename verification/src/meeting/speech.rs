//! Speech regions: from frames with and without speech to sample ranges.
use vstd::prelude::*;

verus! {

/// Silent frames in a row that end a region.
pub const HANGOVER_FRAMES: usize = 25;

/// Frames of padding on either side of a region.
pub const PADDING_FRAMES: usize = 6;

/// Frames with speech that a chunk needs to count as one with speech.
pub const MIN_SPEECH_FRAMES: usize = 8;

/// A region that is still growing.
pub struct OpenRegion {
    pub start: int,
    /// The end of the last frame with speech.
    pub end: int,
    /// The silent frames since then.
    pub silent: int,
}

/// The regions found so far, and the one that is still growing.
pub struct Scan {
    pub closed: Seq<(int, int)>,
    pub open: Option<OpenRegion>,
}

/// The first sample behind frame `i`, of frames of `w` samples over `n` samples.
pub open spec fn frame_end(i: int, w: int, n: int) -> int {
    if (i + 1) * w < n {
        (i + 1) * w
    } else {
        n
    }
}

/// The frames with speech among the first `k`.
pub open spec fn speech_count(flags: Seq<bool>, k: int) -> nat
    decreases k,
{
    if k <= 0 {
        0
    } else {
        speech_count(flags, k - 1) + if flags[k - 1] {
            1nat
        } else {
            0nat
        }
    }
}

/// What the first `k` frames show: a region runs from a frame with speech to the last
/// one before a pause of [`HANGOVER_FRAMES`].
pub open spec fn scan(flags: Seq<bool>, k: int, w: int, n: int) -> Scan
    decreases k,
{
    if k <= 0 {
        Scan { closed: Seq::empty(), open: None }
    } else {
        let prev = scan(flags, k - 1, w, n);
        let end = frame_end(k - 1, w, n);
        if flags[k - 1] {
            match prev.open {
                None => Scan {
                    closed: prev.closed,
                    open: Some(OpenRegion { start: (k - 1) * w, end, silent: 0 }),
                },
                Some(o) => Scan {
                    closed: prev.closed,
                    open: Some(OpenRegion { start: o.start, end, silent: 0 }),
                },
            }
        } else {
            match prev.open {
                None => prev,
                Some(o) => if o.silent + 1 >= HANGOVER_FRAMES {
                    Scan { closed: prev.closed.push((o.start, o.end)), open: None }
                } else {
                    Scan {
                        closed: prev.closed,
                        open: Some(OpenRegion { start: o.start, end: o.end, silent: o.silent + 1 }),
                    }
                },
            }
        }
    }
}

/// The regions of all frames; one that is still growing runs to the end.
pub open spec fn raw_regions(flags: Seq<bool>, w: int, n: int) -> Seq<(int, int)> {
    let s = scan(flags, flags.len() as int, w, n);
    match s.open {
        None => s.closed,
        Some(o) => s.closed.push((o.start, n)),
    }
}

/// The first `k` regions with `p` samples of padding on either side, those that touch
/// made one.
pub open spec fn padded(regions: Seq<(int, int)>, k: int, p: int, n: int) -> Seq<(int, int)>
    decreases k,
{
    if k <= 0 {
        Seq::empty()
    } else {
        let prev = padded(regions, k - 1, p, n);
        let (start, end) = regions[k - 1];
        let a = if start > p {
            start - p
        } else {
            0
        };
        let b = if end + p < n {
            end + p
        } else {
            n
        };
        if prev.len() > 0 && a <= prev.last().1 {
            let last = prev.last();
            prev.drop_last().push(
                (
                    if last.0 < a {
                        last.0
                    } else {
                        a
                    },
                    if last.1 > b {
                        last.1
                    } else {
                        b
                    },
                ),
            )
        } else {
            prev.push((a, b))
        }
    }
}

/// The range from `start` to `end` in pieces of at most `max`.
pub open spec fn pieces(start: int, end: int, max: int) -> Seq<(int, int)>
    decreases end - start,
{
    if max > 0 && end - start > max {
        seq![(start, start + max)] + pieces(start + max, end, max)
    } else if end > start {
        seq![(start, end)]
    } else {
        Seq::empty()
    }
}

/// The first `k` ranges in pieces of at most `max`.
pub open spec fn all_pieces(segments: Seq<(int, int)>, k: int, max: int) -> Seq<(int, int)>
    decreases k,
{
    if k <= 0 {
        Seq::empty()
    } else {
        all_pieces(segments, k - 1, max) + pieces(segments[k - 1].0, segments[k - 1].1, max)
    }
}

/// Ranges in pieces of at most `max`, where there is a bound at all.
pub open spec fn bounded(segments: Seq<(int, int)>, max: int) -> Seq<(int, int)> {
    if max <= 0 {
        segments
    } else {
        all_pieces(segments, segments.len() as int, max)
    }
}

/// The speech regions of `n` samples in frames of `w`, in pieces of at most `max`.
pub open spec fn regions(flags: Seq<bool>, w: int, n: int, max: int) -> Seq<(int, int)> {
    let raw = raw_regions(flags, w, n);
    bounded(padded(raw, raw.len() as int, PADDING_FRAMES * w, n), max)
}

/// Ranges as pairs of numbers.
pub open spec fn pairs(v: Seq<(usize, usize)>) -> Seq<(int, int)> {
    v.map_values(|r: (usize, usize)| (r.0 as int, r.1 as int))
}

proof fn lemma_pairs_push(v: Seq<(usize, usize)>, a: usize, b: usize)
    ensures
        pairs(v.push((a, b))) == pairs(v).push((a as int, b as int)),
{
    assert(pairs(v.push((a, b))) =~= pairs(v).push((a as int, b as int)));
}

/// Splits ranges that are longer than `max_segment_samples`; zero is no bound.
pub fn split_long_segments(segments: Vec<(usize, usize)>, max_segment_samples: usize) -> (r: Vec<
    (usize, usize),
>)
    ensures
        pairs(r@) == bounded(pairs(segments@), max_segment_samples as int),
{
    if max_segment_samples == 0 {
        return segments;
    }
    let mut result: Vec<(usize, usize)> = Vec::new();
    let ghost max = max_segment_samples as int;
    let ghost all = pairs(segments@);
    let mut i: usize = 0;
    assert(pairs(result@) =~= all_pieces(all, 0, max));
    while i < segments.len()
        invariant
            i <= segments.len(),
            max == max_segment_samples,
            max > 0,
            all == pairs(segments@),
            pairs(result@) == all_pieces(all, i as int, max),
        decreases segments.len() - i,
    {
        let (start, end) = segments[i];
        let mut current: usize = start;
        let ghost before = pairs(result@);
        assert(pairs(result@) + pieces(start as int, end as int, max) =~= all_pieces(
            all,
            i + 1,
            max,
        ));
        while end.saturating_sub(current) > max_segment_samples
            invariant
                max == max_segment_samples,
                max > 0,
                pairs(result@) + pieces(current as int, end as int, max) == all_pieces(
                    all,
                    i + 1,
                    max,
                ),
            decreases end - current,
        {
            let split_end: usize = current + max_segment_samples;
            let ghost old = pairs(result@);
            result.push((current, split_end));
            proof {
                let rest = pieces(split_end as int, end as int, max);
                assert(pairs(result@) =~= old.push((current as int, split_end as int)));
                assert(pairs(result@) + rest =~= old + (seq![(current as int, split_end as int)]
                    + rest));
            }
            current = split_end;
        }
        if end > current {
            let ghost old = pairs(result@);
            result.push((current, end));
            assert(pairs(result@) =~= old.push((current as int, end as int)));
            assert(pairs(result@) =~= old + seq![(current as int, end as int)]);
        } else {
            assert(pairs(result@) + Seq::<(int, int)>::empty() =~= pairs(result@));
        }
        i = i + 1;
    }
    result
}

/// The number of frames with speech.
pub fn count_speech(flags: &Vec<bool>) -> (r: usize)
    ensures
        r == speech_count(flags@, flags.len() as int),
        r <= flags.len(),
{
    let mut n: usize = 0;
    let mut i: usize = 0;
    while i < flags.len()
        invariant
            i <= flags.len(),
            n == speech_count(flags@, i as int),
            n <= i,
        decreases flags.len() - i,
    {
        if flags[i] {
            n = n + 1;
        }
        i = i + 1;
    }
    n
}

/// Finds the regions of all frames.
fn find_raw(flags: &Vec<bool>, w: usize, n: usize) -> (r: Vec<(usize, usize)>)
    requires
        w > 0,
        (flags.len() - 1) * w < n,
    ensures
        pairs(r@) == raw_regions(flags@, w as int, n as int),
{
    let mut closed: Vec<(usize, usize)> = Vec::new();
    let mut in_speech: bool = false;
    let mut start: usize = 0;
    let mut end: usize = 0;
    let mut silent: usize = 0;
    let mut i: usize = 0;
    // the first sample of frame `i`, where there is one
    let mut at: usize = 0;
    assert(pairs(closed@) =~= Seq::empty());
    while i < flags.len()
        invariant
            i <= flags.len(),
            w > 0,
            (flags.len() - 1) * w < n,
            i < flags.len() ==> at == i * w,
            silent < HANGOVER_FRAMES,
            ({
                let s = scan(flags@, i as int, w as int, n as int);
                &&& pairs(closed@) == s.closed
                &&& in_speech <==> s.open is Some
                &&& s.open matches Some(o) ==> o.start == start && o.end == end && o.silent
                    == silent
                &&& s.open is None ==> silent == 0
            }),
        decreases flags.len() - i,
    {
        proof {
            assert(i * w <= (flags.len() - 1) * w) by (nonlinear_arith)
                requires
                    i <= flags.len() - 1,
                    w > 0,
            ;
            assert((i + 1) * w == i * w + w) by (nonlinear_arith);
            if i + 1 < flags.len() {
                assert((i + 1) * w <= (flags.len() - 1) * w) by (nonlinear_arith)
                    requires
                        i + 1 <= flags.len() - 1,
                        w > 0,
                ;
            }
        }
        let next: usize = if n - at > w { at + w } else { n };
        if flags[i] {
            silent = 0;
            if !in_speech {
                in_speech = true;
                start = at;
            }
            end = next;
        } else if in_speech {
            silent = silent + 1;
            if silent >= HANGOVER_FRAMES {
                proof {
                    lemma_pairs_push(closed@, start, end);
                }
                closed.push((start, end));
                in_speech = false;
                silent = 0;
            }
        }
        at = next;
        i = i + 1;
    }
    if in_speech {
        proof {
            lemma_pairs_push(closed@, start, n);
        }
        closed.push((start, n));
    }
    closed
}

/// Pads regions and joins those that touch.
fn pad(raw: &Vec<(usize, usize)>, p: usize, n: usize) -> (r: Vec<(usize, usize)>)
    ensures
        pairs(r@) == padded(pairs(raw@), raw.len() as int, p as int, n as int),
{
    let mut out: Vec<(usize, usize)> = Vec::new();
    let mut i: usize = 0;
    assert(pairs(out@) =~= Seq::empty());
    while i < raw.len()
        invariant
            i <= raw.len(),
            pairs(out@) == padded(pairs(raw@), i as int, p as int, n as int),
        decreases raw.len() - i,
    {
        let (start, end) = raw[i];
        let a: usize = start.saturating_sub(p);
        let wide: usize = end.saturating_add(p);
        let b: usize = if wide < n { wide } else { n };
        let len: usize = out.len();
        let ghost prev = pairs(out@);
        if len > 0 && a <= out[len - 1].1 {
            let (la, lb) = out[len - 1];
            let na: usize = if la < a { la } else { a };
            let nb: usize = if lb > b { lb } else { b };
            out.set(len - 1, (na, nb));
            assert(pairs(out@) =~= prev.drop_last().push((na as int, nb as int)));
        } else {
            out.push((a, b));
            assert(pairs(out@) =~= prev.push((a as int, b as int)));
        }
        i = i + 1;
    }
    out
}

/// Finds the speech regions of `n` samples in frames of `w`, in pieces of at most `max`.
pub fn find_regions(flags: &Vec<bool>, w: usize, n: usize, max: usize) -> (r: Vec<(usize, usize)>)
    requires
        w > 0,
        (flags.len() - 1) * w < n,
        PADDING_FRAMES * w <= usize::MAX,
    ensures
        pairs(r@) == regions(flags@, w as int, n as int, max as int),
{
    let raw: Vec<(usize, usize)> = find_raw(flags, w, n);
    let wide: Vec<(usize, usize)> = pad(&raw, PADDING_FRAMES * w, n);
    split_long_segments(wide, max)
}

} // verus!
