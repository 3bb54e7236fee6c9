//! Speech regions are turns: stretches of speech between long pauses, with padding.
use vstd::prelude::*;
use crate::float32::Float32;
use crate::meeting::chunk::{frame_size, lemma_frames, loud_frames, speech_regions};
use crate::meeting::speech::{
    all_pieces, bounded, frame_end, padded, pieces, raw_regions, regions, scan, HANGOVER_FRAMES,
    PADDING_FRAMES,
};
use crate::meeting::speech_laws::{
    covered, framed, law_regions_ordered, lemma_frame_bounds, lemma_raw, ordered,
};

verus! {

/// The frames from `a` on are silent, [`HANGOVER_FRAMES`] of them in a row.
pub open spec fn pause_at(flags: Seq<bool>, a: int) -> bool {
    forall|b: int| #![trigger flags[b]] a <= b < a + HANGOVER_FRAMES ==> !flags[b]
}

/// There is a pause behind frame `i` and before frame `j`.
pub open spec fn paused(flags: Seq<bool>, i: int, j: int) -> bool {
    exists|a: int| i < a && a + HANGOVER_FRAMES <= j && #[trigger] pause_at(flags, a)
}

/// Frames `i` to `j` are a turn: they start and end with speech, no pause lies between
/// them, and a pause lies between them and any other speech.
pub open spec fn turn(flags: Seq<bool>, i: int, j: int) -> bool {
    &&& 0 <= i <= j < flags.len()
    &&& flags[i] && flags[j]
    &&& !paused(flags, i, j)
    &&& forall|a: int| 0 <= a < i && #[trigger] flags[a] ==> paused(flags, a, i)
    &&& forall|b: int| j < b < flags.len() && #[trigger] flags[b] ==> paused(flags, j, b)
}

/// Where a turn that ends with frame `j` ends: with that frame, or with the audio where no
/// whole pause follows.
pub open spec fn turn_end(frames: int, j: int, w: int, n: int) -> int {
    if frames - 1 - j < HANGOVER_FRAMES {
        n
    } else {
        frame_end(j, w, n)
    }
}

/// The range of the turn from `i` to `j`.
pub open spec fn turn_range(flags: Seq<bool>, i: int, j: int, w: int, n: int) -> (int, int) {
    (i * w, turn_end(flags.len() as int, j, w, n))
}

/// The range of the turn from `i` to `j` with [`PADDING_FRAMES`] on either side, as far as
/// there is audio.
pub open spec fn padded_turn(flags: Seq<bool>, i: int, j: int, w: int, n: int) -> (int, int) {
    let (start, end) = turn_range(flags, i, j, w, n);
    let p = PADDING_FRAMES * w;
    (
        if start < p {
            0
        } else {
            start - p
        },
        if end + p > n {
            n
        } else {
            end + p
        },
    )
}

/// Frames `i` to `j` are all of the speech since the last pause before frame `k`.
spec fn open_turn(flags: Seq<bool>, i: int, j: int, k: int) -> bool {
    &&& 0 <= i <= j < k
    &&& flags[i] && flags[j]
    &&& !paused(flags, i, j)
    &&& forall|a: int| 0 <= a < i && #[trigger] flags[a] ==> paused(flags, a, i)
    &&& forall|b: int| j < b < k ==> !#[trigger] flags[b]
}

spec fn open_as(flags: Seq<bool>, k: int, w: int, n: int, start: int, end: int, silent: int) -> bool {
    exists|i: int, j: int|
        #[trigger] open_turn(flags, i, j, k) && start == i * w && end == frame_end(j, w, n)
            && silent == k - 1 - j && silent < HANGOVER_FRAMES
}

spec fn closed_as(flags: Seq<bool>, k: int, w: int, n: int, r: (int, int)) -> bool {
    exists|i: int, j: int|
        #[trigger] open_turn(flags, i, j, j + 1 + HANGOVER_FRAMES) && j + 1 + HANGOVER_FRAMES <= k
            && r == (i * w, frame_end(j, w, n))
}

/// No pause lies within less time than a pause takes.
proof fn lemma_short(flags: Seq<bool>, i: int, m: int, j: int)
    requires
        0 <= i < m < j <= flags.len(),
        !paused(flags, i, m),
        flags[m],
        forall|b: int| m < b < j ==> !#[trigger] flags[b],
        j - m - 1 < HANGOVER_FRAMES,
    ensures
        !paused(flags, i, j),
{
    if paused(flags, i, j) {
        let a = choose|a: int| i < a && a + HANGOVER_FRAMES <= j && #[trigger] pause_at(flags, a);
        if a + HANGOVER_FRAMES <= m {
            assert(paused(flags, i, m));
        } else {
            assert(a <= m < a + HANGOVER_FRAMES);
            assert(!flags[m]);
        }
    }
}

proof fn lemma_scan_turns(flags: Seq<bool>, k: int, w: int, n: int)
    requires
        0 <= k <= flags.len(),
    ensures
        ({
            let s = scan(flags, k, w, n);
            &&& match s.open {
                Some(o) => open_as(flags, k, w, n, o.start, o.end, o.silent),
                None => forall|a: int| 0 <= a < k && #[trigger] flags[a] ==> paused(flags, a, k),
            }
            &&& forall|c: int|
                #![trigger s.closed[c]]
                0 <= c < s.closed.len() ==> closed_as(flags, k, w, n, s.closed[c])
        }),
    decreases k,
{
    if k > 0 {
        lemma_scan_turns(flags, k - 1, w, n);
        let prev = scan(flags, k - 1, w, n);
        let s = scan(flags, k, w, n);
        match prev.open {
            None => {
                if flags[k - 1] {
                    assert(!paused(flags, k - 1, k - 1));
                    assert(open_turn(flags, k - 1, k - 1, k));
                } else {
                    assert forall|a: int| 0 <= a < k && #[trigger] flags[a] implies paused(
                        flags,
                        a,
                        k,
                    ) by {
                        assert(paused(flags, a, k - 1));
                        let b = choose|b: int|
                            a < b && b + HANGOVER_FRAMES <= k - 1 && #[trigger] pause_at(flags, b);
                        assert(pause_at(flags, b));
                    }
                }
            },
            Some(o) => {
                let (i, j) = choose|i: int, j: int|
                    #[trigger] open_turn(flags, i, j, k - 1) && o.start == i * w && o.end
                        == frame_end(j, w, n) && o.silent == k - 2 - j && o.silent
                        < HANGOVER_FRAMES;
                if flags[k - 1] {
                    if i < j {
                        lemma_short(flags, i, j, k - 1);
                    } else {
                        assert(!paused(flags, i, k - 1));
                    }
                    assert(open_turn(flags, i, k - 1, k));
                } else {
                    assert(open_turn(flags, i, j, k));
                    if o.silent + 1 >= HANGOVER_FRAMES {
                        assert(k == j + 1 + HANGOVER_FRAMES);
                        assert(pause_at(flags, j + 1));
                        assert(closed_as(flags, k, w, n, (o.start, o.end)));
                        assert forall|a: int| 0 <= a < k && #[trigger] flags[a] implies paused(
                            flags,
                            a,
                            k,
                        ) by {
                            assert(a <= j);
                            assert(a < j + 1 && j + 1 + HANGOVER_FRAMES <= k && pause_at(
                                flags,
                                j + 1,
                            ));
                        }
                    }
                }
            },
        }
        assert forall|c: int|
            #![trigger s.closed[c]]
            0 <= c < s.closed.len() implies closed_as(flags, k, w, n, s.closed[c]) by {
            if c < prev.closed.len() {
                assert(s.closed[c] == prev.closed[c]);
                let (i, j) = choose|i: int, j: int|
                    #[trigger] open_turn(flags, i, j, j + 1 + HANGOVER_FRAMES) && j + 1
                        + HANGOVER_FRAMES <= k - 1 && prev.closed[c] == (
                        i * w,
                        frame_end(j, w, n),
                    );
                assert(open_turn(flags, i, j, j + 1 + HANGOVER_FRAMES));
            }
        }
    }
}

/// A range is that of a turn.
pub open spec fn is_turn(flags: Seq<bool>, w: int, n: int, r: (int, int)) -> bool {
    exists|i: int, j: int| #[trigger] turn(flags, i, j) && r == turn_range(flags, i, j, w, n)
}

/// Every region that is found is a turn.
proof fn lemma_raw_turns(flags: Seq<bool>, w: int, n: int)
    ensures
        forall|c: int|
            #![trigger raw_regions(flags, w, n)[c]]
            0 <= c < raw_regions(flags, w, n).len() ==> is_turn(
                flags,
                w,
                n,
                raw_regions(flags, w, n)[c],
            ),
{
    let k = flags.len() as int;
    lemma_scan_turns(flags, k, w, n);
    let s = scan(flags, k, w, n);
    let raw = raw_regions(flags, w, n);
    assert forall|c: int| #![trigger raw[c]] 0 <= c < raw.len() implies is_turn(
        flags,
        w,
        n,
        raw[c],
    ) by {
        if c < s.closed.len() {
            assert(raw[c] == s.closed[c]);
            let (i, j) = choose|i: int, j: int|
                #[trigger] open_turn(flags, i, j, j + 1 + HANGOVER_FRAMES) && j + 1
                    + HANGOVER_FRAMES <= k && s.closed[c] == (i * w, frame_end(j, w, n));
            assert(pause_at(flags, j + 1));
            assert forall|b: int| j < b < flags.len() && #[trigger] flags[b] implies paused(
                flags,
                j,
                b,
            ) by {
                assert(j < j + 1 && j + 1 + HANGOVER_FRAMES <= b && pause_at(flags, j + 1));
            }
            assert(turn(flags, i, j));
            assert(raw[c] == turn_range(flags, i, j, w, n));
        } else {
            let o = s.open->0;
            let (i, j) = choose|i: int, j: int|
                #[trigger] open_turn(flags, i, j, k) && o.start == i * w && o.end == frame_end(
                    j,
                    w,
                    n,
                ) && o.silent == k - 1 - j && o.silent < HANGOVER_FRAMES;
            assert(turn(flags, i, j));
            assert(raw[c] == turn_range(flags, i, j, w, n));
        }
    }
}

/// The turn that a region is.
proof fn lemma_raw_turn(flags: Seq<bool>, w: int, n: int, c: int) -> (r: (int, int))
    requires
        0 <= c < raw_regions(flags, w, n).len(),
    ensures
        turn(flags, r.0, r.1),
        raw_regions(flags, w, n)[c] == turn_range(flags, r.0, r.1, w, n),
{
    lemma_raw_turns(flags, w, n);
    let raw = raw_regions(flags, w, n);
    assert(is_turn(flags, w, n, raw[c]));
    choose|i: int, j: int|
        #[trigger] turn(flags, i, j) && raw[c] == turn_range(flags, i, j, w, n)
}

/// The region that holds a frame with speech.
proof fn lemma_raw_holds(flags: Seq<bool>, w: int, n: int, x: int) -> (c: int)
    requires
        framed(flags.len() as int, w, n),
        0 <= x < flags.len(),
        flags[x],
    ensures
        0 <= c < raw_regions(flags, w, n).len(),
        raw_regions(flags, w, n)[c].0 <= x * w,
        frame_end(x, w, n) <= raw_regions(flags, w, n)[c].1,
{
    lemma_raw(flags, w, n);
    let raw = raw_regions(flags, w, n);
    assert(covered(raw, x * w, frame_end(x, w, n)));
    choose|c: int|
        #![trigger raw[c]]
        0 <= c < raw.len() && raw[c].0 <= x * w && frame_end(x, w, n) <= raw[c].1
}

proof fn lemma_raw_ordered(flags: Seq<bool>, w: int, n: int)
    requires
        flags.len() > 0,
        framed(flags.len() as int, w, n),
    ensures
        ordered(raw_regions(flags, w, n), n),
{
    lemma_raw(flags, w, n);
}

proof fn lemma_products(a: int, b: int, w: int)
    requires
        w > 0,
    ensures
        a < b <==> a * w < b * w,
        a <= b <==> a * w <= b * w,
{
    assert(a < b <==> a * w < b * w) by (nonlinear_arith)
        requires
            w > 0,
    ;
    assert(a <= b <==> a * w <= b * w) by (nonlinear_arith)
        requires
            w > 0,
    ;
}

/// A pause between two frames is one between frames around them.
proof fn lemma_wider_pause(flags: Seq<bool>, i: int, j: int, a: int, b: int)
    requires
        a <= i,
        j <= b,
        paused(flags, i, j),
    ensures
        paused(flags, a, b),
{
    let c = choose|c: int| i < c && c + HANGOVER_FRAMES <= j && #[trigger] pause_at(flags, c);
    assert(a < c && c + HANGOVER_FRAMES <= b && pause_at(flags, c));
}

/// Frame `x` with speech lies in the range of the turn only if it is part of the turn.
proof fn lemma_in_turn(flags: Seq<bool>, i: int, j: int, x: int, w: int, n: int)
    requires
        framed(flags.len() as int, w, n),
        turn(flags, i, j),
        0 <= x < flags.len(),
        flags[x],
        turn_range(flags, i, j, w, n).0 <= x * w,
        frame_end(x, w, n) <= turn_range(flags, i, j, w, n).1,
    ensures
        i <= x <= j,
{
    let k = flags.len() as int;
    lemma_products(i, x, w);
    if x > j {
        assert(paused(flags, j, x));
        let a = choose|a: int| j < a && a + HANGOVER_FRAMES <= x && #[trigger] pause_at(flags, a);
        assert(k - 1 - j >= HANGOVER_FRAMES);
        lemma_frame_bounds(x, k, w, n);
        lemma_frame_bounds(j, k, w, n);
        lemma_products(j + 1, x, w);
    }
}

/// Turns that lie one behind the other lie further apart than padding reaches.
proof fn lemma_turns_apart(flags: Seq<bool>, w: int, n: int, c: int, d: int)
    requires
        flags.len() > 0,
        framed(flags.len() as int, w, n),
        0 <= c < d < raw_regions(flags, w, n).len(),
    ensures
        raw_regions(flags, w, n)[c].1 + 2 * (PADDING_FRAMES * w) < raw_regions(flags, w, n)[d].0,
        raw_regions(flags, w, n)[c].1 < n,
{
    let raw = raw_regions(flags, w, n);
    let k = flags.len() as int;
    lemma_raw_ordered(flags, w, n);
    let (i, j) = lemma_raw_turn(flags, w, n, c);
    let (p, q) = lemma_raw_turn(flags, w, n, d);
    assert(raw[c].1 <= raw[d].0 < raw[d].1 <= n);
    lemma_frame_bounds(j, k, w, n);
    lemma_frame_bounds(p, k, w, n);
    // the second turn starts behind the end of the first
    assert(p > j) by {
        if p <= j {
            lemma_products(p, j, w);
        }
    }
    assert(flags[p] && paused(flags, j, p));
    let a = choose|a: int| j < a && a + HANGOVER_FRAMES <= p && #[trigger] pause_at(flags, a);
    assert(p >= j + 1 + HANGOVER_FRAMES);
    lemma_products(j + 1 + HANGOVER_FRAMES, p, w);
    assert((j + 1 + HANGOVER_FRAMES) * w == (j + 1) * w + HANGOVER_FRAMES * w) by (nonlinear_arith);
    assert(HANGOVER_FRAMES * w > 2 * (PADDING_FRAMES * w)) by (nonlinear_arith)
        requires
            w > 0,
            HANGOVER_FRAMES > 2 * PADDING_FRAMES,
    ;
    assert(frame_end(j, w, n) <= (j + 1) * w);
}

/// Where regions lie further apart than padding reaches, padding joins none.
proof fn lemma_padded_apart(raw: Seq<(int, int)>, k: int, p: int, n: int)
    requires
        0 <= k <= raw.len(),
        p >= 0,
        ordered(raw, n),
        forall|c: int, d: int|
            #![trigger raw[c], raw[d]]
            0 <= c < d < raw.len() ==> raw[c].1 + 2 * p < raw[d].0,
    ensures
        padded(raw, k, p, n).len() == k,
        forall|c: int|
            #![trigger padded(raw, k, p, n)[c]]
            0 <= c < k ==> padded(raw, k, p, n)[c] == (
                if raw[c].0 < p {
                    0int
                } else {
                    raw[c].0 - p
                },
                if raw[c].1 + p > n {
                    n
                } else {
                    raw[c].1 + p
                },
            ),
    decreases k,
{
    if k > 0 {
        lemma_padded_apart(raw, k - 1, p, n);
        let prev = padded(raw, k - 1, p, n);
        if k > 1 {
            assert(prev.last() == prev[k - 2]);
            assert(raw[k - 2].1 + 2 * p < raw[k - 1].0);
        }
    }
}

proof fn lemma_regions_are_turns(flags: Seq<bool>, w: int, n: int)
    requires
        flags.len() > 0,
        framed(flags.len() as int, w, n),
    ensures
        ({
            let raw = raw_regions(flags, w, n);
            let r = regions(flags, w, n, 0);
            &&& r.len() == raw.len()
            &&& forall|c: int, i: int, j: int|
                #![trigger r[c], turn(flags, i, j)]
                0 <= c < r.len() && turn(flags, i, j) && raw[c] == turn_range(flags, i, j, w, n)
                    ==> r[c] == padded_turn(flags, i, j, w, n)
        }),
{
    let raw = raw_regions(flags, w, n);
    let p = PADDING_FRAMES * w;
    lemma_raw_ordered(flags, w, n);
    assert(p >= 0) by (nonlinear_arith)
        requires
            p == PADDING_FRAMES * w,
            w > 0,
    ;
    assert forall|c: int, d: int|
        #![trigger raw[c], raw[d]]
        0 <= c < d < raw.len() implies raw[c].1 + 2 * p < raw[d].0 by {
        lemma_turns_apart(flags, w, n, c, d);
    }
    lemma_padded_apart(raw, raw.len() as int, p, n);
}

/// A range is that of a turn with its padding.
pub open spec fn is_padded_turn(flags: Seq<bool>, w: int, n: int, r: (int, int)) -> bool {
    exists|i: int, j: int| #[trigger] turn(flags, i, j) && r == padded_turn(flags, i, j, w, n)
}

/// Before they are bounded in length, speech regions are exactly the turns, with their
/// padding: every region is a turn, and every turn is a region.
pub proof fn law_regions_are_turns(flags: Seq<bool>, w: int, n: int, c: int, i: int, j: int)
    requires
        flags.len() > 0,
        framed(flags.len() as int, w, n),
    ensures
        0 <= c < regions(flags, w, n, 0).len() ==> is_padded_turn(
            flags,
            w,
            n,
            regions(flags, w, n, 0)[c],
        ),
        turn(flags, i, j) ==> regions(flags, w, n, 0).contains(padded_turn(flags, i, j, w, n)),
{
    let r = regions(flags, w, n, 0);
    lemma_regions_are_turns(flags, w, n);
    if 0 <= c < r.len() {
        let (p, q) = lemma_raw_turn(flags, w, n, c);
        assert(turn(flags, p, q) && r[c] == padded_turn(flags, p, q, w, n));
    }
    if turn(flags, i, j) {
        let d = lemma_turn_is_raw(flags, i, j, w, n);
        assert(r[d] == padded_turn(flags, i, j, w, n));
    }
}

/// Every turn is found.
proof fn lemma_turn_is_raw(flags: Seq<bool>, i: int, j: int, w: int, n: int) -> (c: int)
    requires
        flags.len() > 0,
        framed(flags.len() as int, w, n),
        turn(flags, i, j),
    ensures
        0 <= c < raw_regions(flags, w, n).len(),
        raw_regions(flags, w, n)[c] == turn_range(flags, i, j, w, n),
{
    let raw = raw_regions(flags, w, n);
    let c = lemma_raw_holds(flags, w, n, i);
    let (p, q) = lemma_raw_turn(flags, w, n, c);
    lemma_in_turn(flags, p, q, i, w, n);
    assert(flags[p] && flags[q]);
    if p < i {
        assert(paused(flags, p, i));
        lemma_wider_pause(flags, p, i, p, q);
    }
    if q > j {
        assert(paused(flags, j, q));
        lemma_wider_pause(flags, j, q, p, q);
    } else if q < j {
        assert(paused(flags, q, j));
        lemma_wider_pause(flags, q, j, i, j);
    }
    c
}

/// Two frames with speech lie in one region, before regions are bounded in length, exactly
/// where no pause lies between them: shorter silences never add up to one.
pub proof fn law_only_pauses_part_speech(flags: Seq<bool>, w: int, n: int, i: int, j: int)
    requires
        framed(flags.len() as int, w, n),
        0 <= i <= j < flags.len(),
        flags[i],
        flags[j],
    ensures
        covered(regions(flags, w, n, 0), i * w, frame_end(j, w, n)) <==> !paused(flags, i, j),
{
    let raw = raw_regions(flags, w, n);
    let r = regions(flags, w, n, 0);
    let k = flags.len() as int;
    lemma_regions_are_turns(flags, w, n);
    law_regions_ordered(flags, w, n, 0);
    lemma_frame_bounds(i, k, w, n);
    lemma_frame_bounds(j, k, w, n);
    let c = lemma_raw_holds(flags, w, n, i);
    let (p, q) = lemma_raw_turn(flags, w, n, c);
    lemma_in_turn(flags, p, q, i, w, n);
    assert(r[c] == padded_turn(flags, p, q, w, n));
    assert(PADDING_FRAMES * w >= 0) by (nonlinear_arith)
        requires
            w > 0,
    ;
    if !paused(flags, i, j) {
        if j > q {
            assert(paused(flags, q, j));
            lemma_wider_pause(flags, q, j, i, j);
        }
        lemma_frame_bounds(q, k, w, n);
        if j < q {
            lemma_products(j + 1, q, w);
        }
        assert(r[c].0 <= i * w && frame_end(j, w, n) <= r[c].1);
    } else {
        if covered(r, i * w, frame_end(j, w, n)) {
            let d = choose|d: int|
                #![trigger r[d]]
                0 <= d < r.len() && r[d].0 <= i * w && frame_end(j, w, n) <= r[d].1;
            lemma_products(i, j, w);
            assert(r[c].0 <= i * w < r[c].1);
            assert(d == c) by {
                if c < d {
                    assert(r[c].1 <= r[d].0);
                } else if d < c {
                    assert(r[d].1 <= r[c].0);
                }
            }
            // the last frame lies in a turn as well, which can be no other
            let e = lemma_raw_holds(flags, w, n, j);
            let (s, t) = lemma_raw_turn(flags, w, n, e);
            assert(r[e] == padded_turn(flags, s, t, w, n));
            assert(r[e].0 <= j * w < r[e].1);
            assert(e == c) by {
                if c < e {
                    assert(r[c].1 <= r[e].0);
                } else if e < c {
                    assert(r[e].1 <= r[c].0);
                }
            }
            lemma_in_turn(flags, p, q, j, w, n);
            lemma_wider_pause(flags, i, j, p, q);
        }
    }
}

proof fn lemma_pieces_in_step(start: int, end: int, max: int, i: int)
    requires
        max > 0,
        start < end,
    ensures
        ({
            let r = pieces(start, end, max);
            &&& (r.len() - 1) * max < end - start <= r.len() * max
            &&& 0 <= i < r.len() ==> r[i] == (
                start + i * max,
                if i + 1 < r.len() {
                    start + (i + 1) * max
                } else {
                    end
                },
            )
        }),
    decreases end - start,
{
    let r = pieces(start, end, max);
    assert(0 * max == 0 && 1 * max == max) by (nonlinear_arith);
    if end - start > max {
        let rest = pieces(start + max, end, max);
        lemma_pieces_in_step(start + max, end, max, i - 1);
        assert(r.len() == rest.len() + 1);
        let m = rest.len() as int;
        assert((m + 1) * max == m * max + max) by (nonlinear_arith);
        assert((m - 1) * max == m * max - max) by (nonlinear_arith);
        if 0 < i < r.len() {
            assert(r[i] == rest[i - 1]);
            assert((i - 1) * max == i * max - max) by (nonlinear_arith);
            assert((i + 1) * max == i * max + max) by (nonlinear_arith);
        }
    }
}

/// A range that is too long is cut into pieces of exactly the bound, one behind the other,
/// and what is left; one that is not too long stays as it is.
pub proof fn law_long_ranges_are_cut_in_step(start: int, end: int, max: int, i: int)
    requires
        max > 0,
        start < end,
    ensures
        ({
            let r = bounded(seq![(start, end)], max);
            &&& end - start <= max ==> r == seq![(start, end)]
            &&& (r.len() - 1) * max < end - start <= r.len() * max
            &&& 0 <= i < r.len() ==> r[i] == (
                start + i * max,
                if i + 1 < r.len() {
                    start + (i + 1) * max
                } else {
                    end
                },
            )
        }),
{
    lemma_pieces_in_step(start, end, max, i);
    reveal_with_fuel(all_pieces, 2);
    assert(bounded(seq![(start, end)], max) =~= pieces(start, end, max));
}

/// The pieces of ranges are those of each range, one range behind the other.
pub proof fn law_ranges_are_cut_one_by_one(a: Seq<(int, int)>, b: Seq<(int, int)>, max: int)
    requires
        max > 0,
    ensures
        bounded(a + b, max) == bounded(a, max) + bounded(b, max),
{
    lemma_cut_front(a, b, a.len() as int, max);
    lemma_cut_back(a, b, b.len() as int, max);
}

proof fn lemma_cut_front(a: Seq<(int, int)>, b: Seq<(int, int)>, k: int, max: int)
    requires
        0 <= k <= a.len(),
    ensures
        all_pieces(a + b, k, max) == all_pieces(
            a,
            k,
            max,
        ),
    decreases k,
{
    if k > 0 {
        lemma_cut_front(a, b, k - 1, max);
    }
}

proof fn lemma_cut_back(a: Seq<(int, int)>, b: Seq<(int, int)>, k: int, max: int)
    requires
        0 <= k <= b.len(),
    ensures
        all_pieces(a + b, a.len() + k, max)
            =~= all_pieces(a, a.len() as int, max)
            + all_pieces(b, k, max),
    decreases k,
{
    if k > 0 {
        lemma_cut_back(a, b, k - 1, max);
        assert((a + b)[a.len() + k - 1] == b[k - 1]);
    } else {
        lemma_cut_front(a, b, a.len() as int, max);
    }
}

/// What is transcribed at most in one go is what the turns are cut into: the turns of the loud
/// frames of 30 milliseconds, in pieces of twelve seconds.
pub proof fn law_speech_regions_are_pieces_of_turns(
    samples: Seq<Float32>,
    sample_rate: u32,
    threshold: Float32,
)
    requires
        samples.len() > 0,
        sample_rate * 30 / 1000 > 0,
    ensures
        ({
            let w = (sample_rate * 30 / 1000) as nat;
            let flags = loud_frames(samples, w, threshold);
            let all = speech_regions(samples, sample_rate, threshold);
            &&& all == bounded(
                regions(flags, w as int, samples.len() as int, 0),
                12 * sample_rate as int,
            )
            &&& forall|i: int|
                #![trigger all[i]]
                0 <= i < all.len() ==> all[i].1 - all[i].0 <= 12 * sample_rate
        }),
{
    let w = frame_size(sample_rate);
    let flags = loud_frames(samples, w, threshold);
    let n = samples.len() as int;
    lemma_frames(samples.len(), w);
    law_regions_ordered(flags, w as int, n, 12 * sample_rate as int);
    assert(regions(flags, w as int, n, 12 * sample_rate as int) == speech_regions(
        samples,
        sample_rate,
        threshold,
    ));
}

} // verus!
