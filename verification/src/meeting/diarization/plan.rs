//! Which stretches of audio are embedded.
use vstd::prelude::*;
use crate::float32::{product, quotient, rounded_integer, truncated, Float32};
use crate::meeting::chunk::RATE_16K_BITS;
use crate::meeting::data::TranscriptSegment;
use crate::meeting::diarization::windows::{meets, window_overlaps_transcript};

verus! {

/// The least time between two windows.
pub const HOP_MIN_MS: u64 = 250;

/// The most time between two windows.
pub const HOP_MAX_MS: u64 = 500;

/// 1000.
pub const THOUSAND_BITS: u32 = 0x447a_0000;

/// 4.
pub const FOUR_BITS: u32 = 0x4080_0000;

/// A stretch of audio to be embedded, in samples of the chunk and in milliseconds of the
/// meeting.
#[derive(Clone, Copy, Debug, PartialEq, Eq, Structural)]
pub struct PlannedWindow {
    pub start_sample: usize,
    pub end_sample: usize,
    pub start_ms: u64,
    pub end_ms: u64,
}

/// The number of samples of so many milliseconds.
pub open spec fn samples_of_ms(ms: nat) -> nat {
    ms * 16000 / 1000
}

/// The number of samples of so many seconds.
pub open spec fn samples_of_secs(secs: Float32) -> nat {
    truncated(product(secs, Float32 { bits: RATE_16K_BITS }))
}

/// The number of samples of a window: as configured, but not below the shortest segment.
pub open spec fn window_length(secs: Float32, min_ms: nat) -> nat {
    if samples_of_secs(secs) > samples_of_ms(min_ms) {
        samples_of_secs(secs)
    } else {
        samples_of_ms(min_ms)
    }
}

/// The time between two windows: a quarter of their length, within bounds.
pub open spec fn hop_ms(secs: Float32) -> nat {
    let quarter = rounded_integer(
        quotient(
            product(secs, Float32 { bits: THOUSAND_BITS }),
            Float32 { bits: FOUR_BITS },
        ),
    );
    if quarter < HOP_MIN_MS {
        HOP_MIN_MS as nat
    } else if quarter > HOP_MAX_MS {
        HOP_MAX_MS as nat
    } else {
        quarter
    }
}

/// Where windows of `window` samples start in `count` samples: every `hop` samples, and
/// where the last whole window starts.
pub open spec fn window_starts(count: nat, window: nat, hop: nat) -> Seq<int> {
    if count <= window {
        seq![0int]
    } else {
        let last = count - window;
        let regular = Seq::new((last / hop as int + 1) as nat, |i: int| i * hop);
        if last % hop as int == 0 {
            regular
        } else {
            regular.push(last)
        }
    }
}

/// The time of sample `x` of a chunk.
pub open spec fn sample_time(x: int, chunk_start_ms: u64) -> u64 {
    (chunk_start_ms + x * 1000 / 16000) as u64
}

/// The window of `window` samples from `start` on, as far as there are samples.
pub open spec fn window_at(count: nat, window: nat, start: int, chunk_start_ms: u64) -> PlannedWindow {
    let end = if start + window < count {
        start + window
    } else {
        count as int
    };
    PlannedWindow {
        start_sample: start as usize,
        end_sample: end as usize,
        start_ms: sample_time(start, chunk_start_ms),
        end_ms: sample_time(end, chunk_start_ms),
    }
}

/// Those of the windows that start at the first `k` of `starts` that share time with a
/// segment.
pub open spec fn windows_on(
    starts: Seq<int>,
    k: int,
    count: nat,
    window: nat,
    chunk_start_ms: u64,
    segments: Seq<TranscriptSegment>,
) -> Seq<PlannedWindow>
    decreases k,
{
    if k <= 0 {
        Seq::empty()
    } else {
        let prev = windows_on(starts, k - 1, count, window, chunk_start_ms, segments);
        let w = window_at(count, window, starts[k - 1], chunk_start_ms);
        if meets(w.start_ms, w.end_ms, segments) {
            prev.push(w)
        } else {
            prev
        }
    }
}

/// Where windows start, as a list.
pub open spec fn places(v: Seq<usize>) -> Seq<int> {
    v.map_values(|x: usize| x as int)
}

fn find_starts(count: usize, window: usize, hop: usize) -> (r: Vec<usize>)
    requires
        window < count,
        hop > 0,
    ensures
        places(r@) == window_starts(count as nat, window as nat, hop as nat),
        forall|i: int| #![trigger r@[i]] 0 <= i < r.len() ==> r@[i] <= count - window,
{
    let last: usize = count - window;
    let ghost h = hop as int;
    let mut out: Vec<usize> = Vec::new();
    let mut start: usize = 0;
    let ghost mut n: int = 0;
    out.push(0);
    while last - start >= hop
        invariant
            hop > 0,
            h == hop,
            n >= 0,
            start == n * h,
            start <= last,
            out.len() == n + 1,
            forall|i: int| #![trigger out@[i]] 0 <= i <= n ==> out@[i] == i * h && out@[i] <= last,
        decreases last - start,
    {
        start = start + hop;
        out.push(start);
        proof {
            assert((n + 1) * h == n * h + h) by (nonlinear_arith);
            n = n + 1;
        }
    }
    proof {
        vstd::arithmetic::div_mod::lemma_fundamental_div_mod_converse(
            last as int,
            h,
            n,
            last - start,
        );
    }
    let ghost regular = Seq::new((last as int / h + 1) as nat, |i: int| i * hop as nat);
    assert(places(out@) =~= regular);
    if start != last {
        out.push(last);
        assert(places(out@) =~= regular.push(last as int));
    }
    out
}

/// Plans windows of `window` samples, one every `hop` samples, that share time with a
/// segment.
pub fn plan(
    count: usize,
    window: u64,
    hop: usize,
    chunk_start_ms: u64,
    segments: &[TranscriptSegment],
) -> (r: Vec<PlannedWindow>)
    requires
        hop > 0,
        count * 1000 <= u64::MAX,
        chunk_start_ms + count * 1000 / 16000 <= u64::MAX,
    ensures
        ({
            let starts = window_starts(count as nat, window as nat, hop as nat);
            r@ == windows_on(
                starts,
                starts.len() as int,
                count as nat,
                window as nat,
                chunk_start_ms,
                segments@,
            )
        }),
{
    let ghost all = window_starts(count as nat, window as nat, hop as nat);
    let mut starts: Vec<usize> = Vec::new();
    if count as u64 <= window {
        starts.push(0);
        assert(places(starts@) =~= all);
    } else {
        starts = find_starts(count, window as usize, hop);
    }
    let mut out: Vec<PlannedWindow> = Vec::new();
    let mut i: usize = 0;
    while i < starts.len()
        invariant
            i <= starts.len(),
            all == places(starts@),
            count * 1000 <= u64::MAX,
            chunk_start_ms + count * 1000 / 16000 <= u64::MAX,
            count <= window ==> forall|j: int|
                #![trigger starts@[j]]
                0 <= j < starts.len() ==> starts@[j] == 0,
            count > window ==> forall|j: int|
                #![trigger starts@[j]]
                0 <= j < starts.len() ==> starts@[j] <= count - window,
            out@ == windows_on(
                all,
                i as int,
                count as nat,
                window as nat,
                chunk_start_ms,
                segments@,
            ),
        decreases starts.len() - i,
    {
        let start: usize = starts[i];
        assert(all[i as int] == start);
        let end: usize = if count as u64 <= window { count } else { start + window as usize };
        let start_ms: u64 = chunk_start_ms + start as u64 * 1000 / 16000;
        let end_ms: u64 = chunk_start_ms + end as u64 * 1000 / 16000;
        let w = PlannedWindow { start_sample: start, end_sample: end, start_ms, end_ms };
        assert(w == window_at(count as nat, window as nat, start as int, chunk_start_ms));
        if window_overlaps_transcript(start_ms, end_ms, segments) {
            out.push(w);
        }
        i = i + 1;
    }
    out
}

} // verus!
