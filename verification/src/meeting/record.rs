//! How the segments of a chunk get into the transcript.
use vstd::prelude::*;
use crate::meeting::chunk::id_after;
use crate::meeting::data::{
    clone_segments, plain_segment, segment_views, AudioSource, SegmentView, TranscriptSegment,
};
use crate::meeting::diarization::{diarized_views, shown_name, DiarizedSegment, DiarizedView};
use crate::text::{trim, trimmed};

verus! {

/// The segments that the first `k` attributed segments make: one for each that is not
/// blank, without the white space around it. They take over the identifiers of the
/// segments they come from; where there are more of them, new identifiers follow from
/// `next`.
pub open spec fn refined(
    plain: Seq<SegmentView>,
    diarized: Seq<DiarizedView>,
    k: int,
    next: u32,
    chunk_id: u32,
    source: AudioSource,
) -> Seq<SegmentView>
    decreases k,
{
    if k <= 0 {
        Seq::empty()
    } else {
        let prev = refined(plain, diarized, k - 1, next, chunk_id, source);
        let d = diarized[k - 1];
        let text = trimmed(d.text);
        if text.len() == 0 {
            prev
        } else {
            let id = if prev.len() < plain.len() {
                plain[prev.len() as int].id
            } else {
                id_after(next, (prev.len() - plain.len()) as nat)
            };
            prev.push(
                SegmentView {
                    source,
                    speaker_id: Some(shown_name(d.speaker)),
                    confidence: Some(d.confidence),
                    ..plain_segment(id, d.start_ms, d.end_ms, text, chunk_id)
                },
            )
        }
    }
}

/// The segments of a chunk once their speakers are attributed: as they were where nothing
/// was attributed.
pub open spec fn with_speakers(
    plain: Seq<SegmentView>,
    diarized: Seq<DiarizedView>,
    next: u32,
    chunk_id: u32,
    source: AudioSource,
) -> Seq<SegmentView> {
    let r = refined(plain, diarized, diarized.len() as int, next, chunk_id, source);
    if r.len() == 0 {
        plain
    } else {
        r
    }
}

/// The identifier that comes next once speakers are attributed.
pub open spec fn next_after(plain: nat, refined: nat, next: u32) -> u32 {
    if refined <= plain {
        next
    } else {
        id_after(next, (refined - plain) as nat)
    }
}

/// Gives the segments of a chunk the speakers that were found, and says which identifier
/// comes next.
pub fn assign_speakers(
    plain: Vec<TranscriptSegment>,
    diarized: &Vec<DiarizedSegment>,
    next: u32,
    chunk_id: u32,
    source: AudioSource,
) -> (r: (Vec<TranscriptSegment>, u32))
    ensures
        segment_views(r.0@) == with_speakers(
            segment_views(plain@),
            diarized_views(diarized@),
            next,
            chunk_id,
            source,
        ),
        r.1 == next_after(plain@.len(), r.0@.len(), next),
{
    let ghost before = segment_views(plain@);
    let ghost d = diarized_views(diarized@);
    let mut out: Vec<TranscriptSegment> = Vec::new();
    let mut free: u32 = next;
    let mut i: usize = 0;
    proof {
        assert(segment_views(out@) =~= Seq::empty());
        assert(id_after(next, 0) == next);
    }
    while i < diarized.len()
        invariant
            i <= diarized.len(),
            before == segment_views(plain@),
            d == diarized_views(diarized@),
            segment_views(out@) == refined(before, d, i as int, next, chunk_id, source),
            free == next_after(plain@.len(), out@.len(), next),
            id_after(next, 0) == next,
        decreases diarized.len() - i,
    {
        let one: &DiarizedSegment = &diarized[i];
        assert(d[i as int] == one@);
        let text: String = trim(one.text.as_str());
        if !text.as_str().is_empty() {
            let ghost prev = segment_views(out@);
            let n: usize = out.len();
            assert(prev.len() == n);
            let id: u32 = if n < plain.len() {
                assert(before[n as int] == plain@[n as int]@);
                plain[n].id
            } else {
                let id: u32 = free;
                free = free.wrapping_add(1);
                id
            };
            let mut segment = TranscriptSegment::new(id, one.start_ms, one.end_ms, text, chunk_id);
            segment.source = source;
            segment.speaker_id = Some(one.speaker.display_name());
            segment.confidence = Some(one.confidence);
            out.push(segment);
            assert(segment_views(out@) =~= prev.push(segment@));
        }
        i = i + 1;
    }
    if out.len() == 0 {
        assert(segment_views(out@).len() == 0);
        (plain, free)
    } else {
        assert(segment_views(out@).len() > 0);
        (out, free)
    }
}

/// Whether `a` comes before `b` in a transcript, or is at the same place: by start, end,
/// chunk and identifier.
pub open spec fn not_behind(a: TranscriptSegment, b: TranscriptSegment) -> bool {
    ||| a.start_ms < b.start_ms
    ||| a.start_ms == b.start_ms && a.end_ms < b.end_ms
    ||| a.start_ms == b.start_ms && a.end_ms == b.end_ms && a.chunk_id < b.chunk_id
    ||| a.start_ms == b.start_ms && a.end_ms == b.end_ms && a.chunk_id == b.chunk_id && a.id
        <= b.id
}

/// Segments in order with one more, behind all that are not behind it.
pub open spec fn put_in(s: Seq<TranscriptSegment>, x: TranscriptSegment) -> Seq<TranscriptSegment>
    decreases s.len(),
{
    if s.len() == 0 || not_behind(s.last(), x) {
        s.push(x)
    } else {
        put_in(s.drop_last(), x).push(s.last())
    }
}

/// Segments in order; segments at the same place stay as they were.
pub open spec fn in_order(s: Seq<TranscriptSegment>) -> Seq<TranscriptSegment>
    decreases s.len(),
{
    if s.len() == 0 {
        s
    } else {
        put_in(in_order(s.drop_last()), s.last())
    }
}

/// The segments of a transcript once those of a chunk are recorded. Without speakers, the
/// segments of the loopback are put between those of the microphone; else the segments
/// follow behind.
pub open spec fn recorded(
    before: Seq<TranscriptSegment>,
    new: Seq<TranscriptSegment>,
    diarization: bool,
    source: AudioSource,
) -> Seq<TranscriptSegment> {
    if !diarization && source == AudioSource::Loopback {
        in_order(before + new)
    } else {
        before + new
    }
}

fn precedes(a: &TranscriptSegment, b: &TranscriptSegment) -> (r: bool)
    ensures
        r == not_behind(*a, *b),
{
    if a.start_ms != b.start_ms {
        a.start_ms < b.start_ms
    } else if a.end_ms != b.end_ms {
        a.end_ms < b.end_ms
    } else if a.chunk_id != b.chunk_id {
        a.chunk_id < b.chunk_id
    } else {
        a.id <= b.id
    }
}

proof fn lemma_put_in(s: Seq<TranscriptSegment>, x: TranscriptSegment, p: int)
    requires
        0 <= p <= s.len(),
        p > 0 ==> not_behind(s[p - 1], x),
        forall|j: int| #![trigger s[j]] p <= j < s.len() ==> !not_behind(s[j], x),
    ensures
        put_in(s, x) == s.insert(p, x),
    decreases s.len(),
{
    if p == s.len() {
        assert(s.insert(p, x) =~= s.push(x));
    } else {
        let t = s.drop_last();
        assert(!not_behind(s[s.len() - 1], x));
        lemma_put_in(t, x, p);
        assert(t.insert(p, x).push(s.last()) =~= s.insert(p, x));
    }
}

fn sort_segments(v: Vec<TranscriptSegment>) -> (r: Vec<TranscriptSegment>)
    ensures
        r@ == in_order(v@),
{
    let mut out: Vec<TranscriptSegment> = Vec::new();
    let mut i: usize = 0;
    assert(v@.take(0) =~= Seq::empty());
    while i < v.len()
        invariant
            i <= v.len(),
            out@ == in_order(v@.take(i as int)),
            out.len() == i,
        decreases v.len() - i,
    {
        let x: TranscriptSegment = v[i].clone();
        let mut p: usize = out.len();
        while p > 0 && !precedes(&out[p - 1], &x)
            invariant
                p <= out.len(),
                forall|j: int|
                    #![trigger out@[j]]
                    p <= j < out.len() ==> !not_behind(out@[j], x),
            decreases p,
        {
            p = p - 1;
        }
        proof {
            lemma_put_in(out@, x, p as int);
            assert(v@.take(i + 1).drop_last() =~= v@.take(i as int));
        }
        out.insert(p, x);
        i = i + 1;
    }
    assert(v@.take(i as int) =~= v@);
    out
}

/// Records the segments of a chunk.
pub fn record_segments(
    segments: &mut Vec<TranscriptSegment>,
    new: &Vec<TranscriptSegment>,
    diarization: bool,
    source: AudioSource,
)
    ensures
        final(segments)@ == recorded(old(segments)@, new@, diarization, source),
{
    let mut more: Vec<TranscriptSegment> = clone_segments(new);
    segments.append(&mut more);
    let between: bool = match source {
        AudioSource::Loopback => !diarization,
        _ => false,
    };
    if between {
        let mut all: Vec<TranscriptSegment> = Vec::new();
        std::mem::swap(&mut all, segments);
        *segments = sort_segments(all);
    }
}

/// A list in which no segment comes behind a later one.
pub open spec fn sorted(s: Seq<TranscriptSegment>) -> bool {
    forall|i: int, j: int|
        #![trigger s[i], s[j]]
        0 <= i < j < s.len() ==> not_behind(s[i], s[j])
}

/// The segments at the place of `x`, in their order.
pub open spec fn at_place(s: Seq<TranscriptSegment>, x: TranscriptSegment) -> Seq<TranscriptSegment>
    decreases s.len(),
{
    if s.len() == 0 {
        s
    } else if not_behind(s.last(), x) && not_behind(x, s.last()) {
        at_place(s.drop_last(), x).push(s.last())
    } else {
        at_place(s.drop_last(), x)
    }
}

proof fn lemma_put_in_keeps(s: Seq<TranscriptSegment>, x: TranscriptSegment, y: TranscriptSegment)
    requires
        sorted(s),
    ensures
        sorted(put_in(s, x)),
        put_in(s, x).to_multiset() == s.to_multiset().insert(x),
        forall|i: int|
            #![trigger put_in(s, x)[i]]
            0 <= i < put_in(s, x).len() ==> put_in(s, x)[i] == x || s.contains(put_in(s, x)[i]),
        at_place(put_in(s, x), y) == if not_behind(x, y) && not_behind(y, x) {
            at_place(s, y).push(x)
        } else {
            at_place(s, y)
        },
    decreases s.len(),
{
    broadcast use vstd::seq_lib::group_to_multiset_ensures;

    if s.len() == 0 || not_behind(s.last(), x) {
        let t = s.push(x);
        assert(t.drop_last() =~= s);
        assert forall|i: int, j: int| #![trigger t[i], t[j]] 0 <= i < j < t.len() implies not_behind(
            t[i],
            t[j],
        ) by {
            if j == s.len() && i < s.len() - 1 {
                assert(not_behind(s[i], s[s.len() - 1]));
            }
        }
        assert forall|i: int| #![trigger t[i]] 0 <= i < t.len() implies t[i] == x || s.contains(
            t[i],
        ) by {
            if i < s.len() {
                assert(t[i] == s[i]);
            }
        }
    } else {
        let front = s.drop_last();
        let last = s.last();
        assert(sorted(front));
        lemma_put_in_keeps(front, x, y);
        let u = put_in(front, x);
        let t = u.push(last);
        assert(t.drop_last() =~= u);
        assert(s =~= front.push(last));
        assert(s.to_multiset() =~= front.to_multiset().insert(last));
        assert(t.to_multiset() =~= s.to_multiset().insert(x));
        assert forall|i: int, j: int| #![trigger t[i], t[j]] 0 <= i < j < t.len() implies not_behind(
            t[i],
            t[j],
        ) by {
            if j == u.len() {
                assert(t[i] == u[i]);
                if u[i] != x {
                    assert(front.contains(u[i]));
                    let k = choose|k: int| 0 <= k < front.len() && front[k] == u[i];
                    assert(not_behind(s[k], s[s.len() - 1]));
                }
            } else {
                assert(t[i] == u[i] && t[j] == u[j]);
            }
        }
        assert forall|i: int| #![trigger t[i]] 0 <= i < t.len() implies t[i] == x || s.contains(
            t[i],
        ) by {
            if i < u.len() {
                assert(t[i] == u[i]);
                if u[i] != x {
                    let k = choose|k: int| 0 <= k < front.len() && front[k] == u[i];
                    assert(s[k] == t[i]);
                }
            } else {
                assert(s[s.len() - 1] == t[i]);
            }
        }
    }
}

/// Putting segments in order keeps all of them, sorts them, and leaves those at the same
/// place in their order.
pub proof fn law_order_sorts_stably(s: Seq<TranscriptSegment>, x: TranscriptSegment)
    ensures
        sorted(in_order(s)),
        in_order(s).to_multiset() == s.to_multiset(),
        at_place(in_order(s), x) == at_place(s, x),
    decreases s.len(),
{
    broadcast use vstd::seq_lib::group_to_multiset_ensures;

    if s.len() > 0 {
        let front = s.drop_last();
        law_order_sorts_stably(front, x);
        lemma_put_in_keeps(in_order(front), s.last(), x);
        assert(s =~= front.push(s.last()));
    }
}

/// Recording loses no segment, neither of the transcript nor of the chunk.
pub proof fn law_recording_keeps_segments(
    before: Seq<TranscriptSegment>,
    new: Seq<TranscriptSegment>,
    diarization: bool,
    source: AudioSource,
)
    ensures
        recorded(before, new, diarization, source).to_multiset() == before.to_multiset().add(
            new.to_multiset(),
        ),
{
    vstd::seq_lib::lemma_multiset_commutative(before, new);
    if before.len() + new.len() > 0 {
        law_order_sorts_stably(before + new, (before + new)[0]);
    } else {
        assert(before + new =~= Seq::empty());
    }
}

} // verus!
