//! What attributing speakers keeps of what the diarizer found.
use vstd::prelude::*;
use crate::meeting::chunk::id_after;
use crate::meeting::data::{AudioSource, SegmentView, TranscriptSegment};
use crate::meeting::diarization::{shown_name, DiarizedView};
use crate::meeting::record::{
    in_order, law_order_sorts_stably, put_in, recorded, refined, with_speakers,
};
use crate::text::trimmed;

verus! {

/// The attributed segments that are not blank, in their order.
pub open spec fn worded(diarized: Seq<DiarizedView>) -> Seq<DiarizedView> {
    diarized.filter(|d: DiarizedView| trimmed(d.text).len() > 0)
}

/// A transcript segment shows the speaker, the times, the words and the confidence of one
/// and the same attributed segment, and has no label.
pub open spec fn shows(s: SegmentView, d: DiarizedView) -> bool {
    &&& s.speaker_id == Some(shown_name(d.speaker))
    &&& s.start_ms == d.start_ms
    &&& s.end_ms == d.end_ms
    &&& s.text == trimmed(d.text)
    &&& s.confidence == Some(d.confidence)
    &&& s.speaker_label is None
}

proof fn lemma_refined(
    plain: Seq<SegmentView>,
    diarized: Seq<DiarizedView>,
    k: int,
    next: u32,
    chunk_id: u32,
    source: AudioSource,
)
    requires
        0 <= k <= diarized.len(),
    ensures
        ({
            let r = refined(plain, diarized, k, next, chunk_id, source);
            let said = worded(diarized.take(k));
            &&& r.len() == said.len()
            &&& forall|i: int|
                #![trigger r[i]]
                0 <= i < r.len() ==> shows(r[i], said[i]) && r[i].source == source && r[i].chunk_id
                    == chunk_id && r[i].id == (if i < plain.len() {
                    plain[i].id
                } else {
                    id_after(next, (i - plain.len()) as nat)
                })
        }),
    decreases k,
{
    reveal(Seq::filter);
    if k > 0 {
        lemma_refined(plain, diarized, k - 1, next, chunk_id, source);
        assert(diarized.take(k).drop_last() =~= diarized.take(k - 1));
        assert(diarized.take(k).last() == diarized[k - 1]);
    }
}

/// The segments of a chunk once speakers are attributed are those that the diarizer found,
/// one for one and in their order, the blank ones left out: each shows the speaker, the
/// times and the words of its own attributed segment. They come from the source and the
/// chunk, and take over the identifiers there are before they take new ones. Where the
/// diarizer found no words at all the segments stay as they were.
pub proof fn law_segments_show_their_own_speaker(
    plain: Seq<SegmentView>,
    diarized: Seq<DiarizedView>,
    next: u32,
    chunk_id: u32,
    source: AudioSource,
)
    ensures
        ({
            let r = with_speakers(plain, diarized, next, chunk_id, source);
            let said = worded(diarized);
            &&& said.len() == 0 ==> r == plain
            &&& said.len() > 0 ==> r.len() == said.len() && forall|i: int|
                #![trigger r[i]]
                0 <= i < r.len() ==> shows(r[i], said[i]) && r[i].source == source && r[i].chunk_id
                    == chunk_id && r[i].id == (if i < plain.len() {
                    plain[i].id
                } else {
                    id_after(next, (i - plain.len()) as nat)
                })
        }),
{
    lemma_refined(plain, diarized, diarized.len() as int, next, chunk_id, source);
    assert(diarized.take(diarized.len() as int) =~= diarized);
}

/// No attributed segment with words is lost: some transcript segment shows it.
pub proof fn law_every_attribution_is_shown(
    plain: Seq<SegmentView>,
    diarized: Seq<DiarizedView>,
    next: u32,
    chunk_id: u32,
    source: AudioSource,
    k: int,
)
    requires
        0 <= k < diarized.len(),
        trimmed(diarized[k].text).len() > 0,
    ensures
        ({
            let r = with_speakers(plain, diarized, next, chunk_id, source);
            exists|i: int| #![trigger r[i]] 0 <= i < r.len() && shows(r[i], diarized[k])
        }),
{
    broadcast use vstd::seq_lib::group_filter_ensures;

    let r = with_speakers(plain, diarized, next, chunk_id, source);
    let said = worded(diarized);
    law_segments_show_their_own_speaker(plain, diarized, next, chunk_id, source);
    assert(said.contains(diarized[k]));
    let i = choose|i: int| 0 <= i < said.len() && said[i] == diarized[k];
    assert(shows(r[i], said[i]));
}

/// `a` comes before `b` by its start; where they start together by its end; where they end
/// together by its chunk; and in one chunk by its identifier.
pub open spec fn comes_first(a: TranscriptSegment, b: TranscriptSegment) -> bool {
    if a.start_ms != b.start_ms {
        a.start_ms < b.start_ms
    } else if a.end_ms != b.end_ms {
        a.end_ms < b.end_ms
    } else if a.chunk_id != b.chunk_id {
        a.chunk_id < b.chunk_id
    } else {
        a.id <= b.id
    }
}

/// Recording without speakers puts what was heard on the loopback in the order of time among
/// what is there; in every other case what is there stays as it is, and the new segments
/// follow in their order.
pub proof fn law_recorded_segments_are_in_their_place(
    before: Seq<TranscriptSegment>,
    new: Seq<TranscriptSegment>,
    diarization: bool,
    source: AudioSource,
    i: int,
    j: int,
)
    ensures
        ({
            let r = recorded(before, new, diarization, source);
            if !diarization && source == AudioSource::Loopback {
                r.len() == before.len() + new.len() && (0 <= i < j < r.len() ==> comes_first(
                    r[i],
                    r[j],
                ))
            } else {
                r == before + new
            }
        }),
{
    let all = before + new;
    if !diarization && source == AudioSource::Loopback {
        lemma_order_keeps_number(all);
        if all.len() > 0 {
            law_order_sorts_stably(all, all[0]);
        }
    }
}

proof fn lemma_put_in_keeps_number(s: Seq<TranscriptSegment>, x: TranscriptSegment)
    ensures
        put_in(s, x).len() == s.len() + 1,
    decreases s.len(),
{
    if s.len() > 0 {
        lemma_put_in_keeps_number(s.drop_last(), x);
    }
}

proof fn lemma_order_keeps_number(s: Seq<TranscriptSegment>)
    ensures
        in_order(s).len() == s.len(),
    decreases s.len(),
{
    if s.len() > 0 {
        lemma_order_keeps_number(s.drop_last());
        lemma_put_in_keeps_number(in_order(s.drop_last()), s.last());
    }
}

} // verus!
