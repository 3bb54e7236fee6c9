//! What splitting and absorbing keep of the segments.
use vstd::prelude::*;
use crate::float32::{larger, smaller, Float32};
use crate::meeting::data::{span, TranscriptSegment};
use crate::meeting::diarization::run_laws::{law_runs_fill_the_stretch, leads_on, tiles};
use crate::meeting::diarization::runs::{range_runs, RunView};
use crate::meeting::diarization::split::{
    absorbed, absorbed_at, absorbed_from, lemma_sentence_cut, low_information, part_of, piece,
    pieces_of, sentence_cut, split_runs, split_segment, split_segments, split_text, spoken,
    standing, stands, whole, MAX_SPLITS,
};
use crate::meeting::diarization::windows::WindowView;
use crate::meeting::diarization::DiarizedView;
use crate::text::{joined, sentences, trimmed, word_count};
use crate::text_laws::{
    clean, law_sentences_keep_words, lemma_joined_append, lemma_joined_clean,
    lemma_sentences_clean, solid,
};

verus! {

/// The texts of attributed segments.
pub open spec fn spoken_texts(v: Seq<DiarizedView>) -> Seq<Seq<char>> {
    v.map_values(|d: DiarizedView| d.text)
}

/// The parts that the first `i` runs get are, joined, their sentences joined.
proof fn lemma_parts_joined(
    all: Seq<Seq<char>>,
    runs: Seq<RunView>,
    parts: Seq<Seq<char>>,
    i: int,
)
    requires
        all.len() >= runs.len(),
        parts == Seq::new(runs.len(), |j: int| part_of(all, runs, j)),
        1 <= i <= runs.len(),
    ensures
        joined(parts.take(i)) == joined(all.take(sentence_cut(all.len(), runs, i))),
        sentence_cut(all.len(), runs, i) <= all.len(),
    decreases i,
{
    let n = all.len();
    lemma_sentence_cut(n, runs, i - 1);
    if i < runs.len() {
        lemma_sentence_cut(n, runs, i);
    }
    let from = sentence_cut(n, runs, i - 1);
    let to = sentence_cut(n, runs, i);
    if i == 1 {
        assert(parts.take(1) =~= seq![parts[0]]);
        assert(all.subrange(0, to) =~= all.take(to));
    } else {
        lemma_parts_joined(all, runs, parts, i - 1);
        assert(parts.take(i) =~= parts.take(i - 1).push(parts[i - 1]));
        assert(parts.take(i).drop_last() =~= parts.take(i - 1));
        lemma_joined_append(all.take(from), all.subrange(from, to));
        assert(all.take(from) + all.subrange(from, to) =~= all.take(to));
    }
}

proof fn lemma_pieces(
    segment: TranscriptSegment,
    runs: Seq<RunView>,
    parts: Seq<Seq<char>>,
    k: int,
)
    requires
        0 <= k <= runs.len(),
        parts.len() == runs.len(),
        forall|i: int| #![trigger parts[i]] 0 <= i < parts.len() ==> clean(parts[i]),
    ensures
        pieces_of(segment, runs, parts, k).len() == k,
        forall|i: int|
            #![trigger pieces_of(segment, runs, parts, k)[i]]
            0 <= i < k ==> pieces_of(segment, runs, parts, k)[i] == piece(
                segment,
                runs[i],
                parts[i],
            ),
    decreases k,
{
    if k > 0 {
        lemma_pieces(segment, runs, parts, k - 1);
        assert(clean(parts[k - 1]));
        assert(trimmed(parts[k - 1]) == parts[k - 1]);
    }
}

/// The pieces of a segment that is split.
pub proof fn lemma_split(segment: TranscriptSegment, w: Seq<WindowView>, threshold: Float32)
    ensures
        ({
            let runs = split_runs(segment, w, threshold);
            let out = split_segment(segment, w, threshold);
            ||| out == seq![whole(segment, w)]
            ||| {
                let parts = Seq::new(
                    runs.len(),
                    |i: int| part_of(sentences(segment.text@), runs, i),
                );
                &&& 1 < runs.len() <= sentences(segment.text@).len()
                &&& out.len() == runs.len()
                &&& forall|i: int|
                    #![trigger out[i]]
                    0 <= i < out.len() ==> out[i] == piece(segment, runs[i], parts[i])
            }
        }),
{
    let runs = split_runs(segment, w, threshold);
    let all = sentences(segment.text@);
    let parts = Seq::new(runs.len(), |i: int| part_of(all, runs, i));
    if runs.len() > 1 && all.len() >= runs.len() && spoken(runs, runs.len() as int) > 0 {
        lemma_parts_clean(segment.text@, runs, parts);
        lemma_pieces(segment, runs, parts, runs.len() as int);
        assert(split_text(segment.text@, runs) == Some(parts));
    } else if runs.len() > 1 && all.len() >= runs.len() {
        assert(split_text(segment.text@, runs)->0.len() == 1);
    }
}

/// A segment with a sentence for every run at which it is split becomes a piece for each.
pub proof fn lemma_split_in_pieces(
    segment: TranscriptSegment,
    w: Seq<WindowView>,
    threshold: Float32,
)
    requires
        ({
            let runs = split_runs(segment, w, threshold);
            1 < runs.len() <= sentences(segment.text@).len() && spoken(runs, runs.len() as int) > 0
        }),
    ensures
        split_segment(segment, w, threshold).len() == split_runs(segment, w, threshold).len(),
{
    let runs = split_runs(segment, w, threshold);
    let all = sentences(segment.text@);
    let parts = Seq::new(runs.len(), |i: int| part_of(all, runs, i));
    lemma_parts_clean(segment.text@, runs, parts);
    lemma_pieces(segment, runs, parts, runs.len() as int);
    assert(split_text(segment.text@, runs) == Some(parts));
}

/// The parts of the sentences of a text are clean.
proof fn lemma_parts_clean(text: Seq<char>, runs: Seq<RunView>, parts: Seq<Seq<char>>)
    requires
        runs.len() <= sentences(text).len(),
        parts == Seq::new(runs.len(), |j: int| part_of(sentences(text), runs, j)),
    ensures
        forall|i: int| #![trigger parts[i]] 0 <= i < parts.len() ==> clean(parts[i]),
{
    let all = sentences(text);
    lemma_sentences_clean(text);
    assert forall|i: int| #![trigger parts[i]] 0 <= i < parts.len() implies clean(parts[i]) by {
        lemma_sentence_cut(all.len(), runs, i);
        if i + 1 < runs.len() {
            lemma_sentence_cut(all.len(), runs, i + 1);
        }
        let mine = all.subrange(
            sentence_cut(all.len(), runs, i),
            sentence_cut(all.len(), runs, i + 1),
        );
        assert forall|j: int| #![trigger mine[j]] 0 <= j < mine.len() implies clean(mine[j]) by {
            assert(clean(all[sentence_cut(all.len(), runs, i) + j]));
        }
        lemma_joined_clean(mine);
    }
}

proof fn lemma_joined_pieces(
    segment: TranscriptSegment,
    runs: Seq<RunView>,
    out: Seq<DiarizedView>,
)
    requires
        1 < runs.len() <= sentences(segment.text@).len(),
        out.len() == runs.len(),
        forall|i: int|
            #![trigger out[i]]
            0 <= i < out.len() ==> out[i] == piece(
                segment,
                runs[i],
                part_of(sentences(segment.text@), runs, i),
            ),
    ensures
        joined(spoken_texts(out)) == joined(sentences(segment.text@)),
{
    let all = sentences(segment.text@);
    let parts = Seq::new(runs.len(), |i: int| part_of(all, runs, i));
    lemma_parts_joined(all, runs, parts, runs.len() as int);
    assert(parts.take(runs.len() as int) =~= parts);
    assert(all.take(all.len() as int) =~= all);
    assert(spoken_texts(out) =~= parts);
}

/// Splitting a segment loses no text: what is not left as it was is, joined with spaces,
/// the sentences of the segment in their order, joined with spaces; and but for white
/// space the pieces read as the segment.
pub proof fn law_splitting_keeps_text(
    segment: TranscriptSegment,
    w: Seq<WindowView>,
    threshold: Float32,
)
    ensures
        split_segment(segment, w, threshold) == seq![whole(segment, w)] || joined(
            spoken_texts(split_segment(segment, w, threshold)),
        ) == joined(sentences(segment.text@)),
        solid(joined(spoken_texts(split_segment(segment, w, threshold)))) == solid(segment.text@),
{
    lemma_split(segment, w, threshold);
    law_sentences_keep_words(segment.text@);
    let out = split_segment(segment, w, threshold);
    if out != seq![whole(segment, w)] {
        lemma_joined_pieces(segment, split_runs(segment, w, threshold), out);
    } else {
        assert(spoken_texts(out) =~= seq![segment.text@]);
    }
}

/// A segment is split only where it has a sentence for every piece, and not into more than
/// a few pieces.
pub proof fn law_splitting_needs_sentences(
    segment: TranscriptSegment,
    w: Seq<WindowView>,
    threshold: Float32,
)
    ensures
        split_segment(segment, w, threshold).len() <= MAX_SPLITS,
        split_segment(segment, w, threshold).len() == 1 || split_segment(
            segment,
            w,
            threshold,
        ).len() <= sentences(segment.text@).len(),
        sentences(segment.text@).len() <= 1 ==> split_segment(segment, w, threshold) == seq![
            whole(segment, w),
        ],
{
    lemma_split(segment, w, threshold);
}

/// Runs lie one behind the other within a stretch.
pub open spec fn in_order(runs: Seq<RunView>, start: u64, end: int) -> bool {
    &&& forall|i: int|
        #![trigger runs[i]]
        0 <= i < runs.len() ==> start <= runs[i].start_ms < runs[i].end_ms <= end
    &&& forall|i: int, j: int|
        #![trigger runs[i], runs[j]]
        0 <= i < j < runs.len() ==> runs[i].end_ms <= runs[j].start_ms
}

pub proof fn lemma_standing_in_order(
    all: Seq<RunView>,
    k: int,
    length: nat,
    start: u64,
    end: u64,
)
    requires
        tiles(all, start, end),
        0 <= k <= all.len(),
    ensures
        in_order(
            standing(all, k, length),
            start,
            if k == 0 {
                start as int
            } else {
                all[k - 1].end_ms as int
            },
        ),
        k > 0 ==> start < all[k - 1].end_ms,
    decreases k,
{
    if k > 0 {
        lemma_standing_in_order(all, k - 1, length, start, end);
        assert(leads_on(all, k - 1));
        if k > 1 {
            assert(leads_on(all, k - 2));
        }
        let prev = standing(all, k - 1, length);
        let runs = standing(all, k, length);
        if stands(all[k - 1], length) {
            assert forall|i: int| #![trigger runs[i]] 0 <= i < runs.len() implies start
                <= runs[i].start_ms < runs[i].end_ms <= all[k - 1].end_ms by {
                if i < prev.len() {
                    assert(runs[i] == prev[i]);
                }
            }
            assert forall|i: int, j: int|
                #![trigger runs[i], runs[j]]
                0 <= i < j < runs.len() implies runs[i].end_ms <= runs[j].start_ms by {
                assert(runs[i] == prev[i]);
                if j < prev.len() {
                    assert(runs[j] == prev[j]);
                }
            }
        }
    }
}

/// The pieces of a segment lie within it, one behind the other.
pub proof fn law_splitting_keeps_time(
    segment: TranscriptSegment,
    w: Seq<WindowView>,
    threshold: Float32,
)
    ensures
        ({
            let out = split_segment(segment, w, threshold);
            &&& out.len() > 0
            &&& forall|i: int|
                #![trigger out[i]]
                0 <= i < out.len() ==> segment.start_ms <= out[i].start_ms && out[i].end_ms
                    <= segment.end_ms
            &&& forall|i: int, j: int|
                #![trigger out[i], out[j]]
                0 <= i < j < out.len() ==> out[i].start_ms < out[i].end_ms <= out[j].start_ms
        }),
{
    lemma_split(segment, w, threshold);
    let out = split_segment(segment, w, threshold);
    if out != seq![whole(segment, w)] {
        let all = range_runs(w, segment.start_ms, segment.end_ms, threshold);
        let length = span(segment.start_ms, segment.end_ms);
        let runs = split_runs(segment, w, threshold);
        assert(segment.start_ms < segment.end_ms);
        law_runs_fill_the_stretch(w, segment.start_ms, segment.end_ms, threshold);
        lemma_standing_in_order(
            all,
            all.len() as int,
            length,
            segment.start_ms,
            segment.end_ms,
        );
        assert(in_order(runs, segment.start_ms, segment.end_ms as int));
        assert forall|i: int, j: int|
            #![trigger out[i], out[j]]
            0 <= i < j < out.len() implies out[i].start_ms < out[i].end_ms <= out[j].start_ms by {
            assert(runs[i].end_ms <= runs[j].start_ms);
        }
    }
}

/// Absorbing changes neither number, times nor texts of segments, and gives a segment to
/// another speaker only where it says too little.
pub proof fn law_absorbing_keeps_segments(s: Seq<DiarizedView>, threshold: Float32)
    ensures
        absorbed(s, threshold).len() == s.len(),
        forall|i: int|
            #![trigger absorbed(s, threshold)[i]]
            0 <= i < s.len() ==> {
                let a = absorbed(s, threshold)[i];
                &&& a.start_ms == s[i].start_ms
                &&& a.end_ms == s[i].end_ms
                &&& a.text == s[i].text
                &&& a == s[i] || (0 < i < s.len() - 1 && low_information(s[i]))
            },
{
    lemma_absorbed(s, 1, threshold);
}

proof fn lemma_absorbed(s: Seq<DiarizedView>, k: int, threshold: Float32)
    ensures
        absorbed_from(s, k, threshold).len() == s.len(),
        forall|i: int|
            #![trigger absorbed_from(s, k, threshold)[i]]
            0 <= i < s.len() ==> {
                let a = absorbed_from(s, k, threshold)[i];
                &&& a.start_ms == s[i].start_ms
                &&& a.end_ms == s[i].end_ms
                &&& a.text == s[i].text
                &&& a == s[i] || (0 < i < s.len() - 1 && low_information(s[i]))
            },
    decreases s.len() - k,
{
    if k < s.len() {
        if absorbed_at(s, k, threshold) {
            let t = s.update(
                k,
                DiarizedView {
                    speaker: s[k - 1].speaker,
                    confidence: larger(
                        s[k].confidence,
                        smaller(s[k - 1].confidence, s[k + 1].confidence),
                    ),
                    ..s[k]
                },
            );
            lemma_absorbed(t, k + 1, threshold);
            assert forall|i: int|
                #![trigger absorbed_from(s, k, threshold)[i]]
                0 <= i < s.len() implies {
                let a = absorbed_from(s, k, threshold)[i];
                &&& a.start_ms == s[i].start_ms
                &&& a.end_ms == s[i].end_ms
                &&& a.text == s[i].text
                &&& a == s[i] || (0 < i < s.len() - 1 && low_information(s[i]))
            } by {
                let a = absorbed_from(t, k + 1, threshold)[i];
                assert(a.text == t[i].text);
            }
        } else {
            lemma_absorbed(s, k + 1, threshold);
        }
    }
}

/// Whether a segment is absorbed that stands behind `left` and before `right`: it lasts and
/// says little, and both are near, of one numbered speaker, and sure.
pub open spec fn given_up(
    left: DiarizedView,
    this: DiarizedView,
    right: DiarizedView,
    threshold: Float32,
) -> bool {
    &&& span(this.start_ms, this.end_ms) <= 2500
    &&& word_count(this.text) <= 6
    &&& left.speaker is Auto
    &&& left.speaker == right.speaker
    &&& span(left.end_ms, this.start_ms) <= 12000
    &&& span(this.end_ms, right.start_ms) <= 12000
    &&& !left.confidence.below(threshold)
    &&& !right.confidence.below(threshold)
}

proof fn lemma_absorbed_in_turn(s: Seq<DiarizedView>, k: int, threshold: Float32, i: int)
    requires
        k >= 1,
        0 <= i < s.len(),
    ensures
        ({
            let a = absorbed_from(s, k, threshold);
            let inner = k <= i && i < s.len() - 1;
            &&& a.len() == s.len()
            &&& !inner ==> a[i] == s[i]
            &&& inner && given_up(a[i - 1], s[i], s[i + 1], threshold) ==> a[i] == (DiarizedView {
                speaker: a[i - 1].speaker,
                confidence: larger(
                    s[i].confidence,
                    smaller(a[i - 1].confidence, s[i + 1].confidence),
                ),
                ..s[i]
            })
            &&& inner && !given_up(a[i - 1], s[i], s[i + 1], threshold) ==> a[i] == s[i]
        }),
    decreases s.len() - k,
{
    if k < s.len() {
        let t = if absorbed_at(s, k, threshold) {
            s.update(
                k,
                DiarizedView {
                    speaker: s[k - 1].speaker,
                    confidence: larger(
                        s[k].confidence,
                        smaller(s[k - 1].confidence, s[k + 1].confidence),
                    ),
                    ..s[k]
                },
            )
        } else {
            s
        };
        lemma_absorbed_in_turn(t, k + 1, threshold, i);
        if i == k {
            lemma_absorbed_in_turn(t, k + 1, threshold, k - 1);
        }
    }
}

/// From the second segment on, each one that says too little between two segments of one
/// numbered speaker goes to that speaker, with the smaller of their confidences or its own;
/// what was absorbed before counts for the segment on the left. All other segments stay.
pub proof fn law_absorbing_goes_from_left_to_right(
    s: Seq<DiarizedView>,
    threshold: Float32,
    i: int,
)
    requires
        0 <= i < s.len(),
    ensures
        ({
            let a = absorbed(s, threshold);
            let inner = 0 < i < s.len() - 1;
            &&& !inner ==> a[i] == s[i]
            &&& inner && given_up(a[i - 1], s[i], s[i + 1], threshold) ==> a[i] == (DiarizedView {
                speaker: a[i - 1].speaker,
                confidence: larger(
                    s[i].confidence,
                    smaller(a[i - 1].confidence, s[i + 1].confidence),
                ),
                ..s[i]
            })
            &&& inner && !given_up(a[i - 1], s[i], s[i + 1], threshold) ==> a[i] == s[i]
        }),
{
    lemma_absorbed_in_turn(s, 1, threshold, i);
}

/// Every segment is split by itself, and the pieces keep the order of the segments.
pub proof fn law_segments_are_split_one_by_one(
    a: Seq<TranscriptSegment>,
    b: Seq<TranscriptSegment>,
    k: int,
    w: Seq<WindowView>,
    threshold: Float32,
)
    requires
        0 <= k <= b.len(),
    ensures
        split_segments(a + b, a.len() + k, w, threshold) == split_segments(
            a,
            a.len() as int,
            w,
            threshold,
        ) + split_segments(b, k, w, threshold),
    decreases k,
{
    if k > 0 {
        law_segments_are_split_one_by_one(a, b, k - 1, w, threshold);
        lemma_one_more(a + b, a.len() + k, w, threshold);
        lemma_one_more(b, k, w, threshold);
        lemma_same_piece(a, b, k);
        lemma_concat(
            split_segments(a, a.len() as int, w, threshold),
            split_segments(b, k - 1, w, threshold),
            split_segment(b[k - 1], w, threshold),
            split_segments(a + b, a.len() + k - 1, w, threshold),
            split_segments(a + b, a.len() + k, w, threshold),
            split_segments(b, k, w, threshold),
        );
    } else {
        lemma_split_prefix(a, b, a.len() as int, w, threshold);
        lemma_nothing(split_segments(a, a.len() as int, w, threshold));
    }
}

proof fn lemma_same_piece(a: Seq<TranscriptSegment>, b: Seq<TranscriptSegment>, k: int)
    requires
        0 < k <= b.len(),
    ensures
        (a + b)[a.len() + k - 1] == b[k - 1],
{
}

proof fn lemma_nothing(a: Seq<DiarizedView>)
    ensures
        a + Seq::<DiarizedView>::empty() == a,
{
    assert(a + Seq::<DiarizedView>::empty() =~= a);
}

proof fn lemma_concat(
    a: Seq<DiarizedView>,
    b: Seq<DiarizedView>,
    c: Seq<DiarizedView>,
    ab: Seq<DiarizedView>,
    abc: Seq<DiarizedView>,
    bc: Seq<DiarizedView>,
)
    requires
        ab == a + b,
        abc == ab + c,
        bc == b + c,
    ensures
        abc == a + bc,
{
    assert(abc =~= a + bc);
}

proof fn lemma_one_more(
    s: Seq<TranscriptSegment>,
    k: int,
    w: Seq<WindowView>,
    threshold: Float32,
)
    requires
        k > 0,
    ensures
        split_segments(s, k, w, threshold) == split_segments(s, k - 1, w, threshold)
            + split_segment(s[k - 1], w, threshold),
{
}

/// One segment alone becomes its own pieces.
pub proof fn law_one_segment_is_split_alone(
    segment: TranscriptSegment,
    w: Seq<WindowView>,
    threshold: Float32,
)
    ensures
        split_segments(seq![segment], 1, w, threshold) == split_segment(segment, w, threshold),
{
    lemma_one_more(seq![segment], 1, w, threshold);
    let pieces = split_segment(segment, w, threshold);
    assert(Seq::<DiarizedView>::empty() + pieces =~= pieces);
}

proof fn lemma_split_prefix(
    a: Seq<TranscriptSegment>,
    b: Seq<TranscriptSegment>,
    k: int,
    w: Seq<WindowView>,
    threshold: Float32,
)
    requires
        0 <= k <= a.len(),
    ensures
        split_segments(a + b, k, w, threshold) == split_segments(a, k, w, threshold),
    decreases k,
{
    if k > 0 {
        lemma_split_prefix(a, b, k - 1, w, threshold);
        assert((a + b)[k - 1] == a[k - 1]);
    }
}

} // verus!
