//! Who gets which sentences of a segment that is split.
use vstd::prelude::*;
use vstd::arithmetic::div_mod::lemma_fundamental_div_mod_converse;
use crate::float32::Float32;
use crate::float32_laws::{
    law_small_products_are_exact, law_small_quotients_round_to_the_nearest,
};
use crate::meeting::data::{span, TranscriptSegment};
use crate::meeting::diarization::run_laws::law_runs_fill_the_stretch;
use crate::meeting::diarization::runs::{range_runs, RunView};
use crate::meeting::diarization::split::{
    lemma_sentence_cut, part_of, sentence_cut, split_runs, split_segment, split_text, spoken,
    standing, stands, whole, MAX_SPLITS,
};
use crate::meeting::diarization::split_laws::{
    in_order, lemma_split, lemma_split_in_pieces, lemma_standing_in_order,
};
use crate::meeting::diarization::windows::{range_speaker, WindowView};
use crate::meeting::diarization::DiarizedView;
use crate::text::{joined, sentences};

verus! {

/// The milliseconds that runs last, all together.
pub open spec fn lasting(runs: Seq<RunView>) -> int {
    runs.map_values(|r: RunView| span(r.start_ms, r.end_ms) as int).fold_left(
        0int,
        |total: int, ms: int| total + ms,
    )
}

proof fn lemma_lasting(runs: Seq<RunView>, k: int)
    requires
        0 <= k <= runs.len(),
    ensures
        lasting(runs.take(k)) == spoken(runs, k),
    decreases k,
{
    reveal(Seq::fold_left);
    if k > 0 {
        lemma_lasting(runs, k - 1);
        let f = |r: RunView| span(r.start_ms, r.end_ms) as int;
        let a = runs.take(k).map_values(f);
        assert(a.drop_last() =~= runs.take(k - 1).map_values(f));
        assert(a.last() == f(runs[k - 1]));
    } else {
        assert(runs.take(0).map_values(
            |r: RunView| span(r.start_ms, r.end_ms) as int,
        ).len() == 0);
    }
}

/// `a / b` to the nearest integer, a half going up.
pub open spec fn nearest_integer(a: int, b: int) -> int {
    (2 * a + b) / (2 * b)
}

/// `cuts` tells how many of `n` sentences go to the first runs: for the first `i` runs in
/// proportion to the time that they last, to the nearest integer, as long as each of them
/// has one more than those before it and every run behind can still have one.
pub open spec fn fair_cuts(n: nat, runs: Seq<RunView>, cuts: Seq<int>) -> bool {
    &&& cuts.len() == runs.len() + 1
    &&& cuts[0] == 0
    &&& cuts[runs.len() as int] == n
    &&& forall|i: int|
        #![trigger cuts[i]]
        0 < i < runs.len() ==> fair_cut(n, runs, cuts[i - 1], cuts[i], i)
}

/// Where the sentences are cut behind the first `i` runs.
pub open spec fn fair_cut(n: nat, runs: Seq<RunView>, before: int, cut: int, i: int) -> bool {
    let fair = nearest_integer(n * lasting(runs.take(i)), lasting(runs));
    let most = n - (runs.len() - i);
    &&& before < fair <= most ==> cut == fair
    &&& fair <= before ==> cut == before + 1
    &&& fair > most ==> cut == most
}

proof fn lemma_fair_cut(n: nat, runs: Seq<RunView>, cuts: Seq<int>, i: int)
    requires
        1 < runs.len() <= n,
        0 < lasting(runs),
        n * lasting(runs) < 0x80_0000,
        fair_cuts(n, runs, cuts),
        0 <= i <= runs.len(),
    ensures
        sentence_cut(n, runs, i) == cuts[i],
    decreases i,
{
    let m = runs.len() as int;
    if 0 < i < m {
        lemma_fair_cut(n, runs, cuts, i - 1);
        lemma_sentence_cut(n, runs, i - 1);
        lemma_lasting(runs, i);
        lemma_lasting(runs, m);
        assert(runs.take(m) =~= runs);
        let s = spoken(runs, i);
        let t = spoken(runs, m);
        lemma_part_of_total(runs, i);
        assert(n * s <= n * t && t <= n * t && n <= n * t) by (nonlinear_arith)
            requires
                0 <= s <= t,
                n >= 1,
                t >= 1,
        ;
        law_small_products_are_exact(n, s);
        law_small_quotients_round_to_the_nearest(n * s, t);
        assert(fair_cut(n, runs, cuts[i - 1], cuts[i], i));
    }
}

proof fn lemma_part_of_total(runs: Seq<RunView>, i: int)
    requires
        i <= runs.len(),
    ensures
        spoken(runs, i) <= spoken(runs, runs.len() as int),
    decreases runs.len() - i,
{
    if i < runs.len() {
        lemma_part_of_total(runs, i + 1);
    }
}

/// A text with a sentence for every run is cut where the sentences are due by the time that
/// the runs last: the first `i` runs together get their share of the sentences to the
/// nearest integer, as long as every run has one. Times and sentences are bounded so far
/// that single precision does not show.
pub proof fn law_sentences_follow_the_time(text: Seq<char>, runs: Seq<RunView>, cuts: Seq<int>)
    requires
        1 < runs.len() <= sentences(text).len(),
        0 < lasting(runs),
        sentences(text).len() * lasting(runs) < 0x80_0000,
        fair_cuts(sentences(text).len(), runs, cuts),
    ensures
        split_text(text, runs) == Some(
            Seq::new(
                runs.len(),
                |i: int| joined(sentences(text).subrange(cuts[i], cuts[i + 1])),
            ),
        ),
{
    let all = sentences(text);
    let m = runs.len() as int;
    lemma_lasting(runs, m);
    assert(runs.take(m) =~= runs);
    let parts = split_text(text, runs)->0;
    let goal = Seq::new(
        runs.len(),
        |i: int| joined(sentences(text).subrange(cuts[i], cuts[i + 1])),
    );
    assert forall|i: int| 0 <= i < m implies parts[i] == #[trigger] goal[i] by {
        lemma_fair_cut(all.len(), runs, cuts, i);
        lemma_fair_cut(all.len(), runs, cuts, i + 1);
        assert(parts[i] == part_of(all, runs, i));
    }
    assert(parts =~= goal);
}

proof fn lemma_equal_lasting(runs: Seq<RunView>, d: int, k: int)
    requires
        0 <= k <= runs.len(),
        forall|i: int|
            #![trigger runs[i]]
            0 <= i < runs.len() ==> span(runs[i].start_ms, runs[i].end_ms) == d,
    ensures
        lasting(runs.take(k)) == k * d,
    decreases k,
{
    lemma_lasting(runs, k);
    if k > 0 {
        lemma_equal_lasting(runs, d, k - 1);
        lemma_lasting(runs, k - 1);
        assert(k * d == (k - 1) * d + d) by (nonlinear_arith);
        assert(span(runs[k - 1].start_ms, runs[k - 1].end_ms) == d);
    } else {
        assert(0 * d == 0) by (nonlinear_arith);
    }
}

/// Runs of equal length get equally many sentences each, in their order, where the number of
/// sentences allows it.
pub proof fn law_equal_runs_get_equally_many_sentences(
    text: Seq<char>,
    runs: Seq<RunView>,
    d: int,
    q: int,
)
    requires
        runs.len() > 1,
        d > 0,
        q > 0,
        sentences(text).len() == runs.len() * q,
        forall|i: int|
            #![trigger runs[i]]
            0 <= i < runs.len() ==> span(runs[i].start_ms, runs[i].end_ms) == d,
        sentences(text).len() * (runs.len() * d) < 0x80_0000,
    ensures
        split_text(text, runs) == Some(
            Seq::new(
                runs.len(),
                |i: int| joined(sentences(text).subrange(i * q, (i + 1) * q)),
            ),
        ),
{
    let n = sentences(text).len();
    let m = runs.len() as int;
    let cuts = Seq::new((m + 1) as nat, |i: int| i * q);
    lemma_equal_lasting(runs, d, m);
    assert(runs.take(m) =~= runs);
    assert(m * d > 0) by (nonlinear_arith)
        requires
            m > 1,
            d > 0,
    ;
    assert(m * q >= m) by (nonlinear_arith)
        requires
            m > 1,
            q >= 1,
    ;
    assert(0 * q == 0) by (nonlinear_arith);
    assert forall|i: int| #![trigger cuts[i]] 0 < i < m implies fair_cut(
        n,
        runs,
        cuts[i - 1],
        cuts[i],
        i,
    ) by {
        lemma_equal_lasting(runs, d, i);
        assert(2 * (n * (i * d)) + m * d == (i * q) * (2 * (m * d)) + m * d) by (nonlinear_arith)
            requires
                n == m * q,
        ;
        lemma_fundamental_div_mod_converse(
            2 * (n * (i * d)) + m * d,
            2 * (m * d),
            i * q,
            m * d,
        );
        assert((i - 1) * q < i * q) by (nonlinear_arith)
            requires
                q > 0,
        ;
        assert(i * q <= m * q - (m - i)) by (nonlinear_arith)
            requires
                q >= 1,
                i < m,
        ;
    }
    assert(fair_cuts(n, runs, cuts));
    law_sentences_follow_the_time(text, runs, cuts);
    let goal = Seq::new(
        runs.len(),
        |i: int| joined(sentences(text).subrange(i * q, (i + 1) * q)),
    );
    assert(split_text(text, runs)->0 =~= goal);
}

proof fn lemma_standing(all: Seq<RunView>, k: int, length: nat)
    requires
        0 <= k <= all.len(),
    ensures
        standing(all, k, length) == all.take(k).filter(|r: RunView| stands(r, length)),
    decreases k,
{
    reveal(Seq::filter);
    if k > 0 {
        lemma_standing(all, k - 1, length);
        assert(all.take(k).drop_last() =~= all.take(k - 1));
        assert(all.take(k).last() == all[k - 1]);
    }
}

/// A segment is split at all of its runs that may stand on their own, in their order, where
/// there are at least two of them and not too many; else it is not split.
pub proof fn law_segments_are_split_at_standing_runs(
    segment: TranscriptSegment,
    w: Seq<WindowView>,
    threshold: Float32,
)
    ensures
        ({
            let kept = range_runs(w, segment.start_ms, segment.end_ms, threshold).filter(
                |r: RunView| stands(r, span(segment.start_ms, segment.end_ms)),
            );
            split_runs(segment, w, threshold) == if 1 < kept.len() <= MAX_SPLITS {
                kept
            } else {
                Seq::empty()
            }
        }),
{
    let all = range_runs(w, segment.start_ms, segment.end_ms, threshold);
    let length = span(segment.start_ms, segment.end_ms);
    lemma_standing(all, all.len() as int, length);
    assert(all.take(all.len() as int) =~= all);
    all.lemma_filter_len(|r: RunView| stands(r, length));
    if all.len() <= 1 {
        assert(split_runs(segment, w, threshold) =~= Seq::empty());
    }
}

/// A segment that has a sentence for every run at which it is split becomes one piece for
/// each run: with the speaker, the times and the confidence of that run, and with the
/// sentences that are due to it by the time that it lasts.
pub proof fn law_speakers_get_their_own_sentences(
    segment: TranscriptSegment,
    w: Seq<WindowView>,
    threshold: Float32,
    cuts: Seq<int>,
)
    requires
        ({
            let runs = split_runs(segment, w, threshold);
            let n = sentences(segment.text@).len();
            1 < runs.len() <= n && n * lasting(runs) < 0x80_0000 && fair_cuts(n, runs, cuts)
        }),
    ensures
        ({
            let runs = split_runs(segment, w, threshold);
            let all = sentences(segment.text@);
            split_segment(segment, w, threshold) == Seq::new(
                runs.len(),
                |i: int|
                    DiarizedView {
                        speaker: runs[i].speaker,
                        start_ms: runs[i].start_ms,
                        end_ms: runs[i].end_ms,
                        text: joined(all.subrange(cuts[i], cuts[i + 1])),
                        confidence: runs[i].confidence,
                    },
            )
        }),
{
    let runs = split_runs(segment, w, threshold);
    let m = runs.len() as int;
    let all = sentences(segment.text@);
    let found = range_runs(w, segment.start_ms, segment.end_ms, threshold);
    assert(segment.start_ms < segment.end_ms);
    law_runs_fill_the_stretch(w, segment.start_ms, segment.end_ms, threshold);
    lemma_standing_in_order(
        found,
        found.len() as int,
        span(segment.start_ms, segment.end_ms),
        segment.start_ms,
        segment.end_ms,
    );
    assert(in_order(runs, segment.start_ms, segment.end_ms as int));
    lemma_lasting(runs, m);
    assert(runs.take(m) =~= runs);
    assert(spoken(runs, m) > 0) by {
        assert(runs[m - 1].start_ms < runs[m - 1].end_ms);
    }
    law_sentences_follow_the_time(segment.text@, runs, cuts);
    lemma_split(segment, w, threshold);
    let out = split_segment(segment, w, threshold);
    lemma_split_in_pieces(segment, w, threshold);
    let goal = Seq::new(
        runs.len(),
        |i: int|
            DiarizedView {
                speaker: runs[i].speaker,
                start_ms: runs[i].start_ms,
                end_ms: runs[i].end_ms,
                text: joined(all.subrange(cuts[i], cuts[i + 1])),
                confidence: runs[i].confidence,
            },
    );
    let parts = split_text(segment.text@, runs)->0;
    assert forall|i: int| 0 <= i < m implies out[i] == #[trigger] goal[i] by {
        assert(segment.start_ms <= runs[i].start_ms < runs[i].end_ms <= segment.end_ms);
        assert(parts[i] == part_of(all, runs, i));
        assert(parts[i] == joined(all.subrange(cuts[i], cuts[i + 1])));
    }
    assert(out =~= goal);
}

/// A segment that is not to be split, or has fewer sentences than runs, stays in one piece, in
/// its own time and with its own text, and goes to whom the whole of it belongs.
pub proof fn law_too_few_sentences_stay_together(
    segment: TranscriptSegment,
    w: Seq<WindowView>,
    threshold: Float32,
)
    requires
        ({
            let runs = split_runs(segment, w, threshold);
            runs.len() == 0 || runs.len() > sentences(segment.text@).len()
        }),
    ensures
        ({
            let (speaker, confidence) = range_speaker(w, segment.start_ms, segment.end_ms);
            split_segment(segment, w, threshold) == seq![
                DiarizedView {
                    speaker,
                    start_ms: segment.start_ms,
                    end_ms: segment.end_ms,
                    text: segment.text@,
                    confidence,
                },
            ]
        }),
{
    lemma_split(segment, w, threshold);
    let runs = split_runs(segment, w, threshold);
    let all = range_runs(w, segment.start_ms, segment.end_ms, threshold);
    assert(runs.len() != 1);
    assert(split_segment(segment, w, threshold) == seq![whole(segment, w)]);
}

} // verus!
