//! Splitting transcript segments at speaker changes, and absorbing short ones.
use vstd::prelude::*;
use crate::float32::{larger, of_integer, product, quotient, rounded_integer, smaller, Float32};
use crate::meeting::data::{span, TranscriptSegment};
use crate::meeting::diarization::run_laws::{law_runs_fill_the_stretch, leads_on, tiles};
use crate::meeting::diarization::runs::{
    at_least_one, range_runs, run_views, speaker_runs, RunView, SpeakerRun,
};
use crate::meeting::diarization::windows::{
    range_speaker, speaker_for_range, window_views, SpeakerWindow, WindowView,
};
use crate::meeting::diarization::{diarized_views, DiarizedSegment, DiarizedView, SpeakerId};
use crate::text::{
    count_words, join_range, joined, sentence_chunks, sentences, texts, trim, trimmed, word_count,
};

verus! {

/// A run of at least this length may stand on its own after a split.
pub const MIN_SPLIT_RUN_MS: u64 = 1200;

/// 0.18, the share of a segment from which a shorter run may, too.
pub const MIN_SPLIT_SHARE_BITS: u32 = 0x3e38_51ec;

/// The most runs that a segment is split into.
pub const MAX_SPLITS: usize = 4;

/// A segment up to this length may be absorbed.
pub const LOW_INFORMATION_MAX_MS: u64 = 2500;

/// A segment up to this number of words may be absorbed.
pub const LOW_INFORMATION_MAX_WORDS: usize = 6;

/// The largest gap to a neighbour that absorbs.
pub const NEIGHBOR_GAP_MS: u64 = 12000;

/// The milliseconds of the first `k` runs.
pub open spec fn spoken(runs: Seq<RunView>, k: int) -> nat
    decreases k,
{
    if k <= 0 {
        0
    } else {
        spoken(runs, k - 1) + span(runs[k - 1].start_ms, runs[k - 1].end_ms)
    }
}

/// `x`, or the bound that it exceeds; the lower one counts where they cross.
pub open spec fn within(x: nat, lo: int, hi: int) -> int {
    let top = if hi > lo {
        hi
    } else {
        lo
    };
    if x < lo {
        lo
    } else if x > top {
        top
    } else {
        x as int
    }
}

/// How many of `n` sentences go to the first `i` runs: in proportion to their time, but
/// at least one to every run.
pub open spec fn sentence_cut(n: nat, runs: Seq<RunView>, i: int) -> int
    decreases i,
{
    if i <= 0 {
        0
    } else if i >= runs.len() {
        n as int
    } else {
        let target = rounded_integer(
            quotient(
                product(of_integer(n), of_integer(spoken(runs, i))),
                of_integer(spoken(runs, runs.len() as int)),
            ),
        );
        within(target, sentence_cut(n, runs, i - 1) + 1, n - (runs.len() - i))
    }
}

/// The text that goes to run `i`.
pub open spec fn part_of(all: Seq<Seq<char>>, runs: Seq<RunView>, i: int) -> Seq<char> {
    joined(all.subrange(sentence_cut(all.len(), runs, i), sentence_cut(all.len(), runs, i + 1)))
}

/// A text cut into one part for each run, at ends of sentences; nothing where there are
/// fewer sentences than runs. One run, or runs without any time, take the whole text.
pub open spec fn split_text(text: Seq<char>, runs: Seq<RunView>) -> Option<Seq<Seq<char>>> {
    let all = sentences(text);
    if runs.len() <= 1 {
        Some(seq![trimmed(text)])
    } else if all.len() < runs.len() {
        None
    } else if spoken(runs, runs.len() as int) == 0 {
        Some(seq![trimmed(text)])
    } else {
        Some(Seq::new(runs.len(), |i: int| part_of(all, runs, i)))
    }
}

/// Whether a run may stand on its own after a split of a segment of the given length.
pub open spec fn stands(run: RunView, length: nat) -> bool {
    let d = span(run.start_ms, run.end_ms);
    d >= MIN_SPLIT_RUN_MS || (Float32 { bits: MIN_SPLIT_SHARE_BITS }).at_most(
        quotient(of_integer(d), of_integer(at_least_one(length))),
    )
}

/// Those of the first `k` runs that may stand on their own.
pub open spec fn standing(runs: Seq<RunView>, k: int, length: nat) -> Seq<RunView>
    decreases k,
{
    if k <= 0 {
        Seq::empty()
    } else if stands(runs[k - 1], length) {
        standing(runs, k - 1, length).push(runs[k - 1])
    } else {
        standing(runs, k - 1, length)
    }
}

/// A segment in one piece, attributed as a whole.
pub open spec fn whole(segment: TranscriptSegment, w: Seq<WindowView>) -> DiarizedView {
    let (speaker, confidence) = range_speaker(w, segment.start_ms, segment.end_ms);
    DiarizedView {
        speaker,
        start_ms: segment.start_ms,
        end_ms: segment.end_ms,
        text: segment.text@,
        confidence,
    }
}

/// The piece of a segment that a run takes with the given text.
pub open spec fn piece(segment: TranscriptSegment, run: RunView, text: Seq<char>) -> DiarizedView {
    DiarizedView {
        speaker: run.speaker,
        start_ms: if run.start_ms > segment.start_ms {
            run.start_ms
        } else {
            segment.start_ms
        },
        end_ms: if run.end_ms < segment.end_ms {
            run.end_ms
        } else {
            segment.end_ms
        },
        text,
        confidence: run.confidence,
    }
}

/// The pieces of the first `k` runs, those with a blank text left out.
pub open spec fn pieces_of(
    segment: TranscriptSegment,
    runs: Seq<RunView>,
    parts: Seq<Seq<char>>,
    k: int,
) -> Seq<DiarizedView>
    decreases k,
{
    if k <= 0 {
        Seq::empty()
    } else {
        let prev = pieces_of(segment, runs, parts, k - 1);
        let text = trimmed(parts[k - 1]);
        if text.len() == 0 {
            prev
        } else {
            prev.push(piece(segment, runs[k - 1], text))
        }
    }
}

/// The runs at which a segment is split; none where it stays in one piece.
pub open spec fn split_runs(segment: TranscriptSegment, w: Seq<WindowView>, threshold: Float32) -> Seq<
    RunView,
> {
    let all = range_runs(w, segment.start_ms, segment.end_ms, threshold);
    let runs = standing(all, all.len() as int, span(segment.start_ms, segment.end_ms));
    if all.len() <= 1 || runs.len() <= 1 || runs.len() > MAX_SPLITS {
        Seq::empty()
    } else {
        runs
    }
}

/// A segment split at its speaker changes, where it has runs that may stand on their own
/// and enough sentences for them; else in one piece.
pub open spec fn split_segment(
    segment: TranscriptSegment,
    w: Seq<WindowView>,
    threshold: Float32,
) -> Seq<DiarizedView> {
    let runs = split_runs(segment, w, threshold);
    let parts = split_text(segment.text@, runs);
    let pieces = pieces_of(segment, runs, parts->0, runs.len() as int);
    if runs.len() == 0 || parts is None || parts->0.len() != runs.len() || pieces.len() == 0 {
        seq![whole(segment, w)]
    } else {
        pieces
    }
}

/// The first `k` segments, each split at its speaker changes.
pub open spec fn split_segments(
    segments: Seq<TranscriptSegment>,
    k: int,
    w: Seq<WindowView>,
    threshold: Float32,
) -> Seq<DiarizedView>
    decreases k,
{
    if k <= 0 {
        Seq::empty()
    } else {
        split_segments(segments, k - 1, w, threshold) + split_segment(
            segments[k - 1],
            w,
            threshold,
        )
    }
}

/// A segment that says too little to have a speaker of its own.
pub open spec fn low_information(s: DiarizedView) -> bool {
    span(s.start_ms, s.end_ms) <= LOW_INFORMATION_MAX_MS && word_count(s.text)
        <= LOW_INFORMATION_MAX_WORDS
}

/// Whether segment `i` is absorbed: it says little, and both neighbours are near, of one
/// numbered speaker, and not below the threshold.
pub open spec fn absorbed_at(s: Seq<DiarizedView>, i: int, threshold: Float32) -> bool {
    &&& 0 < i < s.len() - 1
    &&& low_information(s[i])
    &&& s[i - 1].speaker == s[i + 1].speaker
    &&& s[i - 1].speaker is Auto
    &&& span(s[i - 1].end_ms, s[i].start_ms) <= NEIGHBOR_GAP_MS
    &&& span(s[i].end_ms, s[i + 1].start_ms) <= NEIGHBOR_GAP_MS
    &&& !s[i - 1].confidence.below(threshold)
    &&& !s[i + 1].confidence.below(threshold)
}

/// The segments with those from `i` on absorbed, one after the other.
pub open spec fn absorbed_from(s: Seq<DiarizedView>, i: int, threshold: Float32) -> Seq<DiarizedView>
    decreases s.len() - i,
{
    if i >= s.len() {
        s
    } else if absorbed_at(s, i, threshold) {
        absorbed_from(
            s.update(
                i,
                DiarizedView {
                    speaker: s[i - 1].speaker,
                    confidence: larger(
                        s[i].confidence,
                        smaller(s[i - 1].confidence, s[i + 1].confidence),
                    ),
                    ..s[i]
                },
            ),
            i + 1,
            threshold,
        )
    } else {
        absorbed_from(s, i + 1, threshold)
    }
}

/// The segments with those that say too little absorbed by their neighbours.
pub open spec fn absorbed(s: Seq<DiarizedView>, threshold: Float32) -> Seq<DiarizedView> {
    absorbed_from(s, 1, threshold)
}

proof fn lemma_spoken_grows(runs: Seq<RunView>, i: int, k: int)
    requires
        i <= k,
    ensures
        spoken(runs, i) <= spoken(runs, k),
    decreases k - i,
{
    if i < k {
        lemma_spoken_grows(runs, i, k - 1);
    }
}

/// Every run gets at least one sentence.
pub proof fn lemma_sentence_cut(n: nat, runs: Seq<RunView>, i: int)
    requires
        n >= runs.len(),
        0 <= i < runs.len(),
    ensures
        i <= sentence_cut(n, runs, i) <= n - (runs.len() - i),
        sentence_cut(n, runs, i) < sentence_cut(n, runs, i + 1),
    decreases i,
{
    if i > 0 {
        lemma_sentence_cut(n, runs, i - 1);
    }
    assert(i <= sentence_cut(n, runs, i) <= n - (runs.len() - i));
}

/// Cuts a text into one part for each run.
pub fn split_text_by_runs(text: &str, runs: &Vec<SpeakerRun>) -> (r: Option<Vec<String>>)
    requires
        spoken(run_views(runs@), runs.len() as int) <= u64::MAX,
    ensures
        match (r, split_text(text@, run_views(runs@))) {
            (Some(a), Some(b)) => texts(a@) == b,
            (None, None) => true,
            _ => false,
        },
{
    let ghost views = run_views(runs@);
    let count: usize = runs.len();
    if count <= 1 {
        let mut out: Vec<String> = Vec::new();
        out.push(trim(text));
        assert(texts(out@) =~= seq![trimmed(text@)]);
        return Some(out);
    }
    let all: Vec<String> = sentence_chunks(text);
    let ghost said = sentences(text@);
    let n: usize = all.len();
    assert(n == said.len());
    if n < count {
        return None;
    }
    let mut total: u64 = 0;
    let mut j: usize = 0;
    while j < count
        invariant
            j <= count == runs.len(),
            views == run_views(runs@),
            total == spoken(views, j as int),
            spoken(views, count as int) <= u64::MAX,
        decreases count - j,
    {
        assert(views[j as int] == runs@[j as int]@);
        proof {
            lemma_spoken_grows(views, j + 1, count as int);
        }
        total = total + runs[j].duration_ms();
        j = j + 1;
    }
    if total == 0 {
        let mut out: Vec<String> = Vec::new();
        out.push(trim(text));
        assert(texts(out@) =~= seq![trimmed(text@)]);
        return Some(out);
    }
    let ghost goal = Seq::new(views.len(), |i: int| part_of(said, views, i));
    let mut parts: Vec<String> = Vec::new();
    let mut start: usize = 0;
    let mut consumed: u64 = 0;
    let mut i: usize = 0;
    assert(texts(parts@) =~= goal.take(0));
    while i < count
        invariant
            i <= count == runs.len(),
            1 < count <= n,
            n == said.len(),
            n == all.len(),
            said == sentences(text@),
            texts(all@) == said,
            views == run_views(runs@),
            goal == Seq::new(views.len(), |i: int| part_of(said, views, i)),
            total == spoken(views, count as int),
            consumed == spoken(views, i as int),
            start == sentence_cut(n as nat, views, i as int),
            texts(parts@) == goal.take(i as int),
        decreases count - i,
    {
        proof {
            lemma_sentence_cut(n as nat, views, i as int);
            if i + 1 < count {
                lemma_sentence_cut(n as nat, views, i + 1);
            }
            lemma_spoken_grows(views, i + 1, count as int);
            assert(views[i as int] == runs@[i as int]@);
        }
        consumed = consumed + runs[i].duration_ms();
        let end: usize = if i + 1 == count {
            n
        } else {
            let target: u64 = Float32::from_u64(n as u64).mul(Float32::from_u64(consumed)).div(
                Float32::from_u64(total),
            ).round();
            let lo: usize = start + 1;
            let hi: usize = n - (count - i - 1);
            if target < lo as u64 {
                lo
            } else if target > hi as u64 {
                hi
            } else {
                target as usize
            }
        };
        assert(end == sentence_cut(n as nat, views, i + 1));
        let ghost before = texts(parts@);
        parts.push(join_range(&all, start, end));
        assert(texts(parts@) =~= before.push(part_of(said, views, i as int)));
        assert(goal.take(i + 1) =~= goal.take(i as int).push(goal[i as int]));
        start = end;
        i = i + 1;
    }
    assert(goal.take(count as int) =~= goal);
    Some(parts)
}

fn attribute_whole(segment: &TranscriptSegment, windows: &Vec<SpeakerWindow>) -> (r: Vec<
    DiarizedSegment,
>)
    ensures
        diarized_views(r@) == seq![whole(*segment, window_views(windows@))],
{
    let (speaker, confidence) = speaker_for_range(segment.start_ms, segment.end_ms, windows);
    let mut out: Vec<DiarizedSegment> = Vec::new();
    out.push(
        DiarizedSegment {
            speaker,
            start_ms: segment.start_ms,
            end_ms: segment.end_ms,
            text: segment.text.clone(),
            confidence,
        },
    );
    assert(diarized_views(out@) =~= seq![whole(*segment, window_views(windows@))]);
    out
}

/// Runs that follow one another do not last longer than the time they fill.
proof fn lemma_standing_time(all: Seq<RunView>, k: int, length: nat, start: u64, end: u64)
    requires
        tiles(all, start, end),
        0 <= k <= all.len(),
    ensures
        ({
            let runs = standing(all, k, length);
            &&& runs.len() <= k
            &&& spoken(runs, runs.len() as int) <= (if k == 0 {
                0
            } else {
                all[k - 1].end_ms - start
            })
        }),
        k > 0 ==> start < all[k - 1].end_ms,
    decreases k,
{
    if k > 0 {
        lemma_standing_time(all, k - 1, length, start, end);
        assert(leads_on(all, k - 1));
        if k > 1 {
            assert(leads_on(all, k - 2));
        }
        let prev = standing(all, k - 1, length);
        let runs = standing(all, k, length);
        if stands(all[k - 1], length) {
            lemma_spoken_same(prev, runs, prev.len() as int);
        }
    }
}

proof fn lemma_spoken_same(a: Seq<RunView>, b: Seq<RunView>, k: int)
    requires
        0 <= k <= a.len(),
        k <= b.len(),
        forall|i: int| #![trigger b[i]] 0 <= i < k ==> a[i] == b[i],
    ensures
        spoken(a, k) == spoken(b, k),
    decreases k,
{
    if k > 0 {
        lemma_spoken_same(a, b, k - 1);
        assert(a[k - 1] == b[k - 1]);
    }
}

/// The runs at which a segment is split.
fn find_split_runs(
    segment: &TranscriptSegment,
    windows: &Vec<SpeakerWindow>,
    threshold: Float32,
) -> (r: Vec<SpeakerRun>)
    ensures
        run_views(r@) == split_runs(*segment, window_views(windows@), threshold),
        spoken(run_views(r@), r.len() as int) <= u64::MAX,
{
    let ghost views = window_views(windows@);
    let all: Vec<SpeakerRun> = speaker_runs(segment.start_ms, segment.end_ms, windows, threshold);
    let ghost runs = run_views(all@);
    let mut out: Vec<SpeakerRun> = Vec::new();
    assert(run_views(out@) =~= Seq::empty());
    if all.len() <= 1 {
        return out;
    }
    let length: u64 = segment.duration_ms();
    let divisor: u64 = if length == 0 { 1 } else { length };
    let mut i: usize = 0;
    while i < all.len()
        invariant
            i <= all.len(),
            runs == run_views(all@),
            divisor == at_least_one(length as nat),
            run_views(out@) == standing(runs, i as int, length as nat),
        decreases all.len() - i,
    {
        let d: u64 = all[i].duration_ms();
        assert(runs[i as int] == all@[i as int]@);
        let share: Float32 = Float32::from_u64(d).div(Float32::from_u64(divisor));
        if d >= MIN_SPLIT_RUN_MS || share.ge(Float32::from_bits(MIN_SPLIT_SHARE_BITS)) {
            let ghost before = run_views(out@);
            let run = SpeakerRun {
                start_ms: all[i].start_ms,
                end_ms: all[i].end_ms,
                speaker: all[i].speaker.clone(),
                confidence: all[i].confidence,
            };
            out.push(run);
            assert(run@ == runs[i as int]);
            assert(run_views(out@) =~= before.push(runs[i as int]));
        }
        i = i + 1;
    }
    proof {
        assert(segment.start_ms < segment.end_ms);
        law_runs_fill_the_stretch(views, segment.start_ms, segment.end_ms, threshold);
        lemma_standing_time(
            runs,
            runs.len() as int,
            length as nat,
            segment.start_ms,
            segment.end_ms,
        );
    }
    if out.len() <= 1 || out.len() > MAX_SPLITS {
        let none: Vec<SpeakerRun> = Vec::new();
        assert(run_views(none@) =~= Seq::empty());
        return none;
    }
    out
}

/// Splits a segment at its speaker changes.
pub fn split_by_runs(
    segment: &TranscriptSegment,
    windows: &Vec<SpeakerWindow>,
    threshold: Float32,
) -> (r: Vec<DiarizedSegment>)
    ensures
        diarized_views(r@) == split_segment(*segment, window_views(windows@), threshold),
{
    let runs: Vec<SpeakerRun> = find_split_runs(segment, windows, threshold);
    let ghost views = run_views(runs@);
    if runs.len() == 0 {
        return attribute_whole(segment, windows);
    }
    match split_text_by_runs(segment.text.as_str(), &runs) {
        None => attribute_whole(segment, windows),
        Some(parts) => {
            let ghost said = texts(parts@);
            if parts.len() != runs.len() {
                return attribute_whole(segment, windows);
            }
            let mut out: Vec<DiarizedSegment> = Vec::new();
            let mut i: usize = 0;
            assert(diarized_views(out@) =~= Seq::empty());
            while i < runs.len()
                invariant
                    i <= runs.len() == parts.len(),
                    views == run_views(runs@),
                    said == texts(parts@),
                    diarized_views(out@) == pieces_of(*segment, views, said, i as int),
                decreases runs.len() - i,
            {
                let text: String = trim(parts[i].as_str());
                assert(views[i as int] == runs@[i as int]@);
                assert(said[i as int] == parts@[i as int]@);
                if !text.as_str().is_empty() {
                    let run: &SpeakerRun = &runs[i];
                    let start_ms: u64 = if run.start_ms > segment.start_ms {
                        run.start_ms
                    } else {
                        segment.start_ms
                    };
                    let end_ms: u64 = if run.end_ms < segment.end_ms {
                        run.end_ms
                    } else {
                        segment.end_ms
                    };
                    let ghost before = diarized_views(out@);
                    let one = DiarizedSegment {
                        speaker: run.speaker.clone(),
                        start_ms,
                        end_ms,
                        text,
                        confidence: run.confidence,
                    };
                    out.push(one);
                    assert(diarized_views(out@) =~= before.push(
                        piece(*segment, views[i as int], one.text@),
                    ));
                }
                i = i + 1;
            }
            if out.len() == 0 {
                attribute_whole(segment, windows)
            } else {
                out
            }
        },
    }
}

proof fn lemma_views_append(a: Seq<DiarizedSegment>, b: Seq<DiarizedSegment>)
    ensures
        diarized_views(a + b) == diarized_views(a) + diarized_views(b),
{
    assert(diarized_views(a + b) =~= diarized_views(a) + diarized_views(b));
}

/// Splits every segment at its speaker changes.
pub fn split_all(
    segments: &[TranscriptSegment],
    windows: &Vec<SpeakerWindow>,
    threshold: Float32,
) -> (r: Vec<DiarizedSegment>)
    ensures
        diarized_views(r@) == split_segments(
            segments@,
            segments@.len() as int,
            window_views(windows@),
            threshold,
        ),
{
    let ghost w = window_views(windows@);
    let mut out: Vec<DiarizedSegment> = Vec::new();
    let mut i: usize = 0;
    assert(diarized_views(out@) =~= Seq::empty());
    while i < segments.len()
        invariant
            i <= segments.len(),
            w == window_views(windows@),
            diarized_views(out@) == split_segments(segments@, i as int, w, threshold),
        decreases segments.len() - i,
    {
        let mut more: Vec<DiarizedSegment> = split_by_runs(&segments[i], windows, threshold);
        let ghost a = out@;
        let ghost b = more@;
        out.append(&mut more);
        proof {
            lemma_views_append(a, b);
        }
        i = i + 1;
    }
    out
}

/// Whether a segment says too little to have a speaker of its own.
pub fn is_low_information_segment(segment: &DiarizedSegment) -> (r: bool)
    ensures
        r == low_information(segment@),
{
    segment.end_ms.saturating_sub(segment.start_ms) <= LOW_INFORMATION_MAX_MS && count_words(
        segment.text.as_str(),
    ) <= LOW_INFORMATION_MAX_WORDS
}

fn absorbs_at(segments: &Vec<DiarizedSegment>, i: usize, threshold: Float32) -> (r: bool)
    requires
        0 < i < segments.len() - 1,
    ensures
        r == absorbed_at(diarized_views(segments@), i as int, threshold),
{
    let prev: &DiarizedSegment = &segments[i - 1];
    let this: &DiarizedSegment = &segments[i];
    let next: &DiarizedSegment = &segments[i + 1];
    let ghost views = diarized_views(segments@);
    assert(views[i - 1] == prev@ && views[i as int] == this@ && views[i + 1] == next@);
    let numbered: bool = match prev.speaker {
        SpeakerId::Auto(_) => true,
        _ => false,
    };
    is_low_information_segment(this) && prev.speaker == next.speaker && numbered
        && this.start_ms.saturating_sub(prev.end_ms) <= NEIGHBOR_GAP_MS
        && next.start_ms.saturating_sub(this.end_ms) <= NEIGHBOR_GAP_MS && !prev.confidence.lt(
        threshold,
    ) && !next.confidence.lt(threshold)
}

/// Gives segments that say too little to their neighbours' speaker.
pub fn absorb(segments: &mut Vec<DiarizedSegment>, threshold: Float32)
    ensures
        diarized_views(final(segments)@) == absorbed(diarized_views(old(segments)@), threshold),
{
    let n: usize = segments.len();
    let ghost goal = absorbed(diarized_views(old(segments)@), threshold);
    let mut i: usize = 1;
    while i < n
        invariant
            1 <= i,
            n == segments.len(),
            absorbed_from(diarized_views(segments@), i as int, threshold) == goal,
        decreases n - i,
    {
        if i < n - 1 && absorbs_at(segments, i, threshold) {
            let ghost before = diarized_views(segments@);
            let speaker: SpeakerId = segments[i - 1].speaker.clone();
            let low: Float32 = segments[i - 1].confidence.min(segments[i + 1].confidence);
            let confidence: Float32 = segments[i].confidence.max(low);
            segments[i].speaker = speaker;
            segments[i].confidence = confidence;
            assert(diarized_views(segments@) =~= before.update(
                i as int,
                DiarizedView { speaker: speaker@, confidence, ..before[i as int] },
            ));
        }
        i = i + 1;
    }
}

} // verus!
