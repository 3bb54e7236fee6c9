//! Attributions name known speakers only, from the first window to the last segment, and no
//! word is lost on the way.
use vstd::prelude::*;
use crate::float32::{larger, smaller, Float32};
use crate::meeting::data::{span, TranscriptSegment};
use crate::meeting::diarization::clusters::{
    assigned, cluster_threshold, clusters_of, lemma_run_end, promoted_cluster,
    promoted_clusters, promoted_from, promoted_run, refreshed, run_end, ClusterView,
    Knowledge, Matching,
};
use crate::meeting::diarization::embedding::{
    labelled, loopback_segments, numbered, speakers_after,
};
use crate::meeting::diarization::match_laws::{
    law_clusters_go_to_the_most_similar, law_first_attribution_is_the_most_similar,
};
use crate::meeting::diarization::plan::PlannedWindow;
use crate::meeting::diarization::runs::{
    cut_points, extended, interval_runs, lemma_fewer_runs, merge_pass, range_runs, resume_at,
    settled, stretch, transient, without_run, RunView,
};
use crate::meeting::diarization::score_laws::{law_scores_are_the_speakers_own, windows_of};
use crate::meeting::diarization::speaker_laws::law_refreshing_keeps_speakers;
use crate::meeting::diarization::split::{
    absorbed, absorbed_at, absorbed_from, pieces_of, split_runs, split_segment,
    split_segments, split_text, standing, whole,
};
use crate::meeting::diarization::split_laws::{
    law_absorbing_keeps_segments, law_splitting_keeps_text, spoken_texts,
};
use crate::meeting::diarization::vectors::CentroidView;
use crate::meeting::diarization::window_laws::{law_dominant_has_the_largest_score, scored};
use crate::meeting::diarization::windows::{
    dominant, range_scores, range_speaker, smoothed, smoothed_once, WindowView,
};
use crate::meeting::diarization::{DiarizedView, Speaker};
use crate::text::joined;
use crate::text_laws::{lemma_solid_append, solid};

verus! {

/// A speaker who is one of `n` numbered ones, or is not numbered at all.
pub open spec fn known(s: Speaker, n: nat) -> bool {
    s matches Speaker::Auto(id) ==> id < n
}

pub open spec fn windows_known(w: Seq<WindowView>, n: nat) -> bool {
    forall|i: int| #![trigger w[i]] 0 <= i < w.len() ==> known(w[i].speaker, n)
}

pub open spec fn runs_known(r: Seq<RunView>, n: nat) -> bool {
    forall|i: int| #![trigger r[i]] 0 <= i < r.len() ==> known(r[i].speaker, n)
}

pub open spec fn segments_known(d: Seq<DiarizedView>, n: nat) -> bool {
    forall|i: int| #![trigger d[i]] 0 <= i < d.len() ==> known(d[i].speaker, n)
}

/// The windows of a chunk name known speakers.
pub proof fn law_windows_name_known_speakers(
    centroids: Seq<CentroidView>,
    max_speakers: u32,
    plan: Seq<PlannedWindow>,
    embeddings: Seq<Option<Seq<Float32>>>,
    k: int,
    confident: Float32,
)
    requires
        numbered(centroids, max_speakers),
    ensures
        windows_known(labelled(centroids, plan, embeddings, k, confident), centroids.len()),
    decreases k,
{
    if k > 0 {
        law_windows_name_known_speakers(
            centroids,
            max_speakers,
            plan,
            embeddings,
            k - 1,
            confident,
        );
        if let Some(e) = embeddings[k - 1] {
            law_first_attribution_is_the_most_similar(centroids, e, confident);
        }
    }
}

proof fn lemma_smoothed(w: Seq<WindowView>, threshold: Float32, n: nat)
    requires
        windows_known(w, n),
    ensures
        windows_known(smoothed(w, threshold), n),
        smoothed(w, threshold).len() == w.len(),
{
    lemma_smoothed_once(w, threshold, n);
    lemma_smoothed_once(smoothed_once(w, threshold), threshold, n);
}

proof fn lemma_smoothed_once(w: Seq<WindowView>, threshold: Float32, n: nat)
    requires
        windows_known(w, n),
    ensures
        windows_known(smoothed_once(w, threshold), n),
{
    let after = smoothed_once(w, threshold);
    assert forall|i: int| #![trigger after[i]] 0 <= i < after.len() implies known(
        after[i].speaker,
        n,
    ) by {
        assert(known(w[i].speaker, n));
        if 0 < i < w.len() - 1 {
            assert(known(w[i - 1].speaker, n));
        }
    }
}

proof fn lemma_assigned_known(
    centroids: Seq<CentroidView>,
    embedding: Seq<Float32>,
    count: nat,
    duration: nat,
    m: Matching,
)
    requires
        numbered(centroids, m.max_speakers),
    ensures
        ({
            let a = assigned(centroids, embedding, count, duration, m);
            &&& numbered(a.0, m.max_speakers)
            &&& centroids.len() <= a.0.len()
            &&& known(a.1, a.0.len())
        }),
{
    law_clusters_go_to_the_most_similar(centroids, embedding, count, duration, m);
    let a = assigned(centroids, embedding, count, duration, m);
    assert forall|i: int| #![trigger a.0[i]] 0 <= i < a.0.len() implies a.0[i].id == i by {
        if i < centroids.len() {
            assert(centroids[i].id == i);
            if a.0.len() > centroids.len() {
                assert(a.0.drop_last()[i] == centroids[i]);
            }
        }
    }
}

proof fn lemma_clusters_known(
    s: Knowledge,
    clusters: Seq<ClusterView>,
    k: int,
    base: int,
    m: Matching,
)
    requires
        0 <= k <= clusters.len(),
        numbered(s.centroids, m.max_speakers),
        windows_known(s.windows, s.centroids.len()),
    ensures
        ({
            let t = promoted_clusters(s, clusters, k, base, m);
            &&& numbered(t.centroids, m.max_speakers)
            &&& s.centroids.len() <= t.centroids.len()
            &&& t.windows.len() == s.windows.len()
            &&& windows_known(t.windows, t.centroids.len())
        }),
    decreases k,
{
    if k > 0 {
        lemma_clusters_known(s, clusters, k - 1, base, m);
        let t = promoted_clusters(s, clusters, k - 1, base, m);
        let c = clusters[k - 1];
        let (from, to) = (base + c.start_idx, base + c.end_idx);
        lemma_assigned_known(
            t.centroids,
            c.embedding,
            (to - from) as nat,
            span(t.windows[from].start_ms, t.windows[to - 1].end_ms),
            m,
        );
        let u = promoted_cluster(t, c, base, m);
        assert forall|i: int| #![trigger u.windows[i]] 0 <= i < u.windows.len() implies known(
            u.windows[i].speaker,
            u.centroids.len(),
        ) by {
            assert(known(t.windows[i].speaker, t.centroids.len()));
        }
    }
}

proof fn lemma_promoted_known(s: Knowledge, i: int, m: Matching)
    requires
        0 <= i,
        numbered(s.centroids, m.max_speakers),
        windows_known(s.windows, s.centroids.len()),
    ensures
        ({
            let t = promoted_from(s, i, m);
            &&& numbered(t.centroids, m.max_speakers)
            &&& s.centroids.len() <= t.centroids.len()
            &&& t.windows.len() == s.windows.len()
            &&& windows_known(t.windows, t.centroids.len())
        }),
    decreases s.windows.len() - i,
{
    if i < s.windows.len() {
        if s.windows[i].speaker != Speaker::Remote {
            lemma_promoted_known(s, i + 1, m);
        } else {
            let e = run_end(s.windows, i + 1);
            lemma_run_end(s.windows, i + 1);
            let clusters = clusters_of(
                s.windows.subrange(i, e),
                e - i,
                cluster_threshold(m.confident),
            );
            lemma_clusters_known(s, clusters, clusters.len() as int, i, m);
            lemma_promoted_known(promoted_run(s, i, e, m), e, m);
        }
    }
}

/// After a chunk its windows name known speakers, the new ones included.
pub proof fn law_promoted_windows_name_known_speakers(
    centroids: Seq<CentroidView>,
    windows: Seq<WindowView>,
    m: Matching,
)
    requires
        numbered(centroids, m.max_speakers),
        windows_known(windows, centroids.len()),
    ensures
        ({
            let after = speakers_after(centroids, windows, m);
            &&& numbered(after.centroids, m.max_speakers)
            &&& centroids.len() <= after.centroids.len()
            &&& after.windows.len() == windows.len()
            &&& windows_known(after.windows, after.centroids.len())
        }),
{
    let w = smoothed(windows, m.confident);
    lemma_smoothed(windows, m.confident, centroids.len());
    law_refreshing_keeps_speakers(centroids, w, w.len() as int, m.confident, m.max_speakers);
    let c = refreshed(centroids, w, w.len() as int, m.confident);
    lemma_promoted_known(Knowledge { centroids: c, windows: w }, 0, m);
}

proof fn lemma_range_known(w: Seq<WindowView>, start: u64, end: u64, n: nat)
    requires
        windows_known(w, n),
    ensures
        known(range_speaker(w, start, end).0, n),
{
    let scores = range_scores(w, start, end);
    if scores.len() > 0 {
        law_dominant_has_the_largest_score(scores);
        let speaker = (dominant(scores)->0).0;
        let i = choose|i: int|
            #![trigger scores[i]]
            0 <= i < scores.len() && scores[i].0 == speaker;
        assert(scored(scores, speaker));
        law_scores_are_the_speakers_own(w, start, end, speaker);
        let mine = windows_of(w, speaker, start, end);
        lemma_from(w, speaker, start, end);
        assert(mine[0].speaker == speaker);
        assert(w.contains(mine[0]));
        let j = choose|j: int| 0 <= j < w.len() && w[j] == mine[0];
        assert(known(w[j].speaker, n));
    }
}

/// The windows of a speaker are the speaker's, and are among the windows.
proof fn lemma_from(w: Seq<WindowView>, speaker: Speaker, start: u64, end: u64)
    ensures
        forall|i: int|
            #![trigger windows_of(w, speaker, start, end)[i]]
            0 <= i < windows_of(w, speaker, start, end).len() ==> windows_of(
                w,
                speaker,
                start,
                end,
            )[i].speaker == speaker && w.contains(windows_of(w, speaker, start, end)[i]),
    decreases w.len(),
{
    reveal(Seq::filter);
    if w.len() > 0 {
        let front = w.drop_last();
        lemma_from(front, speaker, start, end);
        let all = windows_of(w, speaker, start, end);
        let part = windows_of(front, speaker, start, end);
        assert forall|i: int| #![trigger all[i]] 0 <= i < all.len() implies all[i].speaker
            == speaker && w.contains(all[i]) by {
            if i < part.len() {
                assert(all[i] == part[i]);
                let j = choose|j: int| 0 <= j < front.len() && front[j] == part[i];
                assert(w[j] == all[i]);
            } else {
                assert(all[i] == w.last());
                assert(w[w.len() - 1] == all[i]);
            }
        }
    }
}

proof fn lemma_interval_known(w: Seq<WindowView>, cuts: Seq<u64>, k: int, n: nat)
    requires
        windows_known(w, n),
    ensures
        runs_known(interval_runs(w, cuts, k), n),
    decreases k,
{
    if k > 0 {
        lemma_interval_known(w, cuts, k - 1, n);
        lemma_range_known(w, cuts[k - 1], cuts[k], n);
        let prev = interval_runs(w, cuts, k - 1);
        let r = interval_runs(w, cuts, k);
        let (speaker, confidence) = range_speaker(w, cuts[k - 1], cuts[k]);
        assert(r == extended(prev, cuts[k - 1], cuts[k], speaker, confidence));
        assert forall|i: int| #![trigger r[i]] 0 <= i < r.len() implies known(r[i].speaker, n) by {
            if i < prev.len() {
                assert(known(prev[i].speaker, n));
            }
        }
    }
}

proof fn lemma_without_known(runs: Seq<RunView>, i: int, n: nat)
    requires
        runs_known(runs, n),
        0 <= i < runs.len(),
        runs.len() > 1,
    ensures
        runs_known(without_run(runs, i), n),
{
    reveal(without_run);
    let r = without_run(runs, i);
    assert forall|j: int| #![trigger r[j]] 0 <= j < r.len() implies known(r[j].speaker, n) by {
        assert(known(runs[j].speaker, n));
        assert(known(runs[j + 1].speaker, n));
        if j + 2 < runs.len() {
            assert(known(runs[j + 2].speaker, n));
        }
    }
}

proof fn lemma_pass_known(runs: Seq<RunView>, i: int, total: u64, threshold: Float32, n: nat)
    requires
        runs_known(runs, n),
        0 <= i,
    ensures
        runs_known(merge_pass(runs, i, total, threshold), n),
    decreases 2 * runs.len() - i,
{
    if i < runs.len() {
        if runs.len() == 1 || !transient(
            runs[i],
            total,
            threshold,
        ) {
            lemma_pass_known(runs, i + 1, total, threshold, n);
        } else {
            lemma_fewer_runs(runs, i);
            lemma_without_known(runs, i, n);
            lemma_pass_known(without_run(runs, i), resume_at(runs, i), total, threshold, n);
        }
    }
}

proof fn lemma_settled_known(runs: Seq<RunView>, total: u64, threshold: Float32, n: nat)
    requires
        runs_known(runs, n),
    ensures
        runs_known(settled(runs, total, threshold), n),
    decreases runs.len(),
{
    lemma_pass_known(runs, 0, total, threshold, n);
    let next = merge_pass(runs, 0, total, threshold);
    if next.len() < runs.len() {
        lemma_settled_known(next, total, threshold, n);
    }
}

proof fn lemma_runs_known(w: Seq<WindowView>, start: u64, end: u64, threshold: Float32, n: nat)
    requires
        windows_known(w, n),
    ensures
        runs_known(range_runs(w, start, end, threshold), n),
{
    if start < end {
        let cuts = cut_points(w, w.len() as int, start, end);
        lemma_interval_known(w, cuts, cuts.len() - 1, n);
        lemma_settled_known(
            interval_runs(w, cuts, cuts.len() - 1),
            stretch(start, end),
            threshold,
            n,
        );
    }
}

proof fn lemma_standing_known(runs: Seq<RunView>, k: int, length: nat, n: nat)
    requires
        runs_known(runs, n),
        0 <= k <= runs.len(),
    ensures
        runs_known(standing(runs, k, length), n),
    decreases k,
{
    if k > 0 {
        lemma_standing_known(runs, k - 1, length, n);
        let prev = standing(runs, k - 1, length);
        let r = standing(runs, k, length);
        assert(known(runs[k - 1].speaker, n));
        assert forall|i: int| #![trigger r[i]] 0 <= i < r.len() implies known(r[i].speaker, n) by {
            if i < prev.len() {
                assert(known(prev[i].speaker, n));
            }
        }
    }
}

proof fn lemma_pieces_known(
    segment: TranscriptSegment,
    runs: Seq<RunView>,
    parts: Seq<Seq<char>>,
    k: int,
    n: nat,
)
    requires
        runs_known(runs, n),
        0 <= k <= runs.len(),
    ensures
        segments_known(pieces_of(segment, runs, parts, k), n),
    decreases k,
{
    if k > 0 {
        lemma_pieces_known(segment, runs, parts, k - 1, n);
        let prev = pieces_of(segment, runs, parts, k - 1);
        let r = pieces_of(segment, runs, parts, k);
        assert(known(runs[k - 1].speaker, n));
        assert forall|i: int| #![trigger r[i]] 0 <= i < r.len() implies known(r[i].speaker, n) by {
            if i < prev.len() {
                assert(known(prev[i].speaker, n));
            }
        }
    }
}

proof fn lemma_segment_known(
    segment: TranscriptSegment,
    w: Seq<WindowView>,
    threshold: Float32,
    n: nat,
)
    requires
        windows_known(w, n),
    ensures
        segments_known(split_segment(segment, w, threshold), n),
{
    let all = range_runs(w, segment.start_ms, segment.end_ms, threshold);
    let runs = split_runs(segment, w, threshold);
    lemma_runs_known(w, segment.start_ms, segment.end_ms, threshold, n);
    lemma_standing_known(all, all.len() as int, span(segment.start_ms, segment.end_ms), n);
    lemma_range_known(w, segment.start_ms, segment.end_ms, n);
    let parts = split_text(segment.text@, runs)->0;
    assert(runs_known(runs, n));
    lemma_pieces_known(segment, runs, parts, runs.len() as int, n);
    assert(known(whole(segment, w).speaker, n));
}

proof fn lemma_segments_known(
    segments: Seq<TranscriptSegment>,
    k: int,
    w: Seq<WindowView>,
    threshold: Float32,
    n: nat,
)
    requires
        windows_known(w, n),
    ensures
        segments_known(split_segments(segments, k, w, threshold), n),
    decreases k,
{
    if k > 0 {
        lemma_segments_known(segments, k - 1, w, threshold, n);
        lemma_segment_known(segments[k - 1], w, threshold, n);
        lemma_both_known(
            split_segments(segments, k - 1, w, threshold),
            split_segment(segments[k - 1], w, threshold),
            n,
        );
    }
}

proof fn lemma_both_known(a: Seq<DiarizedView>, b: Seq<DiarizedView>, n: nat)
    requires
        segments_known(a, n),
        segments_known(b, n),
    ensures
        segments_known(a + b, n),
{
    let r = a + b;
    assert forall|i: int| #![trigger r[i]] 0 <= i < r.len() implies known(r[i].speaker, n) by {
        if i < a.len() {
            assert(known(a[i].speaker, n));
        } else {
            assert(known(b[i - a.len()].speaker, n));
        }
    }
}

proof fn lemma_absorbed_known(s: Seq<DiarizedView>, i: int, threshold: Float32, n: nat)
    requires
        segments_known(s, n),
        i >= 1,
    ensures
        segments_known(absorbed_from(s, i, threshold), n),
    decreases s.len() - i,
{
    if i < s.len() {
        if absorbed_at(s, i, threshold) {
            let t = s.update(
                i,
                DiarizedView {
                    speaker: s[i - 1].speaker,
                    confidence: larger(
                        s[i].confidence,
                        smaller(s[i - 1].confidence, s[i + 1].confidence),
                    ),
                    ..s[i]
                },
            );
            assert(known(s[i - 1].speaker, n));
            assert forall|j: int| #![trigger t[j]] 0 <= j < t.len() implies known(
                t[j].speaker,
                n,
            ) by {
                assert(known(s[j].speaker, n));
            }
            lemma_absorbed_known(t, i + 1, threshold, n);
        } else {
            lemma_absorbed_known(s, i + 1, threshold, n);
        }
    }
}

/// The segments of a chunk of the loopback name known speakers only: every number that a
/// segment shows is that of a speaker who is known once the chunk is done.
pub proof fn law_segments_name_known_speakers(
    centroids: Seq<CentroidView>,
    windows: Seq<WindowView>,
    segments: Seq<TranscriptSegment>,
    m: Matching,
)
    requires
        numbered(centroids, m.max_speakers),
        windows_known(windows, centroids.len()),
    ensures
        segments_known(
            loopback_segments(centroids, windows, segments, m),
            speakers_after(centroids, windows, m).centroids.len(),
        ),
{
    law_promoted_windows_name_known_speakers(centroids, windows, m);
    let after = speakers_after(centroids, windows, m);
    let n = after.centroids.len();
    let w = smoothed(after.windows, m.confident);
    lemma_smoothed(after.windows, m.confident, n);
    lemma_segments_known(segments, segments.len() as int, w, m.confident, n);
    lemma_absorbed_known(
        split_segments(segments, segments.len() as int, w, m.confident),
        1,
        m.confident,
        n,
    );
}

/// The characters of texts that are not white space, one text behind the other.
pub open spec fn words(texts: Seq<Seq<char>>) -> Seq<char>
    decreases texts.len(),
{
    if texts.len() == 0 {
        Seq::empty()
    } else {
        words(texts.drop_last()) + solid(texts.last())
    }
}

proof fn lemma_words_joined(texts: Seq<Seq<char>>)
    ensures
        words(texts) == solid(joined(texts)),
    decreases texts.len(),
{
    if texts.len() == 0 {
        assert(joined(texts) =~= Seq::empty());
    } else if texts.len() == 1 {
        assert(texts.drop_last() =~= Seq::empty());
        assert(words(texts.drop_last()) =~= Seq::empty());
        assert(words(texts) =~= solid(texts[0]));
    } else {
        let front = texts.drop_last();
        lemma_words_joined(front);
        lemma_solid_append(joined(front).push(' '), texts.last());
        assert(joined(front).push(' ').drop_last() =~= joined(front));
        assert(solid(joined(front).push(' ')) == solid(joined(front)));
    }
}

proof fn lemma_words_append(a: Seq<Seq<char>>, b: Seq<Seq<char>>)
    ensures
        words(a + b) == words(a) + words(b),
    decreases b.len(),
{
    if b.len() == 0 {
        assert(a + b =~= a);
        assert(words(a) + words(b) =~= words(a));
    } else {
        assert((a + b).drop_last() =~= a + b.drop_last());
        lemma_words_append(a, b.drop_last());
        assert(words(a) + words(b) =~= words(a) + words(b.drop_last()) + solid(b.last()));
    }
}

/// The texts of transcript segments.
pub open spec fn plain_texts(segments: Seq<TranscriptSegment>) -> Seq<Seq<char>> {
    segments.map_values(|s: TranscriptSegment| s.text@)
}

proof fn lemma_split_words(
    segments: Seq<TranscriptSegment>,
    k: int,
    w: Seq<WindowView>,
    threshold: Float32,
)
    requires
        0 <= k <= segments.len(),
    ensures
        words(spoken_texts(split_segments(segments, k, w, threshold))) == words(
            plain_texts(segments.take(k)),
        ),
    decreases k,
{
    if k > 0 {
        lemma_split_words(segments, k - 1, w, threshold);
        let prev = split_segments(segments, k - 1, w, threshold);
        let more = split_segment(segments[k - 1], w, threshold);
        law_splitting_keeps_text(segments[k - 1], w, threshold);
        lemma_words_joined(spoken_texts(more));
        lemma_words_append(spoken_texts(prev), spoken_texts(more));
        assert(spoken_texts(prev + more) =~= spoken_texts(prev) + spoken_texts(more));
        let all = plain_texts(segments.take(k));
        assert(all.drop_last() =~= plain_texts(segments.take(k - 1)));
        assert(all.last() == segments[k - 1].text@);
    } else {
        assert(spoken_texts(split_segments(segments, 0, w, threshold)) =~= Seq::empty());
        assert(plain_texts(segments.take(0)) =~= Seq::empty());
    }
}

/// However the segments of a chunk are split and whoever they go to, their words are those of
/// the transcript, all of them and in their order.
pub proof fn law_diarization_keeps_every_word(
    centroids: Seq<CentroidView>,
    windows: Seq<WindowView>,
    segments: Seq<TranscriptSegment>,
    m: Matching,
)
    ensures
        words(spoken_texts(loopback_segments(centroids, windows, segments, m))) == words(
            plain_texts(segments),
        ),
{
    let w = smoothed(speakers_after(centroids, windows, m).windows, m.confident);
    let split = split_segments(segments, segments.len() as int, w, m.confident);
    lemma_split_words(segments, segments.len() as int, w, m.confident);
    assert(segments.take(segments.len() as int) =~= segments);
    law_absorbing_keeps_segments(split, m.confident);
    assert(spoken_texts(absorbed(split, m.confident)) =~= spoken_texts(split));
}

} // verus!
