//! What holds of the known speakers and of the windows, whatever is said.
use vstd::prelude::*;
use crate::float32::Float32;
use crate::meeting::data::{span, AudioSource, TranscriptSegment};
use crate::meeting::diarization::clusters::{
    assigned, cluster_threshold, clusters_of, consecutive, law_clusters_are_consecutive,
    lemma_run_end, lemma_same_windows, matched, promoted, promoted_clusters, promoted_from,
    promoted_run, provisional, refreshed, run_end, ClusterView, Knowledge, Matching,
    NEW_SPEAKER_MIN_MS, NEW_SPEAKER_MIN_WINDOWS,
};
use crate::meeting::diarization::embedding::{numbered, speakers_after};
use crate::meeting::diarization::simple::source_speaker;
use crate::meeting::diarization::vectors::{best_match, best_of, zero, CentroidView};
use crate::meeting::diarization::windows::{smoothed, smoothed_once, WindowView};
use crate::meeting::diarization::{all_by, shown_name, Speaker};
use crate::text::decimal_two;
use crate::text_laws::{law_numbers_are_written_with_two_digits, number_of};

verus! {

/// Two windows are the same but for their attributions.
pub open spec fn same_audio(a: WindowView, b: WindowView) -> bool {
    &&& a.start_ms == b.start_ms
    &&& a.end_ms == b.end_ms
    &&& a.embedding == b.embedding
    &&& a.initial_speaker == b.initial_speaker
    &&& a.initial_confidence == b.initial_confidence
}

/// `after` holds the windows of `before`, the attributed ones untouched, the others with
/// any attribution.
pub open spec fn fills_in(before: Seq<WindowView>, after: Seq<WindowView>) -> bool {
    &&& after.len() == before.len()
    &&& forall|i: int|
        #![trigger after[i]]
        0 <= i < before.len() ==> same_audio(before[i], after[i]) && (before[i].speaker
            != Speaker::Remote ==> after[i] == before[i])
}

/// `after` holds the speakers of `before`, under their numbers, and perhaps more.
pub open spec fn extends(before: Seq<CentroidView>, after: Seq<CentroidView>) -> bool {
    &&& before.len() <= after.len()
    &&& forall|i: int| #![trigger after[i]] 0 <= i < before.len() ==> after[i].id == before[i].id
}

/// A match is one of the centroids.
pub proof fn lemma_best_in_range(centroids: Seq<CentroidView>, embedding: Seq<Float32>, k: int)
    requires
        0 <= k <= centroids.len(),
    ensures
        best_of(centroids, embedding, k).0 matches Some(i) ==> 0 <= i < k,
    decreases k,
{
    if k > 0 {
        lemma_best_in_range(centroids, embedding, k - 1);
    }
}

proof fn lemma_assigned(
    centroids: Seq<CentroidView>,
    embedding: Seq<Float32>,
    count: nat,
    duration: nat,
    m: Matching,
)
    ensures
        ({
            let after = assigned(centroids, embedding, count, duration, m).0;
            &&& extends(centroids, after)
            &&& numbered(centroids, m.max_speakers) ==> numbered(after, m.max_speakers)
        }),
{
    lemma_best_in_range(centroids, embedding, centroids.len() as int);
}

pub proof fn lemma_promoted_clusters(
    s: Knowledge,
    clusters: Seq<ClusterView>,
    k: int,
    base: int,
    end: int,
    m: Matching,
)
    requires
        0 <= k <= clusters.len(),
        0 <= base <= end <= s.windows.len(),
        consecutive(clusters, end - base),
        forall|i: int|
            #![trigger s.windows[i]]
            base <= i < end ==> s.windows[i].speaker == Speaker::Remote,
    ensures
        ({
            let t = promoted_clusters(s, clusters, k, base, m);
            &&& extends(s.centroids, t.centroids)
            &&& numbered(s.centroids, m.max_speakers) ==> numbered(t.centroids, m.max_speakers)
            &&& fills_in(s.windows, t.windows)
            &&& forall|i: int|
                #![trigger t.windows[i]]
                0 <= i < s.windows.len() && !(base <= i < end) ==> t.windows[i] == s.windows[i]
        }),
    decreases k,
{
    if k > 0 {
        lemma_promoted_clusters(s, clusters, k - 1, base, end, m);
        let t = promoted_clusters(s, clusters, k - 1, base, m);
        let c = clusters[k - 1];
        let from = base + c.start_idx;
        let to = base + c.end_idx;
        lemma_assigned(
            t.centroids,
            c.embedding,
            (to - from) as nat,
            span(t.windows[from].start_ms, t.windows[to - 1].end_ms),
            m,
        );
    }
}

pub proof fn lemma_run_is_remote(w: Seq<WindowView>, i: int)
    requires
        0 <= i <= w.len(),
    ensures
        forall|j: int| #![trigger w[j]] i <= j < run_end(w, i) ==> w[j].speaker == Speaker::Remote,
    decreases w.len() - i,
{
    if i < w.len() && w[i].speaker == Speaker::Remote {
        lemma_run_is_remote(w, i + 1);
    }
}

pub proof fn lemma_promoted_from(s: Knowledge, i: int, m: Matching)
    requires
        0 <= i,
    ensures
        ({
            let t = promoted_from(s, i, m);
            &&& extends(s.centroids, t.centroids)
            &&& numbered(s.centroids, m.max_speakers) ==> numbered(t.centroids, m.max_speakers)
            &&& fills_in(s.windows, t.windows)
            &&& forall|j: int|
                #![trigger t.windows[j]]
                0 <= j < s.windows.len() && j < i ==> t.windows[j] == s.windows[j]
        }),
    decreases s.windows.len() - i,
{
    if i < s.windows.len() {
        if s.windows[i].speaker != Speaker::Remote {
            lemma_promoted_from(s, i + 1, m);
        } else {
            let e = run_end(s.windows, i + 1);
            let t = promoted_run(s, i, e, m);
            lemma_run_end(s.windows, i + 1);
            lemma_run_is_remote(s.windows, i + 1);
            let threshold = cluster_threshold(m.confident);
            let clusters = clusters_of(s.windows.subrange(i, e), e - i, threshold);
            law_clusters_are_consecutive(s.windows.subrange(i, e), e - i, threshold);
            lemma_promoted_clusters(s, clusters, clusters.len() as int, i, e, m);
            lemma_same_windows(s, clusters, clusters.len() as int, i, m);
            lemma_promoted_from(t, e, m);
            let u = promoted_from(t, e, m);
            assert forall|j: int| #![trigger u.windows[j]] 0 <= j < s.windows.len() implies
                same_audio(s.windows[j], u.windows[j]) && (s.windows[j].speaker != Speaker::Remote
                ==> u.windows[j] == s.windows[j]) && (j < i ==> u.windows[j] == s.windows[j]) by {
                let x = t.windows[j];
            }
            assert forall|j: int|
                #![trigger u.centroids[j]]
                0 <= j < s.centroids.len() implies u.centroids[j].id == s.centroids[j].id by {
                let x = t.centroids[j];
            }
        }
    }
}

/// Promotion never takes a speaker away or renumbers one, and never goes beyond the number
/// of speakers allowed.
pub proof fn law_promotion_keeps_speakers(s: Knowledge, m: Matching)
    ensures
        extends(s.centroids, promoted(s, m).centroids),
        numbered(s.centroids, m.max_speakers) ==> numbered(
            promoted(s, m).centroids,
            m.max_speakers,
        ),
{
    lemma_promoted_from(s, 0, m);
}

/// Promotion attributes only windows that had no speaker, and keeps the audio of all.
pub proof fn law_promotion_fills_in(s: Knowledge, m: Matching)
    ensures
        fills_in(s.windows, promoted(s, m).windows),
{
    lemma_promoted_from(s, 0, m);
}

/// Moving centroids takes no speaker away and renumbers none.
pub proof fn law_refreshing_keeps_speakers(
    centroids: Seq<CentroidView>,
    w: Seq<WindowView>,
    k: int,
    confident: Float32,
    max_speakers: u32,
)
    ensures
        refreshed(centroids, w, k, confident).len() == centroids.len(),
        extends(centroids, refreshed(centroids, w, k, confident)),
        numbered(centroids, max_speakers) ==> numbered(
            refreshed(centroids, w, k, confident),
            max_speakers,
        ),
    decreases k,
{
    if k > 0 {
        law_refreshing_keeps_speakers(centroids, w, k - 1, confident, max_speakers);
        let prev = refreshed(centroids, w, k - 1, confident);
        let after = refreshed(centroids, w, k, confident);
        assert forall|i: int| #![trigger after[i]] 0 <= i < centroids.len() implies after[i].id
            == centroids[i].id by {
            let x = prev[i];
        }
    }
}

/// Smoothing keeps the audio of the windows, and attributes a window only to itself or to
/// a neighbour's speaker.
pub proof fn law_smoothing_keeps_audio(w: Seq<WindowView>, threshold: Float32)
    ensures
        smoothed(w, threshold).len() == w.len(),
        forall|i: int|
            #![trigger smoothed(w, threshold)[i]]
            0 <= i < w.len() ==> same_audio(w[i], smoothed(w, threshold)[i]),
        forall|i: int|
            #![trigger smoothed_once(w, threshold)[i]]
            0 <= i < w.len() ==> smoothed_once(w, threshold)[i].speaker == w[i].speaker || (0 < i
                < w.len() - 1 && smoothed_once(w, threshold)[i].speaker == w[i - 1].speaker
                && w[i - 1].speaker == w[i + 1].speaker),
{
    let once = smoothed_once(w, threshold);
    assert forall|i: int|
        #![trigger smoothed(w, threshold)[i]]
        0 <= i < w.len() implies same_audio(w[i], smoothed(w, threshold)[i]) by {
        assert(same_audio(w[i], once[i]));
        assert(same_audio(once[i], smoothed_once(once, threshold)[i]));
    }
}

/// A chunk of the loopback leaves the known speakers in place, numbered as they were, and
/// their number within the limit.
pub proof fn law_chunk_keeps_speakers(
    centroids: Seq<CentroidView>,
    windows: Seq<WindowView>,
    m: Matching,
)
    ensures
        extends(centroids, speakers_after(centroids, windows, m).centroids),
        numbered(centroids, m.max_speakers) ==> numbered(
            speakers_after(centroids, windows, m).centroids,
            m.max_speakers,
        ),
{
    let w = smoothed(windows, m.confident);
    let c = refreshed(centroids, w, w.len() as int, m.confident);
    law_refreshing_keeps_speakers(centroids, w, w.len() as int, m.confident, m.max_speakers);
    law_promotion_keeps_speakers(Knowledge { centroids: c, windows: w }, m);
    let after = speakers_after(centroids, windows, m).centroids;
    assert forall|i: int| #![trigger after[i]] 0 <= i < centroids.len() implies after[i].id
        == centroids[i].id by {
        let x = c[i];
        assert(x.id == centroids[i].id);
    }
}

/// A window is attributed at first only to a speaker that is known, and only on a confident
/// match.
pub proof fn law_first_attributions_are_confident(
    centroids: Seq<CentroidView>,
    embedding: Seq<Float32>,
    confident: Float32,
)
    ensures
        ({
            let (speaker, confidence) = provisional(centroids, embedding, confident);
            ||| speaker == Speaker::Remote && confidence == zero()
            ||| confident.at_most(confidence) && exists|i: int|
                #![trigger centroids[i]]
                0 <= i < centroids.len() && speaker == Speaker::Auto(centroids[i].id)
        }),
{
    lemma_best_in_range(centroids, embedding, centroids.len() as int);
    if let Some((i, similarity)) = best_match(centroids, embedding) {
        assert(0 <= i < centroids.len());
        assert(centroids[i] == centroids[i]);
    }
}

/// A cluster becomes a new speaker only where it has enough windows, lasts long enough,
/// resembles no known speaker, and there is room for one more.
pub proof fn law_new_speakers_need_evidence(
    centroids: Seq<CentroidView>,
    embedding: Seq<Float32>,
    count: nat,
    duration: nat,
    m: Matching,
)
    ensures
        assigned(centroids, embedding, count, duration, m).0.len() > centroids.len() <==> (count
            >= NEW_SPEAKER_MIN_WINDOWS && duration >= NEW_SPEAKER_MIN_MS && !matched(
            centroids,
            embedding,
            m,
        ) && centroids.len() < m.max_speakers),
{
}

/// Windows whose first attribution was not a confident one move no centroid, whoever they
/// are attributed to by now.
pub proof fn law_unsure_windows_move_nothing(
    centroids: Seq<CentroidView>,
    w: Seq<WindowView>,
    k: int,
    confident: Float32,
)
    requires
        k <= w.len(),
        forall|i: int|
            #![trigger w[i]]
            0 <= i < w.len() ==> w[i].initial_confidence.below(confident) || !(
            w[i].initial_speaker is Auto),
    ensures
        refreshed(centroids, w, k, confident) == centroids,
    decreases k,
{
    if k > 0 {
        law_unsure_windows_move_nothing(centroids, w, k - 1, confident);
        assert(w[k - 1].initial_confidence.below(confident) || !(w[k - 1].initial_speaker is Auto));
    }
}

/// Numbered speakers are shown under their numbers, each under a name of its own, and a
/// named speaker under its name.
pub proof fn law_speakers_are_told_apart(a: u32, b: u32, name: Seq<char>)
    ensures
        shown_name(Speaker::Auto(a)) == shown_name(Speaker::Auto(b)) <==> a == b,
        shown_name(Speaker::Auto(a)).take(8) == "SPEAKER_"@,
        number_of(shown_name(Speaker::Auto(a)).skip(8)) == a,
        shown_name(Speaker::Named(name)) == name,
{
    reveal_strlit("SPEAKER_");
    law_numbers_are_written_with_two_digits(a as nat);
    law_numbers_are_written_with_two_digits(b as nat);
    let x = shown_name(Speaker::Auto(a));
    let y = shown_name(Speaker::Auto(b));
    assert(x.take(8) =~= "SPEAKER_"@);
    assert(x.skip(8) =~= decimal_two(a as nat));
    assert(y.skip(8) =~= decimal_two(b as nat));
}

/// Where all segments go to one speaker, each keeps its own time and its own text.
pub proof fn law_one_speaker_keeps_all_segments(
    segments: Seq<TranscriptSegment>,
    speaker: Speaker,
    confidence: Float32,
    i: int,
)
    requires
        0 <= i < segments.len(),
    ensures
        ({
            let d = all_by(segments, speaker, confidence);
            &&& d.len() == segments.len()
            &&& d[i].speaker == speaker
            &&& d[i].confidence == confidence
            &&& d[i].start_ms == segments[i].start_ms
            &&& d[i].end_ms == segments[i].end_ms
            &&& d[i].text == segments[i].text@
        }),
        source_speaker(AudioSource::Microphone) == Speaker::You,
        source_speaker(AudioSource::Loopback) == Speaker::Remote,
        source_speaker(AudioSource::Unknown) == Speaker::Unknown,
{
}

} // verus!
