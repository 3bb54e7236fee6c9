//! What values are taken to say is what their fields hold.
use vstd::prelude::*;
use crate::meeting::data::{segment_views, TranscriptSegment};
use crate::meeting::diarization::clusters::{cluster_views, UnknownCluster};
use crate::meeting::diarization::runs::{run_views, SpeakerRun};
use crate::meeting::diarization::vectors::{centroid_views, SpeakerCentroid};
use crate::meeting::diarization::windows::{window_views, SpeakerWindow};
use crate::meeting::diarization::{diarized_views, DiarizedSegment, Speaker, SpeakerId};
use crate::meeting::speech::pairs;
use crate::text::texts;

verus! {

/// Two speakers are taken for the same exactly where they are the same: both you, remote or
/// unknown, of one number, or of one name.
pub proof fn law_speakers_are_the_same_by_name_and_number(a: SpeakerId, b: SpeakerId)
    ensures
        a@ == b@ <==> match (a, b) {
            (SpeakerId::You, SpeakerId::You) => true,
            (SpeakerId::Remote, SpeakerId::Remote) => true,
            (SpeakerId::Unknown, SpeakerId::Unknown) => true,
            (SpeakerId::Named(x), SpeakerId::Named(y)) => x@ == y@,
            (SpeakerId::Auto(x), SpeakerId::Auto(y)) => x == y,
            _ => false,
        },
        a matches SpeakerId::Auto(id) ==> a@ == Speaker::Auto(id),
        a is Remote <==> a@ == Speaker::Remote,
        a is You <==> a@ == Speaker::You,
        a is Unknown <==> a@ == Speaker::Unknown,
{
}

/// What transcript segments say, in their order, is what they hold.
pub proof fn law_segments_say_what_they_hold(v: Seq<TranscriptSegment>, i: int)
    requires
        0 <= i < v.len(),
    ensures
        segment_views(v).len() == v.len(),
        ({
            let s = segment_views(v)[i];
            &&& s.id == v[i].id
            &&& s.start_ms == v[i].start_ms
            &&& s.end_ms == v[i].end_ms
            &&& s.text == v[i].text@
            &&& s.source == v[i].source
            &&& s.chunk_id == v[i].chunk_id
            &&& s.confidence == v[i].confidence
            &&& s.speaker_id is Some <==> v[i].speaker_id is Some
            &&& v[i].speaker_id matches Some(name) ==> s.speaker_id == Some(name@)
            &&& s.speaker_label is Some <==> v[i].speaker_label is Some
            &&& v[i].speaker_label matches Some(name) ==> s.speaker_label == Some(name@)
        }),
{
}

/// What attributed segments say, in their order, is what they hold.
pub proof fn law_attributed_segments_say_what_they_hold(v: Seq<DiarizedSegment>, i: int)
    requires
        0 <= i < v.len(),
    ensures
        diarized_views(v).len() == v.len(),
        diarized_views(v)[i].speaker == v[i].speaker@,
        diarized_views(v)[i].start_ms == v[i].start_ms,
        diarized_views(v)[i].end_ms == v[i].end_ms,
        diarized_views(v)[i].text == v[i].text@,
        diarized_views(v)[i].confidence == v[i].confidence,
{
}

/// What windows say, in their order, is what they hold.
pub proof fn law_windows_say_what_they_hold(v: Seq<SpeakerWindow>, i: int)
    requires
        0 <= i < v.len(),
    ensures
        window_views(v).len() == v.len(),
        window_views(v)[i].speaker == v[i].speaker@,
        window_views(v)[i].confidence == v[i].confidence,
        window_views(v)[i].start_ms == v[i].start_ms,
        window_views(v)[i].end_ms == v[i].end_ms,
        window_views(v)[i].embedding == v[i].embedding@,
        window_views(v)[i].initial_speaker == v[i].initial_speaker@,
        window_views(v)[i].initial_confidence == v[i].initial_confidence,
{
}

/// What runs, centroids and clusters say, in their order, is what they hold.
pub proof fn law_runs_and_speakers_say_what_they_hold(
    runs: Seq<SpeakerRun>,
    centroids: Seq<SpeakerCentroid>,
    clusters: Seq<UnknownCluster>,
    i: int,
)
    requires
        0 <= i,
    ensures
        run_views(runs).len() == runs.len(),
        centroid_views(centroids).len() == centroids.len(),
        cluster_views(clusters).len() == clusters.len(),
        i < runs.len() ==> run_views(runs)[i].start_ms == runs[i].start_ms && run_views(
            runs,
        )[i].end_ms == runs[i].end_ms && run_views(runs)[i].speaker == runs[i].speaker@
            && run_views(runs)[i].confidence == runs[i].confidence,
        i < centroids.len() ==> centroid_views(centroids)[i].id == centroids[i].id
            && centroid_views(centroids)[i].vector == centroids[i].vector@,
        i < clusters.len() ==> cluster_views(clusters)[i].start_idx == clusters[i].start_idx
            && cluster_views(clusters)[i].end_idx == clusters[i].end_idx && cluster_views(
            clusters,
        )[i].embedding == clusters[i].embedding@,
{
}

/// Ranges and texts are taken as they are, in their order.
pub proof fn law_ranges_and_texts_say_what_they_hold(
    ranges: Seq<(usize, usize)>,
    words: Seq<String>,
    i: int,
)
    requires
        0 <= i,
    ensures
        pairs(ranges).len() == ranges.len(),
        texts(words).len() == words.len(),
        i < ranges.len() ==> pairs(ranges)[i].0 == ranges[i].0 && pairs(ranges)[i].1
            == ranges[i].1,
        i < words.len() ==> texts(words)[i] == words[i]@,
{
}

} // verus!
