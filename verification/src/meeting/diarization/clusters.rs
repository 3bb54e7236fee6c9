//! New speakers: clustering unattributed windows and promoting the clusters.
use vstd::prelude::*;
use crate::float32::{clamped, sum, Float32};
use crate::meeting::data::span;
use crate::meeting::diarization::vectors::{
    average_in, averaged, best_match, centroid_views, copy_vector, cosine, cosine_similarity,
    find_best, move_centroid, with_moved, zero, CentroidView, SpeakerCentroid,
};
use crate::meeting::diarization::windows::{attributed, window_views, SpeakerWindow, WindowView};
use crate::meeting::diarization::{Speaker, SpeakerId};

verus! {

/// 0.15, by how much windows of one cluster must be more alike than a confident match.
pub const CLUSTER_MARGIN_BITS: u32 = 0x3e19_999a;

/// 0.45, the least similarity within a cluster.
pub const CLUSTER_LEAST_BITS: u32 = 0x3ee6_6666;

/// 0.75, the most that is asked of the similarity within a cluster.
pub const CLUSTER_MOST_BITS: u32 = 0x3f40_0000;

/// The number of windows from which a cluster may be a new speaker.
pub const NEW_SPEAKER_MIN_WINDOWS: usize = 2;

/// The length from which a cluster may be a new speaker.
pub const NEW_SPEAKER_MIN_MS: u64 = 1500;

/// 0.8, the confidence of the windows of a new speaker.
pub const NEW_SPEAKER_CONFIDENCE_BITS: u32 = 0x3f4c_cccd;

/// When a similarity counts as a match, and how many speakers there may be.
#[derive(Clone, Copy, Debug)]
pub struct Matching {
    pub max_speakers: u32,
    pub confident: Float32,
    pub uncertain: Float32,
}

/// Windows in a row that sound alike, and the average of their embeddings.
#[derive(Debug)]
pub struct UnknownCluster {
    pub start_idx: usize,
    pub end_idx: usize,
    pub embedding: Vec<Float32>,
}

/// What a cluster says.
#[verifier::ext_equal]
pub struct ClusterView {
    pub start_idx: int,
    pub end_idx: int,
    pub embedding: Seq<Float32>,
}

impl View for UnknownCluster {
    type V = ClusterView;

    open spec fn view(&self) -> ClusterView {
        ClusterView {
            start_idx: self.start_idx as int,
            end_idx: self.end_idx as int,
            embedding: self.embedding@,
        }
    }
}

/// What the clusters of a list say.
pub open spec fn cluster_views(v: Seq<UnknownCluster>) -> Seq<ClusterView> {
    v.map_values(|c: UnknownCluster| c@)
}

/// The similarity from which a window joins a cluster.
pub open spec fn cluster_threshold(confident: Float32) -> Float32 {
    clamped(
        sum(confident, Float32 { bits: CLUSTER_MARGIN_BITS }),
        Float32 { bits: CLUSTER_LEAST_BITS },
        Float32 { bits: CLUSTER_MOST_BITS },
    )
}

/// The clusters of the first `k` windows: each window joins the last cluster where it is
/// like enough, else it starts a new one.
pub open spec fn clusters_of(w: Seq<WindowView>, k: int, threshold: Float32) -> Seq<ClusterView>
    decreases k,
{
    if k <= 0 {
        Seq::empty()
    } else {
        let prev = clusters_of(w, k - 1, threshold);
        let e = w[k - 1].embedding;
        let last = prev.last();
        if prev.len() > 0 && threshold.at_most(cosine(e, last.embedding)) {
            prev.drop_last().push(
                ClusterView {
                    start_idx: last.start_idx,
                    end_idx: k,
                    embedding: averaged(
                        last.embedding,
                        (last.end_idx - last.start_idx) as nat,
                        e,
                    ),
                },
            )
        } else {
            prev.push(ClusterView { start_idx: k - 1, end_idx: k, embedding: e })
        }
    }
}

/// The clusters lie one after the other on the first `k` windows.
pub open spec fn consecutive(clusters: Seq<ClusterView>, k: int) -> bool {
    &&& k > 0 ==> clusters.len() > 0 && clusters.last().end_idx == k
    &&& forall|i: int|
        #![trigger clusters[i]]
        0 <= i < clusters.len() ==> 0 <= clusters[i].start_idx < clusters[i].end_idx <= k
    &&& clusters.len() > 0 ==> clusters[0].start_idx == 0
    &&& forall|i: int, j: int|
        #![trigger clusters[i], clusters[j]]
        0 <= i && j == i + 1 && j < clusters.len() ==> clusters[i].end_idx == clusters[j].start_idx
}

/// Every window is in exactly one cluster: the clusters follow one another without a gap.
pub proof fn law_clusters_are_consecutive(w: Seq<WindowView>, k: int, threshold: Float32)
    requires
        0 <= k <= w.len(),
    ensures
        consecutive(clusters_of(w, k, threshold), k),
    decreases k,
{
    if k > 0 {
        law_clusters_are_consecutive(w, k - 1, threshold);
    }
}

/// The most similar speaker is taken where the similarity is at least uncertain.
pub open spec fn matched(centroids: Seq<CentroidView>, embedding: Seq<Float32>, m: Matching) -> bool {
    best_match(centroids, embedding) matches Some(best) && m.uncertain.at_most(best.1)
}

/// The centroids after a cluster of `count` windows that lasts `duration` is attributed,
/// with the speaker and the confidence.
pub open spec fn assigned(
    centroids: Seq<CentroidView>,
    embedding: Seq<Float32>,
    count: nat,
    duration: nat,
    m: Matching,
) -> (Seq<CentroidView>, Speaker, Float32) {
    let best = best_match(centroids, embedding)->0;
    if matched(centroids, embedding, m) {
        (
            if m.confident.at_most(best.1) {
                with_moved(centroids, best.0, embedding)
            } else {
                centroids
            },
            Speaker::Auto(centroids[best.0].id),
            best.1,
        )
    } else if count >= NEW_SPEAKER_MIN_WINDOWS && duration >= NEW_SPEAKER_MIN_MS && centroids.len()
        < m.max_speakers {
        (
            with_speaker(centroids, embedding),
            Speaker::Auto(centroids.len() as u32),
            Float32 { bits: NEW_SPEAKER_CONFIDENCE_BITS },
        )
    } else {
        (centroids, Speaker::Remote, zero())
    }
}

/// The centroids with one more speaker, numbered by its place.
pub open spec fn with_speaker(centroids: Seq<CentroidView>, embedding: Seq<Float32>) -> Seq<
    CentroidView,
> {
    centroids.push(CentroidView { id: centroids.len() as u32, vector: embedding })
}

/// The windows with those from `from` to `to` attributed anew.
pub open spec fn relabelled(
    w: Seq<WindowView>,
    from: int,
    to: int,
    speaker: Speaker,
    confidence: Float32,
) -> Seq<WindowView> {
    Seq::new(
        w.len(),
        |i: int|
            if from <= i < to {
                attributed(w[i], speaker, confidence)
            } else {
                w[i]
            },
    )
}

/// What is known so far: the centroids, and the windows with their attributions.
#[verifier::ext_equal]
pub struct Knowledge {
    pub centroids: Seq<CentroidView>,
    pub windows: Seq<WindowView>,
}

/// What is known after the cluster `c` of the windows from `base` on is attributed.
pub open spec fn promoted_cluster(s: Knowledge, c: ClusterView, base: int, m: Matching) -> Knowledge {
    let from = base + c.start_idx;
    let to = base + c.end_idx;
    let a = assigned(
        s.centroids,
        c.embedding,
        (to - from) as nat,
        span(s.windows[from].start_ms, s.windows[to - 1].end_ms),
        m,
    );
    Knowledge { centroids: a.0, windows: relabelled(s.windows, from, to, a.1, a.2) }
}

/// What is known after the first `k` clusters are attributed.
pub open spec fn promoted_clusters(
    s: Knowledge,
    clusters: Seq<ClusterView>,
    k: int,
    base: int,
    m: Matching,
) -> Knowledge
    decreases k,
{
    if k <= 0 {
        s
    } else {
        promoted_cluster(promoted_clusters(s, clusters, k - 1, base, m), clusters[k - 1], base, m)
    }
}

/// Where the unattributed windows end that start at or before `i`.
pub open spec fn run_end(w: Seq<WindowView>, i: int) -> int
    decreases w.len() - i,
{
    if i < w.len() && w[i].speaker == Speaker::Remote {
        run_end(w, i + 1)
    } else {
        i
    }
}

/// What is known after the unattributed windows from `i` to `e` are clustered and the
/// clusters attributed.
pub open spec fn promoted_run(s: Knowledge, i: int, e: int, m: Matching) -> Knowledge {
    let clusters = clusters_of(s.windows.subrange(i, e), e - i, cluster_threshold(m.confident));
    promoted_clusters(s, clusters, clusters.len() as int, i, m)
}

/// What is known after all runs of unattributed windows from `i` on are promoted.
pub open spec fn promoted_from(s: Knowledge, i: int, m: Matching) -> Knowledge
    decreases s.windows.len() - i,
{
    if i < 0 || i >= s.windows.len() {
        s
    } else if s.windows[i].speaker != Speaker::Remote {
        promoted_from(s, i + 1, m)
    } else {
        let e = run_end(s.windows, i + 1);
        let next = promoted_run(s, i, e, m);
        proof {
            lemma_run_end(s.windows, i + 1);
            let clusters = clusters_of(
                s.windows.subrange(i, e),
                e - i,
                cluster_threshold(m.confident),
            );
            lemma_same_windows(s, clusters, clusters.len() as int, i, m);
        }
        promoted_from(next, e, m)
    }
}

/// What is known after all runs of unattributed windows are promoted.
pub open spec fn promoted(s: Knowledge, m: Matching) -> Knowledge {
    promoted_from(s, 0, m)
}

pub proof fn lemma_run_end(w: Seq<WindowView>, i: int)
    requires
        i <= w.len(),
    ensures
        i <= run_end(w, i) <= w.len(),
    decreases w.len() - i,
{
    if i < w.len() && w[i].speaker == Speaker::Remote {
        lemma_run_end(w, i + 1);
    }
}

pub proof fn lemma_same_windows(
    s: Knowledge,
    clusters: Seq<ClusterView>,
    k: int,
    base: int,
    m: Matching,
)
    ensures
        promoted_clusters(s, clusters, k, base, m).windows.len() == s.windows.len(),
    decreases k,
{
    if k > 0 {
        lemma_same_windows(s, clusters, k - 1, base, m);
    }
}

/// The first attribution of a window: the most similar speaker, where the match is a
/// confident one.
pub open spec fn provisional(
    centroids: Seq<CentroidView>,
    embedding: Seq<Float32>,
    confident: Float32,
) -> (Speaker, Float32) {
    match best_match(centroids, embedding) {
        Some((i, similarity)) => if confident.at_most(similarity) {
            (Speaker::Auto(centroids[i].id), similarity)
        } else {
            (Speaker::Remote, zero())
        },
        None => (Speaker::Remote, zero()),
    }
}

/// The first place from `i` on where the speaker with the given number stands.
pub open spec fn place_from(centroids: Seq<CentroidView>, id: u32, i: int) -> Option<int>
    decreases centroids.len() - i,
{
    if i >= centroids.len() {
        None
    } else if centroids[i].id == id {
        Some(i)
    } else {
        place_from(centroids, id, i + 1)
    }
}

/// The centroids after the first `k` windows: each window whose first attribution was a
/// confident one moves the centroid of its speaker.
pub open spec fn refreshed(
    centroids: Seq<CentroidView>,
    w: Seq<WindowView>,
    k: int,
    confident: Float32,
) -> Seq<CentroidView>
    decreases k,
{
    if k <= 0 {
        centroids
    } else {
        let prev = refreshed(centroids, w, k - 1, confident);
        if w[k - 1].initial_confidence.below(confident) {
            prev
        } else {
            match w[k - 1].initial_speaker {
                Speaker::Auto(id) => match place_from(prev, id, 0) {
                    Some(i) => with_moved(prev, i, w[k - 1].embedding),
                    None => prev,
                },
                _ => prev,
            }
        }
    }
}

impl UnknownCluster {
    /// The number of windows of the cluster.
    pub fn window_count(&self) -> (r: usize)
        ensures
            r == if self.start_idx < self.end_idx {
                self.end_idx - self.start_idx
            } else {
                0
            },
    {
        self.end_idx.saturating_sub(self.start_idx)
    }
}

/// Clusters the windows from `from` to `to`.
pub fn cluster_windows(
    windows: &Vec<SpeakerWindow>,
    from: usize,
    to: usize,
    confident: Float32,
) -> (r: Vec<UnknownCluster>)
    requires
        from <= to <= windows.len(),
    ensures
        cluster_views(r@) == clusters_of(
            window_views(windows@).subrange(from as int, to as int),
            to - from,
            cluster_threshold(confident),
        ),
{
    let threshold: Float32 = confident.add(Float32::from_bits(CLUSTER_MARGIN_BITS)).clamp(
        Float32::from_bits(CLUSTER_LEAST_BITS),
        Float32::from_bits(CLUSTER_MOST_BITS),
    );
    let ghost w = window_views(windows@).subrange(from as int, to as int);
    let mut out: Vec<UnknownCluster> = Vec::new();
    let mut i: usize = 0;
    assert(cluster_views(out@) =~= Seq::empty());
    while i < to - from
        invariant
            i <= to - from,
            from <= to <= windows.len(),
            w == window_views(windows@).subrange(from as int, to as int),
            cluster_views(out@) == clusters_of(w, i as int, threshold),
        decreases to - from - i,
    {
        proof {
            law_clusters_are_consecutive(w, i as int, threshold);
        }
        let n: usize = out.len();
        let ghost prev = cluster_views(out@);
        let e: &Vec<Float32> = &windows[from + i].embedding;
        assert(w[i as int].embedding == e@);
        assert(n > 0 ==> prev.last() == out@[n - 1]@);
        if n > 0 && cosine_similarity(e, &out[n - 1].embedding).ge(threshold) {
            assert(prev[n - 1] == prev.last());
            let start_idx: usize = out[n - 1].start_idx;
            let embedding: Vec<Float32> = average_in(
                &out[n - 1].embedding,
                out[n - 1].window_count(),
                e,
            );
            out.set(n - 1, UnknownCluster { start_idx, end_idx: i + 1, embedding });
            assert(cluster_views(out@) =~= clusters_of(w, i + 1, threshold));
        } else {
            out.push(
                UnknownCluster { start_idx: i, end_idx: i + 1, embedding: copy_vector(e) },
            );
            assert(cluster_views(out@) =~= clusters_of(w, i + 1, threshold));
        }
        i = i + 1;
    }
    out
}

/// Adds a speaker, where there is room for one.
pub fn add_speaker(
    centroids: &mut Vec<SpeakerCentroid>,
    embedding: &Vec<Float32>,
    max_speakers: u32,
) -> (r: Option<SpeakerId>)
    ensures
        old(centroids)@.len() < max_speakers ==> r == Some(
            SpeakerId::Auto(old(centroids)@.len() as u32),
        ) && centroid_views(final(centroids)@) == with_speaker(
            centroid_views(old(centroids)@),
            embedding@,
        ),
        old(centroids)@.len() >= max_speakers ==> r is None && *final(centroids) == *old(centroids),
{
    if centroids.len() as u64 >= max_speakers as u64 {
        return None;
    }
    let id: u32 = centroids.len() as u32;
    let ghost before = centroid_views(centroids@);
    centroids.push(SpeakerCentroid { id, vector: copy_vector(embedding) });
    assert(centroid_views(centroids@) =~= with_speaker(before, embedding@));
    Some(SpeakerId::Auto(id))
}

/// Attributes a cluster.
pub fn assign(
    centroids: &mut Vec<SpeakerCentroid>,
    cluster: &UnknownCluster,
    duration_ms: u64,
    m: Matching,
) -> (r: (SpeakerId, Float32))
    requires
        cluster.start_idx <= cluster.end_idx,
    ensures
        (centroid_views(final(centroids)@), r.0@, r.1) == assigned(
            centroid_views(old(centroids)@),
            cluster.embedding@,
            (cluster.end_idx - cluster.start_idx) as nat,
            duration_ms as nat,
            m,
        ),
{
    let ghost before = centroid_views(centroids@);
    let best: Option<(usize, Float32)> = find_best(centroids, &cluster.embedding);
    if let Some((at, similarity)) = best {
        if similarity.ge(m.uncertain) {
            assert(matched(before, cluster.embedding@, m));
            let id: u32 = centroids[at].id;
            assert(before[at as int].id == id);
            if similarity.ge(m.confident) {
                move_centroid(centroids, at, &cluster.embedding);
            }
            return (SpeakerId::Auto(id), similarity);
        }
    }
    assert(!matched(before, cluster.embedding@, m));
    if cluster.window_count() >= NEW_SPEAKER_MIN_WINDOWS && duration_ms >= NEW_SPEAKER_MIN_MS {
        match add_speaker(centroids, &cluster.embedding, m.max_speakers) {
            Some(speaker) => (speaker, Float32::from_bits(NEW_SPEAKER_CONFIDENCE_BITS)),
            None => (SpeakerId::Remote, Float32::from_bits(0)),
        }
    } else {
        (SpeakerId::Remote, Float32::from_bits(0))
    }
}

fn relabel(
    windows: &mut Vec<SpeakerWindow>,
    from: usize,
    to: usize,
    speaker: &SpeakerId,
    confidence: Float32,
)
    requires
        from <= to <= old(windows).len(),
    ensures
        window_views(final(windows)@) == relabelled(
            window_views(old(windows)@),
            from as int,
            to as int,
            speaker@,
            confidence,
        ),
        final(windows).len() == old(windows).len(),
{
    let ghost before = window_views(old(windows)@);
    let mut i: usize = from;
    while i < to
        invariant
            from <= i <= to <= windows.len(),
            windows.len() == before.len(),
            window_views(windows@) == relabelled(
                before,
                from as int,
                i as int,
                speaker@,
                confidence,
            ),
        decreases to - i,
    {
        let ghost prev = window_views(windows@);
        windows[i].speaker = speaker.clone();
        windows[i].confidence = confidence;
        assert(window_views(windows@) =~= prev.update(
            i as int,
            attributed(prev[i as int], speaker@, confidence),
        ));
        assert(window_views(windows@) =~= relabelled(
            before,
            from as int,
            i + 1,
            speaker@,
            confidence,
        ));
        i = i + 1;
    }
    assert(window_views(windows@) =~= relabelled(
        before,
        from as int,
        to as int,
        speaker@,
        confidence,
    ));
}

fn is_remote(speaker: &SpeakerId) -> (r: bool)
    ensures
        r == (speaker@ == Speaker::Remote),
{
    match speaker {
        SpeakerId::Remote => true,
        _ => false,
    }
}

fn find_run_end(windows: &Vec<SpeakerWindow>, from: usize) -> (r: usize)
    requires
        from <= windows.len(),
    ensures
        r == run_end(window_views(windows@), from as int),
        from <= r <= windows.len(),
{
    let ghost w = window_views(windows@);
    let mut i: usize = from;
    while i < windows.len() && is_remote(&windows[i].speaker)
        invariant
            from <= i <= windows.len(),
            w == window_views(windows@),
            run_end(w, i as int) == run_end(w, from as int),
        decreases windows.len() - i,
    {
        i = i + 1;
    }
    i
}

fn promote_run(
    centroids: &mut Vec<SpeakerCentroid>,
    windows: &mut Vec<SpeakerWindow>,
    from: usize,
    to: usize,
    m: Matching,
)
    requires
        from < to <= old(windows).len(),
    ensures
        ({
            let s = Knowledge {
                centroids: centroid_views(old(centroids)@),
                windows: window_views(old(windows)@),
            };
            promoted_run(s, from as int, to as int, m) == (Knowledge {
                centroids: centroid_views(final(centroids)@),
                windows: window_views(final(windows)@),
            })
        }),
{
    let ghost s = Knowledge {
        centroids: centroid_views(old(centroids)@),
        windows: window_views(old(windows)@),
    };
    let clusters: Vec<UnknownCluster> = cluster_windows(windows, from, to, m.confident);
    let ghost views = cluster_views(clusters@);
    proof {
        law_clusters_are_consecutive(
            s.windows.subrange(from as int, to as int),
            to - from,
            cluster_threshold(m.confident),
        );
    }
    let mut i: usize = 0;
    while i < clusters.len()
        invariant
            i <= clusters.len(),
            from < to <= windows.len(),
            windows.len() == s.windows.len(),
            views == cluster_views(clusters@),
            consecutive(views, to - from),
            promoted_clusters(s, views, i as int, from as int, m) == (Knowledge {
                centroids: centroid_views(centroids@),
                windows: window_views(windows@),
            }),
        decreases clusters.len() - i,
    {
        let c: &UnknownCluster = &clusters[i];
        assert(views[i as int] == c@);
        let start: usize = from + c.start_idx;
        let end: usize = from + c.end_idx;
        let duration_ms: u64 = windows[end - 1].end_ms.saturating_sub(windows[start].start_ms);
        let (speaker, confidence) = assign(centroids, c, duration_ms, m);
        relabel(windows, start, end, &speaker, confidence);
        i = i + 1;
    }
}

/// Promotes runs of unattributed windows: to known speakers they resemble, or to new ones.
pub fn promote(centroids: &mut Vec<SpeakerCentroid>, windows: &mut Vec<SpeakerWindow>, m: Matching)
    ensures
        promoted(
            Knowledge {
                centroids: centroid_views(old(centroids)@),
                windows: window_views(old(windows)@),
            },
            m,
        ) == (Knowledge {
            centroids: centroid_views(final(centroids)@),
            windows: window_views(final(windows)@),
        }),
{
    let n: usize = windows.len();
    let ghost goal = promoted(
        Knowledge {
            centroids: centroid_views(old(centroids)@),
            windows: window_views(old(windows)@),
        },
        m,
    );
    let mut i: usize = 0;
    while i < n
        invariant
            i <= n == windows.len(),
            goal == promoted_from(
                Knowledge {
                    centroids: centroid_views(centroids@),
                    windows: window_views(windows@),
                },
                i as int,
                m,
            ),
        decreases n - i,
    {
        if is_remote(&windows[i].speaker) {
            let ghost s = Knowledge {
                centroids: centroid_views(centroids@),
                windows: window_views(windows@),
            };
            let end: usize = find_run_end(windows, i + 1);
            promote_run(centroids, windows, i, end, m);
            proof {
                let clusters = clusters_of(
                    s.windows.subrange(i as int, end as int),
                    end - i,
                    cluster_threshold(m.confident),
                );
                lemma_same_windows(s, clusters, clusters.len() as int, i as int, m);
                assert(window_views(windows@).len() == windows@.len());
            }
            i = end;
        } else {
            i = i + 1;
        }
    }
}

/// The first attribution of a window.
pub fn first_attribution(
    centroids: &Vec<SpeakerCentroid>,
    embedding: &Vec<Float32>,
    confident: Float32,
) -> (r: (SpeakerId, Float32))
    ensures
        (r.0@, r.1) == provisional(centroid_views(centroids@), embedding@, confident),
{
    if let Some((at, similarity)) = find_best(centroids, embedding) {
        if similarity.ge(confident) {
            assert(centroid_views(centroids@)[at as int].id == centroids@[at as int].id);
            return (SpeakerId::Auto(centroids[at].id), similarity);
        }
    }
    (SpeakerId::Remote, Float32::from_bits(0))
}

fn find_speaker(centroids: &Vec<SpeakerCentroid>, id: u32) -> (r: Option<usize>)
    ensures
        match (r, place_from(centroid_views(centroids@), id, 0)) {
            (Some(a), Some(b)) => a == b,
            (None, None) => true,
            _ => false,
        },
{
    let ghost views = centroid_views(centroids@);
    let mut i: usize = 0;
    while i < centroids.len()
        invariant
            i <= centroids.len(),
            views == centroid_views(centroids@),
            place_from(views, id, i as int) == place_from(views, id, 0),
        decreases centroids.len() - i,
    {
        assert(views[i as int].id == centroids@[i as int].id);
        if centroids[i].id == id {
            return Some(i);
        }
        i = i + 1;
    }
    None
}

/// Moves the centroids of the speakers whose windows were confident matches.
pub fn refresh(
    centroids: &mut Vec<SpeakerCentroid>,
    windows: &Vec<SpeakerWindow>,
    confident: Float32,
)
    ensures
        centroid_views(final(centroids)@) == refreshed(
            centroid_views(old(centroids)@),
            window_views(windows@),
            windows.len() as int,
            confident,
        ),
{
    let ghost before = centroid_views(old(centroids)@);
    let ghost w = window_views(windows@);
    let mut i: usize = 0;
    while i < windows.len()
        invariant
            i <= windows.len(),
            w == window_views(windows@),
            centroid_views(centroids@) == refreshed(before, w, i as int, confident),
        decreases windows.len() - i,
    {
        assert(w[i as int] == windows@[i as int]@);
        if !windows[i].initial_confidence.lt(confident) {
            if let SpeakerId::Auto(id) = windows[i].initial_speaker {
                if let Some(at) = find_speaker(centroids, id) {
                    move_centroid(centroids, at, &windows[i].embedding);
                }
            }
        }
        i = i + 1;
    }
}

} // verus!
