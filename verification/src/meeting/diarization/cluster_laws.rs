//! What becomes of windows that nobody was recognised in.
use vstd::prelude::*;
use crate::float32::Float32;
use crate::meeting::data::span;
use crate::meeting::diarization::clusters::{
    assigned, cluster_threshold, clusters_of, consecutive, law_clusters_are_consecutive,
    lemma_run_end, promoted, promoted_cluster, promoted_clusters,
    promoted_from, promoted_run, run_end, ClusterView, Knowledge, Matching,
};
use crate::meeting::diarization::speaker_laws::{
    extends, lemma_promoted_clusters, lemma_promoted_from, lemma_run_is_remote,
};
use crate::meeting::diarization::vectors::{averaged, cosine, CentroidView};
use crate::meeting::diarization::windows::{attributed, WindowView};
use crate::meeting::diarization::Speaker;

verus! {

/// The average of the embeddings of the windows from `from` to `to`, taken further from one
/// window to the next.
pub open spec fn running_average(w: Seq<WindowView>, from: int, to: int) -> Seq<Float32>
    decreases to - from,
{
    if to <= from + 1 {
        w[from].embedding
    } else {
        averaged(
            running_average(w, from, to - 1),
            (to - 1 - from) as nat,
            w[to - 1].embedding,
        )
    }
}

/// Window `i` sounds like the windows before it from `from` on.
pub open spec fn sounds_like(w: Seq<WindowView>, from: int, i: int, threshold: Float32) -> bool {
    threshold.at_most(cosine(w[i].embedding, running_average(w, from, i)))
}

/// Windows `from` to `to` sound alike: each but the first sounds like those before it.
pub open spec fn alike(w: Seq<WindowView>, from: int, to: int, threshold: Float32) -> bool {
    &&& from < to
    &&& forall|i: int| from < i < to ==> #[trigger] sounds_like(w, from, i, threshold)
}

proof fn lemma_clusters_alike(w: Seq<WindowView>, k: int, threshold: Float32)
    requires
        0 <= k <= w.len(),
    ensures
        ({
            let clusters = clusters_of(w, k, threshold);
            &&& forall|a: int|
                #![trigger clusters[a]]
                0 <= a < clusters.len() ==> alike(
                    w,
                    clusters[a].start_idx,
                    clusters[a].end_idx,
                    threshold,
                ) && clusters[a].embedding == running_average(
                    w,
                    clusters[a].start_idx,
                    clusters[a].end_idx,
                )
            &&& forall|a: int, b: int|
                #![trigger clusters[a], clusters[b]]
                0 <= a && b == a + 1 && b < clusters.len() ==> !sounds_like(
                    w,
                    clusters[a].start_idx,
                    clusters[b].start_idx,
                    threshold,
                )
        }),
    decreases k,
{
    if k > 0 {
        lemma_clusters_alike(w, k - 1, threshold);
        law_clusters_are_consecutive(w, k - 1, threshold);
        let prev = clusters_of(w, k - 1, threshold);
        let clusters = clusters_of(w, k, threshold);
        if prev.len() > 0 {
            let last = prev[prev.len() - 1];
            assert(last == prev.last());
            assert(last.end_idx == k - 1);
            assert(last.embedding == running_average(w, last.start_idx, k - 1));
            if threshold.at_most(cosine(w[k - 1].embedding, last.embedding)) {
                assert(sounds_like(w, last.start_idx, k - 1, threshold));
                assert(alike(w, last.start_idx, k, threshold)) by {
                    assert(alike(w, last.start_idx, k - 1, threshold));
                    assert forall|i: int| last.start_idx < i < k implies #[trigger] sounds_like(
                        w,
                        last.start_idx,
                        i,
                        threshold,
                    ) by {}
                }
                assert forall|a: int, b: int|
                    #![trigger clusters[a], clusters[b]]
                    0 <= a && b == a + 1 && b < clusters.len() implies !sounds_like(
                    w,
                    clusters[a].start_idx,
                    clusters[b].start_idx,
                    threshold,
                ) by {
                    assert(clusters[a] == prev[a]);
                    assert(clusters[b].start_idx == prev[b].start_idx);
                }
            } else {
                assert forall|a: int, b: int|
                    #![trigger clusters[a], clusters[b]]
                    0 <= a && b == a + 1 && b < clusters.len() implies !sounds_like(
                    w,
                    clusters[a].start_idx,
                    clusters[b].start_idx,
                    threshold,
                ) by {
                    assert(clusters[a] == prev[a]);
                    if b < prev.len() {
                        assert(clusters[b] == prev[b]);
                    }
                }
            }
        }
    }
}

/// Clusters follow one another without a gap; the windows of a cluster sound alike, and the
/// first window of the next does not sound like them. The embedding of a cluster is the
/// average of its own windows.
pub proof fn law_clusters_are_windows_that_sound_alike(w: Seq<WindowView>, threshold: Float32)
    ensures
        ({
            let clusters = clusters_of(w, w.len() as int, threshold);
            &&& consecutive(clusters, w.len() as int)
            &&& forall|a: int|
                #![trigger clusters[a]]
                0 <= a < clusters.len() ==> alike(
                    w,
                    clusters[a].start_idx,
                    clusters[a].end_idx,
                    threshold,
                ) && clusters[a].embedding == running_average(
                    w,
                    clusters[a].start_idx,
                    clusters[a].end_idx,
                )
            &&& forall|a: int, b: int|
                #![trigger clusters[a], clusters[b]]
                0 <= a && b == a + 1 && b < clusters.len() ==> !sounds_like(
                    w,
                    clusters[a].start_idx,
                    clusters[b].start_idx,
                    threshold,
                )
        }),
{
    law_clusters_are_consecutive(w, w.len() as int, threshold);
    lemma_clusters_alike(w, w.len() as int, threshold);
}

/// The windows from `p` to `q` are all of a run of windows that nobody was recognised in.
pub open spec fn unknown_run(w: Seq<WindowView>, p: int, q: int) -> bool {
    &&& 0 <= p < q <= w.len()
    &&& forall|i: int| #![trigger w[i]] p <= i < q ==> w[i].speaker == Speaker::Remote
    &&& p > 0 ==> w[p - 1].speaker != Speaker::Remote
    &&& q < w.len() ==> w[q].speaker != Speaker::Remote
}

/// The windows from `from` to `to` of the windows `w` are a cluster of the run from `p` to
/// `q`.
pub open spec fn cluster_in(
    w: Seq<WindowView>,
    p: int,
    q: int,
    from: int,
    to: int,
    threshold: Float32,
) -> bool {
    exists|a: int|
        #![trigger clusters_of(w.subrange(p, q), q - p, threshold)[a]]
        0 <= a < clusters_of(w.subrange(p, q), q - p, threshold).len() && from == p + clusters_of(
            w.subrange(p, q),
            q - p,
            threshold,
        )[a].start_idx && to == p + clusters_of(w.subrange(p, q), q - p, threshold)[a].end_idx
}

/// The windows from `from` to `to` are attributed as one, by their average embedding, their
/// number and the time they take, to one of the speakers that were known then.
pub open spec fn attributed_as_one(
    s: Knowledge,
    after: Seq<WindowView>,
    from: int,
    to: int,
    m: Matching,
    known: Seq<CentroidView>,
) -> bool {
    let a = assigned(
        known,
        running_average(s.windows, from, to),
        (to - from) as nat,
        span(s.windows[from].start_ms, s.windows[to - 1].end_ms),
        m,
    );
    &&& extends(s.centroids, known)
    &&& forall|j: int|
        #![trigger after[j]]
        from <= j < to ==> after[j] == (WindowView {
            speaker: a.1,
            confidence: a.2,
            ..s.windows[j]
        })
}

proof fn lemma_average_within(w: Seq<WindowView>, p: int, q: int, from: int, to: int)
    requires
        0 <= p <= q <= w.len(),
        0 <= from < to <= q - p,
    ensures
        running_average(w.subrange(p, q), from, to) == running_average(w, p + from, p + to),
    decreases to - from,
{
    if to > from + 1 {
        lemma_average_within(w, p, q, from, to - 1);
    }
}

proof fn lemma_same_average(v: Seq<WindowView>, w: Seq<WindowView>, from: int, to: int)
    requires
        0 <= from < to <= v.len(),
        v.len() == w.len(),
        forall|i: int| #![trigger w[i]] from <= i < to ==> v[i].embedding == w[i].embedding,
    ensures
        running_average(v, from, to) == running_average(w, from, to),
    decreases to - from,
{
    assert(v[to - 1].embedding == w[to - 1].embedding);
    if to > from + 1 {
        lemma_same_average(v, w, from, to - 1);
    }
}

proof fn lemma_clusters_attributed(
    s: Knowledge,
    clusters: Seq<ClusterView>,
    k: int,
    base: int,
    end: int,
    m: Matching,
    a: int,
)
    requires
        0 <= a < k <= clusters.len(),
        0 <= base <= end <= s.windows.len(),
        consecutive(clusters, end - base),
        forall|i: int|
            #![trigger s.windows[i]]
            base <= i < end ==> s.windows[i].speaker == Speaker::Remote,
        forall|b: int|
            #![trigger clusters[b]]
            0 <= b < clusters.len() ==> clusters[b].embedding == running_average(
                s.windows,
                base + clusters[b].start_idx,
                base + clusters[b].end_idx,
            ),
    ensures
        attributed_as_one(
            s,
            promoted_clusters(s, clusters, k, base, m).windows,
            base + clusters[a].start_idx,
            base + clusters[a].end_idx,
            m,
            promoted_clusters(s, clusters, a, base, m).centroids,
        ),
    decreases k,
{
    let t = promoted_clusters(s, clusters, k - 1, base, m);
    let u = promoted_clusters(s, clusters, k, base, m);
    let c = clusters[k - 1];
    let (from, to) = (base + c.start_idx, base + c.end_idx);
    lemma_promoted_clusters(s, clusters, a, base, end, m);
    lemma_promoted_clusters(s, clusters, k - 1, base, end, m);
    assert(u == promoted_cluster(t, c, base, m));
    assert(t.windows.len() == s.windows.len());
    if a == k - 1 {
        let known = t.centroids;
        let x = t.windows[from];
        let y = t.windows[to - 1];
        assert(x.start_ms == s.windows[from].start_ms);
        assert(y.end_ms == s.windows[to - 1].end_ms);
        assert forall|j: int| #![trigger u.windows[j]] from <= j < to implies u.windows[j]
            == attributed(
            s.windows[j],
            assigned(
                known,
                running_average(s.windows, from, to),
                (to - from) as nat,
                span(s.windows[from].start_ms, s.windows[to - 1].end_ms),
                m,
            ).1,
            assigned(
                known,
                running_average(s.windows, from, to),
                (to - from) as nat,
                span(s.windows[from].start_ms, s.windows[to - 1].end_ms),
                m,
            ).2,
        ) by {
            let z = t.windows[j];
        }
    } else {
        lemma_clusters_attributed(s, clusters, k - 1, base, end, m, a);
        lemma_clusters_apart(clusters, end - base, a, k - 1);
        assert forall|j: int|
            #![trigger u.windows[j]]
            base + clusters[a].start_idx <= j < base + clusters[a].end_idx implies u.windows[j]
            == t.windows[j] by {}
    }
}

proof fn lemma_clusters_apart(clusters: Seq<ClusterView>, k: int, a: int, b: int)
    requires
        consecutive(clusters, k),
        0 <= a < b < clusters.len(),
    ensures
        clusters[a].end_idx <= clusters[b].start_idx,
    decreases b - a,
{
    assert(clusters[b - 1].end_idx == clusters[b].start_idx);
    if a < b - 1 {
        lemma_clusters_apart(clusters, k, a, b - 1);
        assert(clusters[b - 1].start_idx < clusters[b - 1].end_idx);
    }
}

/// Every window that nobody was recognised in is attributed with its cluster.
pub open spec fn goes_with_its_cluster(
    s: Knowledge,
    after: Seq<WindowView>,
    i: int,
    m: Matching,
    p: int,
    q: int,
    from: int,
    to: int,
    known: Seq<CentroidView>,
) -> bool {
    &&& p <= from <= i < to <= q
    &&& unknown_run(s.windows, p, q)
    &&& cluster_in(s.windows, p, q, from, to, cluster_threshold(m.confident))
    &&& attributed_as_one(s, after, from, to, m, known)
}

proof fn lemma_cluster_of(clusters: Seq<ClusterView>, k: int, i: int) -> (a: int)
    requires
        consecutive(clusters, k),
        0 <= i < k,
    ensures
        0 <= a < clusters.len(),
        clusters[a].start_idx <= i < clusters[a].end_idx,
{
    lemma_cluster_up_to(clusters, k, clusters.len() - 1, i)
}

proof fn lemma_cluster_up_to(clusters: Seq<ClusterView>, k: int, b: int, i: int) -> (a: int)
    requires
        consecutive(clusters, k),
        0 <= b < clusters.len(),
        0 <= i < clusters[b].end_idx,
    ensures
        0 <= a < clusters.len(),
        clusters[a].start_idx <= i < clusters[a].end_idx,
    decreases b,
{
    if clusters[b].start_idx <= i {
        b
    } else {
        assert(b > 0);
        assert(clusters[b - 1].end_idx == clusters[b].start_idx);
        lemma_cluster_up_to(clusters, k, b - 1, i)
    }
}

proof fn lemma_run_stops(w: Seq<WindowView>, i: int)
    requires
        0 <= i <= w.len(),
    ensures
        run_end(w, i) < w.len() ==> w[run_end(w, i)].speaker != Speaker::Remote,
    decreases w.len() - i,
{
    if i < w.len() && w[i].speaker == Speaker::Remote {
        lemma_run_stops(w, i + 1);
    }
}

/// The run of unknown windows that starts at `k`, and what is known once it is promoted.
proof fn lemma_first_run(s: Knowledge, k: int, m: Matching)
    requires
        0 <= k < s.windows.len(),
        k > 0 ==> s.windows[k - 1].speaker != Speaker::Remote,
        s.windows[k].speaker == Speaker::Remote,
    ensures
        ({
            let e = run_end(s.windows, k + 1);
            let t = promoted_run(s, k, e, m);
            &&& k < e <= s.windows.len()
            &&& unknown_run(s.windows, k, e)
            &&& t.windows.len() == s.windows.len()
            &&& extends(s.centroids, t.centroids)
            &&& forall|j: int|
                #![trigger t.windows[j]]
                e <= j < s.windows.len() ==> t.windows[j] == s.windows[j]
            &&& promoted_from(s, k, m) == promoted_from(t, e, m)
        }),
{
    let w = s.windows;
    let threshold = cluster_threshold(m.confident);
    let e = run_end(w, k + 1);
    lemma_run_end(w, k + 1);
    lemma_run_is_remote(w, k + 1);
    lemma_run_stops(w, k + 1);
    let part = w.subrange(k, e);
    let clusters = clusters_of(part, e - k, threshold);
    law_clusters_are_consecutive(part, e - k, threshold);
    assert forall|i: int| #![trigger w[i]] k <= i < e implies w[i].speaker == Speaker::Remote by {}
    lemma_promoted_clusters(s, clusters, clusters.len() as int, k, e, m);
}

proof fn lemma_in_first_run(s: Knowledge, k: int, m: Matching, i: int) -> (r: (
    int,
    int,
    Seq<CentroidView>,
))
    requires
        0 <= k <= i < run_end(s.windows, k + 1) <= s.windows.len(),
        unknown_run(s.windows, k, run_end(s.windows, k + 1)),
    ensures
        ({
            let e = run_end(s.windows, k + 1);
            goes_with_its_cluster(
                s,
                promoted_run(s, k, e, m).windows,
                i,
                m,
                k,
                e,
                r.0,
                r.1,
                r.2,
            )
        }),
{
    let w = s.windows;
    let threshold = cluster_threshold(m.confident);
    let e = run_end(w, k + 1);
    let part = w.subrange(k, e);
    assert(part.len() == e - k);
    let clusters = clusters_of(part, e - k, threshold);
    law_clusters_are_consecutive(part, e - k, threshold);
    lemma_clusters_alike(part, e - k, threshold);
    assert forall|b: int| #![trigger clusters[b]] 0 <= b < clusters.len() implies clusters[b].embedding
        == running_average(w, k + clusters[b].start_idx, k + clusters[b].end_idx) by {
        lemma_average_within(w, k, e, clusters[b].start_idx, clusters[b].end_idx);
    }
    let a = lemma_cluster_of(clusters, e - k, i - k);
    lemma_clusters_attributed(s, clusters, clusters.len() as int, k, e, m, a);
    let known = promoted_clusters(s, clusters, a, k, m).centroids;
    let (from, to) = (k + clusters[a].start_idx, k + clusters[a].end_idx);
    assert(cluster_in(w, k, e, from, to, threshold));
    (from, to, known)
}

/// What is attributed with its cluster stays so where its windows stay as they are.
proof fn lemma_kept(
    s: Knowledge,
    before: Seq<WindowView>,
    after: Seq<WindowView>,
    i: int,
    m: Matching,
    p: int,
    q: int,
    from: int,
    to: int,
    known: Seq<CentroidView>,
)
    requires
        goes_with_its_cluster(s, before, i, m, p, q, from, to, known),
        forall|j: int| #![trigger after[j]] p <= j < q ==> after[j] == before[j],
    ensures
        goes_with_its_cluster(s, after, i, m, p, q, from, to, known),
{
    assert forall|j: int| #![trigger after[j]] from <= j < to implies after[j] == before[j] by {}
}

proof fn lemma_promoted_goes(s: Knowledge, k: int, m: Matching, i: int) -> (r: (
    int,
    int,
    int,
    int,
    Seq<CentroidView>,
))
    requires
        0 <= k <= i < s.windows.len(),
        k > 0 ==> s.windows[k - 1].speaker != Speaker::Remote || s.windows[k].speaker
            != Speaker::Remote,
        s.windows[i].speaker == Speaker::Remote,
    ensures
        goes_with_its_cluster(
            s,
            promoted_from(s, k, m).windows,
            i,
            m,
            r.0,
            r.1,
            r.2,
            r.3,
            r.4,
        ),
    decreases s.windows.len() - k,
{
    if s.windows[k].speaker != Speaker::Remote {
        lemma_promoted_goes(s, k + 1, m, i)
    } else {
        lemma_first_run(s, k, m);
        let e = run_end(s.windows, k + 1);
        let t = promoted_run(s, k, e, m);
        let u = promoted_from(t, e, m);
        lemma_promoted_from(t, e, m);
        if i < e {
            let (from, to, known) = lemma_in_first_run(s, k, m, i);
            lemma_kept(s, t.windows, u.windows, i, m, k, e, from, to, known);
            (k, e, from, to, known)
        } else {
            assert(t.windows[e] == s.windows[e] && t.windows[i] == s.windows[i]);
            let r = lemma_promoted_goes(t, e, m, i);
            lemma_moved_on(s, t, u.windows, e, i, m, r.0, r.1, r.2, r.3, r.4);
            r
        }
    }
}

/// What holds of the windows behind a run that is done holds of them as they were.
proof fn lemma_moved_on(
    s: Knowledge,
    t: Knowledge,
    after: Seq<WindowView>,
    e: int,
    i: int,
    m: Matching,
    p: int,
    q: int,
    from: int,
    to: int,
    known: Seq<CentroidView>,
)
    requires
        0 <= e <= i < s.windows.len(),
        s.windows.len() == t.windows.len(),
        s.windows[e].speaker != Speaker::Remote,
        forall|j: int|
            #![trigger t.windows[j]]
            e <= j < s.windows.len() ==> t.windows[j] == s.windows[j],
        extends(s.centroids, t.centroids),
        goes_with_its_cluster(t, after, i, m, p, q, from, to, known),
    ensures
        goes_with_its_cluster(s, after, i, m, p, q, from, to, known),
{
    let threshold = cluster_threshold(m.confident);
    assert(t.windows[e] == s.windows[e]);
    assert(p > e) by {
        if p <= e {
            assert(t.windows[e].speaker == Speaker::Remote);
        }
    }
    assert(t.windows[p - 1] == s.windows[p - 1]);
    if q < s.windows.len() {
        assert(t.windows[q] == s.windows[q]);
    }
    assert forall|j: int| #![trigger s.windows[j]] p <= j < q implies s.windows[j].speaker
        == Speaker::Remote by {
        assert(t.windows[j] == s.windows[j]);
    }
    assert(t.windows.subrange(p, q) =~= s.windows.subrange(p, q));
    assert(cluster_in(s.windows, p, q, from, to, threshold)) by {
        let all = clusters_of(t.windows.subrange(p, q), q - p, threshold);
        let a = choose|a: int|
            #![trigger clusters_of(t.windows.subrange(p, q), q - p, threshold)[a]]
            0 <= a < all.len() && from == p + clusters_of(
                t.windows.subrange(p, q),
                q - p,
                threshold,
            )[a].start_idx && to == p + clusters_of(
                t.windows.subrange(p, q),
                q - p,
                threshold,
            )[a].end_idx;
        assert(0 <= a < clusters_of(s.windows.subrange(p, q), q - p, threshold).len());
    }
    assert forall|j: int| #![trigger s.windows[j]] from <= j < to implies t.windows[j].embedding
        == s.windows[j].embedding by {
        assert(t.windows[j] == s.windows[j]);
    }
    lemma_same_average(t.windows, s.windows, from, to);
    assert(t.windows[from] == s.windows[from]);
    assert(t.windows[to - 1] == s.windows[to - 1]);
    assert forall|j: int| #![trigger known[j]] 0 <= j < s.centroids.len() implies known[j].id
        == s.centroids[j].id by {
        assert(t.centroids[j].id == s.centroids[j].id);
    }
    assert forall|j: int| #![trigger after[j]] from <= j < to implies after[j] == attributed(
        s.windows[j],
        assigned(
            known,
            running_average(s.windows, from, to),
            (to - from) as nat,
            span(s.windows[from].start_ms, s.windows[to - 1].end_ms),
            m,
        ).1,
        assigned(
            known,
            running_average(s.windows, from, to),
            (to - from) as nat,
            span(s.windows[from].start_ms, s.windows[to - 1].end_ms),
            m,
        ).2,
    ) by {
        assert(t.windows[j] == s.windows[j]);
    }
}

/// No window that nobody was recognised in is passed over: each lies in a cluster of the
/// whole run of such windows around it, and the whole cluster gets the attribution that its
/// average embedding, its number of windows and the time it takes earn it with the speakers
/// known by then.
pub proof fn law_unknown_windows_go_with_their_cluster(s: Knowledge, m: Matching, i: int) -> (r: (
    int,
    int,
    int,
    int,
    Seq<CentroidView>,
))
    requires
        0 <= i < s.windows.len(),
        s.windows[i].speaker == Speaker::Remote,
    ensures
        goes_with_its_cluster(s, promoted(s, m).windows, i, m, r.0, r.1, r.2, r.3, r.4),
{
    lemma_promoted_goes(s, 0, m, i)
}

/// Clusters are attributed one after the other: what is known after one of them, the speaker
/// that it moved or added included, is what the next one is compared with.
pub proof fn law_clusters_are_promoted_in_turn(
    s: Knowledge,
    clusters: Seq<ClusterView>,
    k: int,
    base: int,
    m: Matching,
)
    requires
        0 < k <= clusters.len(),
    ensures
        ({
            let before = promoted_clusters(s, clusters, k - 1, base, m);
            let c = clusters[k - 1];
            let first = before.windows[base + c.start_idx];
            let last = before.windows[base + c.end_idx - 1];
            &&& promoted_clusters(s, clusters, k, base, m).centroids == assigned(
                before.centroids,
                c.embedding,
                (c.end_idx - c.start_idx) as nat,
                span(first.start_ms, last.end_ms),
                m,
            ).0
            &&& promoted_clusters(s, clusters, 0, base, m) == s
        }),
{
    let c = clusters[k - 1];
    assert((base + c.end_idx) - (base + c.start_idx) == c.end_idx - c.start_idx);
}

/// Runs of windows that nobody was recognised in are promoted one after the other: the first
/// of them, all of its clusters in turn, and then what follows it, with the speakers known by
/// then.
pub proof fn law_unknown_runs_are_promoted_in_turn(
    s: Knowledge,
    m: Matching,
    k: int,
    p: int,
    q: int,
)
    requires
        0 <= k <= p,
        unknown_run(s.windows, p, q),
        forall|j: int|
            #![trigger s.windows[j]]
            k <= j < p ==> s.windows[j].speaker != Speaker::Remote,
    ensures
        ({
            let clusters = clusters_of(
                s.windows.subrange(p, q),
                q - p,
                cluster_threshold(m.confident),
            );
            let after = promoted_clusters(s, clusters, clusters.len() as int, p, m);
            promoted_from(s, k, m) == promoted_from(after, q, m)
        }),
        promoted(s, m) == promoted_from(s, 0, m),
    decreases p - k,
{
    if k < p {
        assert(s.windows[k].speaker != Speaker::Remote);
        law_unknown_runs_are_promoted_in_turn(s, m, k + 1, p, q);
    } else {
        assert(s.windows[p].speaker == Speaker::Remote);
        lemma_run_to(s.windows, p + 1, q);
    }
}

proof fn lemma_run_to(w: Seq<WindowView>, i: int, q: int)
    requires
        0 <= i <= q <= w.len(),
        forall|j: int| #![trigger w[j]] i <= j < q ==> w[j].speaker == Speaker::Remote,
        q < w.len() ==> w[q].speaker != Speaker::Remote,
    ensures
        run_end(w, i) == q,
    decreases q - i,
{
    if i < q {
        assert(w[i].speaker == Speaker::Remote);
        lemma_run_to(w, i + 1, q);
    }
}

} // verus!
