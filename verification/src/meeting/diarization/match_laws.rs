//! What holds of the speakers that embeddings are matched with.
use vstd::prelude::*;
use crate::float32::{larger, Float32};
use crate::meeting::diarization::clusters::{
    assigned, place_from, provisional, refreshed, Matching, NEW_SPEAKER_CONFIDENCE_BITS,
    NEW_SPEAKER_MIN_MS, NEW_SPEAKER_MIN_WINDOWS,
};
use crate::meeting::diarization::embedding::{labelled, numbered};
use crate::meeting::diarization::plan::PlannedWindow;
use crate::meeting::diarization::vectors::{
    best_match, best_of, cosine, moved, zero, CentroidView, MINUS_INFINITY_BITS,
};
use crate::meeting::diarization::windows::WindowView;
use crate::meeting::diarization::Speaker;

verus! {

/// How similar an embedding is to the centroid at `i`.
pub open spec fn similarity(centroids: Seq<CentroidView>, embedding: Seq<Float32>, i: int) -> Float32 {
    cosine(embedding, centroids[i].vector)
}

/// Whether the centroid at `i` can be matched at all: it has the dimension of the embedding,
/// and their similarity is a number above minus infinity.
pub open spec fn comparable(centroids: Seq<CentroidView>, embedding: Seq<Float32>, i: int) -> bool {
    &&& 0 <= i < centroids.len()
    &&& centroids[i].vector.len() == embedding.len()
    &&& (Float32 { bits: MINUS_INFINITY_BITS }).below(similarity(centroids, embedding, i))
}

/// The centroid at `i` is the first of those that no other is more similar than.
pub open spec fn most_similar(centroids: Seq<CentroidView>, embedding: Seq<Float32>, i: int) -> bool {
    &&& comparable(centroids, embedding, i)
    &&& forall|j: int|
        #![trigger centroids[j]]
        0 <= j < centroids.len() && centroids[j].vector.len() == embedding.len() ==> !similarity(
            centroids,
            embedding,
            i,
        ).below(similarity(centroids, embedding, j)) && (j < i ==> !similarity(
            centroids,
            embedding,
            i,
        ).at_most(similarity(centroids, embedding, j)))
}

proof fn lemma_best(centroids: Seq<CentroidView>, embedding: Seq<Float32>, k: int)
    requires
        0 <= k <= centroids.len(),
    ensures
        ({
            let best = best_of(centroids, embedding, k);
            match best.0 {
                Some(b) => {
                    &&& 0 <= b < k
                    &&& comparable(centroids, embedding, b)
                    &&& best.1 == similarity(centroids, embedding, b)
                    &&& forall|j: int|
                        #![trigger centroids[j]]
                        0 <= j < k && centroids[j].vector.len() == embedding.len()
                            ==> !best.1.below(similarity(centroids, embedding, j)) && (j < b
                            ==> !best.1.at_most(similarity(centroids, embedding, j)))
                },
                None => best.1 == (Float32 { bits: MINUS_INFINITY_BITS }) && forall|j: int|
                    #![trigger centroids[j]]
                    0 <= j < k ==> !comparable(centroids, embedding, j),
            }
        }),
    decreases k,
{
    if k > 0 {
        lemma_best(centroids, embedding, k - 1);
    }
}

/// The best match, where there is one, is the most similar centroid, with its own
/// similarity or zero; there is none only where nothing can be matched.
pub proof fn law_best_match_is_most_similar(centroids: Seq<CentroidView>, embedding: Seq<Float32>)
    ensures
        match best_match(centroids, embedding) {
            Some((i, s)) => most_similar(centroids, embedding, i) && s == larger(
                similarity(centroids, embedding, i),
                zero(),
            ),
            None => forall|i: int|
                #![trigger centroids[i]]
                0 <= i < centroids.len() ==> !comparable(centroids, embedding, i),
        },
{
    lemma_best(centroids, embedding, centroids.len() as int);
}

/// A window that gets a numbered speaker at first gets the one whose own centroid is most
/// similar to its embedding, with the similarity to that very centroid, or zero, as
/// confidence; and that is at least the threshold. A window that gets none is similar
/// enough to no centroid.
pub proof fn law_first_attribution_is_the_most_similar(
    centroids: Seq<CentroidView>,
    embedding: Seq<Float32>,
    confident: Float32,
)
    ensures
        ({
            let (speaker, confidence) = provisional(centroids, embedding, confident);
            ||| exists|i: int|
                #![trigger centroids[i]]
                most_similar(centroids, embedding, i) && speaker == Speaker::Auto(centroids[i].id)
                    && confidence == larger(similarity(centroids, embedding, i), zero())
                    && confident.at_most(confidence)
            ||| {
                &&& speaker == Speaker::Remote
                &&& confidence == zero()
                &&& forall|i: int|
                    #![trigger centroids[i]]
                    comparable(centroids, embedding, i) ==> !confident.at_most(
                        larger(similarity(centroids, embedding, i), zero()),
                    )
            }
        }),
{
    law_best_match_is_most_similar(centroids, embedding);
    if let Some((i, s)) = best_match(centroids, embedding) {
        assert(centroids[i] == centroids[i]);
    }
}

/// A cluster goes to the speaker whose centroid is most similar to its embedding, where the
/// similarity reaches the lower threshold. Only that speaker's centroid may change: it moves
/// towards the embedding where the similarity reaches the upper threshold as well. A cluster
/// that is similar enough to nobody becomes the next numbered speaker, with the embedding
/// as its centroid, where it has enough windows, lasts long enough and there is room; else
/// it stays with nobody in particular, and nothing changes.
pub proof fn law_clusters_go_to_the_most_similar(
    centroids: Seq<CentroidView>,
    embedding: Seq<Float32>,
    count: nat,
    duration: nat,
    m: Matching,
)
    ensures
        ({
            let (after, speaker, confidence) = assigned(centroids, embedding, count, duration, m);
            let similar = exists|i: int|
                #![trigger centroids[i]]
                comparable(centroids, embedding, i) && m.uncertain.at_most(
                    larger(similarity(centroids, embedding, i), zero()),
                );
            let new = count >= NEW_SPEAKER_MIN_WINDOWS && duration >= NEW_SPEAKER_MIN_MS
                && centroids.len() < m.max_speakers;
            &&& similar ==> exists|i: int|
                #![trigger centroids[i]]
                {
                    &&& most_similar(centroids, embedding, i)
                    &&& speaker == Speaker::Auto(centroids[i].id)
                    &&& confidence == larger(similarity(centroids, embedding, i), zero())
                    &&& after.len() == centroids.len()
                    &&& forall|j: int|
                        #![trigger after[j]]
                        0 <= j < after.len() && (j != i || !m.confident.at_most(confidence))
                            ==> after[j] == centroids[j]
                    &&& m.confident.at_most(confidence) ==> after[i].id == centroids[i].id
                        && after[i].vector == moved(centroids[i].vector, embedding)
                }
            &&& !similar && new ==> {
                &&& speaker == Speaker::Auto(centroids.len() as u32)
                &&& confidence == (Float32 { bits: NEW_SPEAKER_CONFIDENCE_BITS })
                &&& after.len() == centroids.len() + 1
                &&& after.drop_last() == centroids
                &&& after.last().id == centroids.len()
                &&& after.last().vector == embedding
            }
            &&& !similar && !new ==> speaker == Speaker::Remote && confidence == zero() && after
                == centroids
        }),
{
    law_best_match_is_most_similar(centroids, embedding);
    let (after, speaker, confidence) = assigned(centroids, embedding, count, duration, m);
    if let Some((i, s)) = best_match(centroids, embedding) {
        assert(centroids[i] == centroids[i]);
        assert(comparable(centroids, embedding, i));
        if m.uncertain.at_most(s) {
            assert forall|j: int|
                #![trigger after[j]]
                0 <= j < after.len() && (j != i || !m.confident.at_most(confidence)) implies after[j]
                == centroids[j] by {}
        }
    }
    assert(centroids.push(
        CentroidView { id: centroids.len() as u32, vector: embedding },
    ).drop_last() =~= centroids);
}

/// The windows that were matched at first, and with confidence, with the speaker of the
/// given number.
pub open spec fn sure_windows(w: Seq<WindowView>, id: u32, confident: Float32) -> Seq<WindowView> {
    w.filter(
        |x: WindowView|
            x.initial_speaker == Speaker::Auto(id) && !x.initial_confidence.below(confident),
    )
}

/// A centroid moved towards one embedding after the other.
pub open spec fn pulled(vector: Seq<Float32>, w: Seq<WindowView>) -> Seq<Float32> {
    w.fold_left(vector, |v: Seq<Float32>, x: WindowView| moved(v, x.embedding))
}

proof fn lemma_place(centroids: Seq<CentroidView>, id: u32, i: int, max_speakers: u32)
    requires
        numbered(centroids, max_speakers),
        0 <= i <= centroids.len(),
    ensures
        place_from(centroids, id, i) == if i <= id < centroids.len() {
            Some(id as int)
        } else {
            None::<int>
        },
    decreases centroids.len() - i,
{
    if i < centroids.len() {
        lemma_place(centroids, id, i + 1, max_speakers);
        assert(centroids[i].id == i);
    }
}

/// Every speaker is moved by its own windows and by no others: its centroid ends where the
/// windows that were matched with it, and with confidence, pull it one after the other.
pub proof fn law_speakers_are_moved_by_their_own_windows(
    centroids: Seq<CentroidView>,
    w: Seq<WindowView>,
    k: int,
    confident: Float32,
    max_speakers: u32,
    j: int,
)
    requires
        numbered(centroids, max_speakers),
        0 <= k <= w.len(),
        0 <= j < centroids.len(),
    ensures
        refreshed(centroids, w, k, confident).len() == centroids.len(),
        numbered(refreshed(centroids, w, k, confident), max_speakers),
        refreshed(centroids, w, k, confident)[j].id == centroids[j].id,
        refreshed(centroids, w, k, confident)[j].vector == pulled(
            centroids[j].vector,
            sure_windows(w.take(k), j as u32, confident),
        ),
    decreases k,
{
    reveal(Seq::filter);
    reveal(Seq::fold_left);
    if k > 0 {
        law_speakers_are_moved_by_their_own_windows(
            centroids,
            w,
            k - 1,
            confident,
            max_speakers,
            j,
        );
        let prev = refreshed(centroids, w, k - 1, confident);
        let x = w[k - 1];
        assert(w.take(k).drop_last() =~= w.take(k - 1));
        assert(w.take(k).last() == x);
        let before = sure_windows(w.take(k - 1), j as u32, confident);
        if let Speaker::Auto(id) = x.initial_speaker {
            lemma_place(prev, id, 0, max_speakers);
        }
        assert(before.push(x).drop_last() =~= before);
    }
}

/// A planned window and its embedding, where there is one.
pub open spec fn embedded(
    plan: Seq<PlannedWindow>,
    embeddings: Seq<Option<Seq<Float32>>>,
) -> Seq<(PlannedWindow, Option<Seq<Float32>>)> {
    plan.zip_with(embeddings).filter(|p: (PlannedWindow, Option<Seq<Float32>>)| p.1 is Some)
}

proof fn lemma_labelled(
    centroids: Seq<CentroidView>,
    plan: Seq<PlannedWindow>,
    embeddings: Seq<Option<Seq<Float32>>>,
    k: int,
    confident: Float32,
)
    requires
        plan.len() == embeddings.len(),
        0 <= k <= plan.len(),
    ensures
        ({
            let w = labelled(centroids, plan, embeddings, k, confident);
            let all = plan.zip_with(embeddings).take(k).filter(
                |p: (PlannedWindow, Option<Seq<Float32>>)| p.1 is Some,
            );
            &&& w.len() == all.len()
            &&& forall|i: int|
                #![trigger w[i]]
                0 <= i < w.len() ==> {
                    &&& w[i].start_ms == all[i].0.start_ms
                    &&& w[i].end_ms == all[i].0.end_ms
                    &&& Some(w[i].embedding) == all[i].1
                    &&& (w[i].speaker, w[i].confidence) == provisional(
                        centroids,
                        w[i].embedding,
                        confident,
                    )
                    &&& w[i].initial_speaker == w[i].speaker
                    &&& w[i].initial_confidence == w[i].confidence
                }
        }),
    decreases k,
{
    reveal(Seq::filter);
    if k > 0 {
        lemma_labelled(centroids, plan, embeddings, k - 1, confident);
        let z = plan.zip_with(embeddings);
        assert(z.take(k).drop_last() =~= z.take(k - 1));
        assert(z.take(k).last() == (plan[k - 1], embeddings[k - 1]));
    }
}

/// The windows of a chunk are those planned that have an embedding, in their order, each
/// with its own times and its own embedding, attributed by that embedding; and a window
/// remembers its first attribution.
pub proof fn law_windows_are_attributed_by_their_own_embedding(
    centroids: Seq<CentroidView>,
    plan: Seq<PlannedWindow>,
    embeddings: Seq<Option<Seq<Float32>>>,
    confident: Float32,
)
    requires
        plan.len() == embeddings.len(),
    ensures
        ({
            let w = labelled(centroids, plan, embeddings, plan.len() as int, confident);
            let all = embedded(plan, embeddings);
            &&& w.len() == all.len()
            &&& forall|i: int|
                #![trigger w[i]]
                0 <= i < w.len() ==> {
                    &&& w[i].start_ms == all[i].0.start_ms
                    &&& w[i].end_ms == all[i].0.end_ms
                    &&& Some(w[i].embedding) == all[i].1
                    &&& (w[i].speaker, w[i].confidence) == provisional(
                        centroids,
                        w[i].embedding,
                        confident,
                    )
                    &&& w[i].initial_speaker == w[i].speaker
                    &&& w[i].initial_confidence == w[i].confidence
                }
        }),
{
    lemma_labelled(centroids, plan, embeddings, plan.len() as int, confident);
    let z = plan.zip_with(embeddings);
    assert(z.take(z.len() as int) =~= z);
}

} // verus!
