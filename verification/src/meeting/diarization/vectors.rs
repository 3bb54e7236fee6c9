//! Embedding vectors: similarity, centroids, averages.
use vstd::prelude::*;
use crate::float32::{larger, of_integer, product, quotient, square_root, sum, Float32};

verus! {

/// 0.05, the weight of a new embedding in a centroid.
pub const NEW_WEIGHT_BITS: u32 = 0x3d4c_cccd;

/// 0.95, the weight of the centroid itself.
pub const OLD_WEIGHT_BITS: u32 = 0x3f73_3333;

/// 1.0.
pub const ONE_BITS: u32 = 0x3f80_0000;

/// Minus infinity.
pub const MINUS_INFINITY_BITS: u32 = 0xff80_0000;

/// Zero.
pub open spec fn zero() -> Float32 {
    Float32 { bits: 0 }
}

/// The sum of the products of the components, from the first to the last.
pub open spec fn dot(a: Seq<Float32>, b: Seq<Float32>) -> Float32
    decreases a.len(),
{
    if a.len() == 0 {
        zero()
    } else {
        sum(dot(a.drop_last(), b.drop_last()), product(a.last(), b.last()))
    }
}

/// The length of a vector.
pub open spec fn norm(a: Seq<Float32>) -> Float32 {
    square_root(dot(a, a))
}

/// The cosine of the angle between two vectors; zero where their dimensions differ or
/// one of them has no length.
pub open spec fn cosine(a: Seq<Float32>, b: Seq<Float32>) -> Float32 {
    if a.len() != b.len() || a.len() == 0 || norm(a).zero() || norm(b).zero() {
        zero()
    } else {
        quotient(dot(a, b), product(norm(a), norm(b)))
    }
}

/// A known speaker: its number and the average of its embeddings.
#[derive(Debug)]
pub struct SpeakerCentroid {
    pub id: u32,
    pub vector: Vec<Float32>,
}

/// What a centroid says.
#[verifier::ext_equal]
pub struct CentroidView {
    pub id: u32,
    pub vector: Seq<Float32>,
}

impl View for SpeakerCentroid {
    type V = CentroidView;

    open spec fn view(&self) -> CentroidView {
        CentroidView { id: self.id, vector: self.vector@ }
    }
}

/// What the centroids of a list say.
pub open spec fn centroid_views(v: Seq<SpeakerCentroid>) -> Seq<CentroidView> {
    v.map_values(|c: SpeakerCentroid| c@)
}

/// The best match among the first `k` centroids of the same dimension: the first of the
/// most similar ones, with its similarity.
pub open spec fn best_of(
    centroids: Seq<CentroidView>,
    embedding: Seq<Float32>,
    k: int,
) -> (Option<int>, Float32)
    decreases k,
{
    if k <= 0 {
        (None, Float32 { bits: MINUS_INFINITY_BITS })
    } else {
        let best = best_of(centroids, embedding, k - 1);
        let c = centroids[k - 1];
        let similarity = cosine(embedding, c.vector);
        if c.vector.len() == embedding.len() && best.1.below(similarity) {
            (Some(k - 1), similarity)
        } else {
            best
        }
    }
}

/// The best match among all centroids, with a similarity of at least zero.
pub open spec fn best_match(centroids: Seq<CentroidView>, embedding: Seq<Float32>) -> Option<
    (int, Float32),
> {
    let best = best_of(centroids, embedding, centroids.len() as int);
    match best.0 {
        Some(i) => Some((i, larger(best.1, zero()))),
        None => None,
    }
}

/// A centroid moved towards an embedding of the same dimension.
pub open spec fn moved(vector: Seq<Float32>, embedding: Seq<Float32>) -> Seq<Float32> {
    if vector.len() == embedding.len() {
        Seq::new(
            vector.len(),
            |i: int|
                sum(
                    product(Float32 { bits: OLD_WEIGHT_BITS }, vector[i]),
                    product(Float32 { bits: NEW_WEIGHT_BITS }, embedding[i]),
                ),
        )
    } else {
        vector
    }
}

/// The centroids with the one at `i` moved towards an embedding.
pub open spec fn with_moved(
    centroids: Seq<CentroidView>,
    i: int,
    embedding: Seq<Float32>,
) -> Seq<CentroidView> {
    if 0 <= i < centroids.len() {
        centroids.update(
            i,
            CentroidView {
                id: centroids[i].id,
                vector: moved(centroids[i].vector, embedding),
            },
        )
    } else {
        centroids
    }
}

/// The average of `count` vectors, taken further to one more.
pub open spec fn averaged(average: Seq<Float32>, count: nat, new: Seq<Float32>) -> Seq<Float32> {
    Seq::new(
        average.len(),
        |i: int|
            if i < new.len() {
                quotient(
                    sum(product(average[i], of_integer(count)), new[i]),
                    sum(of_integer(count), Float32 { bits: ONE_BITS }),
                )
            } else {
                average[i]
            },
    )
}

fn dot_product(a: &Vec<Float32>, b: &Vec<Float32>) -> (r: Float32)
    requires
        a.len() == b.len(),
    ensures
        r == dot(a@, b@),
{
    let mut total: Float32 = Float32::from_bits(0);
    let mut i: usize = 0;
    while i < a.len()
        invariant
            i <= a.len(),
            a.len() == b.len(),
            total == dot(a@.take(i as int), b@.take(i as int)),
        decreases a.len() - i,
    {
        assert(a@.take(i + 1).drop_last() =~= a@.take(i as int));
        assert(b@.take(i + 1).drop_last() =~= b@.take(i as int));
        total = total.add(a[i].mul(b[i]));
        i = i + 1;
    }
    assert(a@.take(i as int) =~= a@);
    assert(b@.take(i as int) =~= b@);
    total
}

/// The similarity of two embeddings.
pub fn cosine_similarity(a: &Vec<Float32>, b: &Vec<Float32>) -> (r: Float32)
    ensures
        r == cosine(a@, b@),
{
    if a.len() != b.len() || a.is_empty() {
        return Float32::from_bits(0);
    }
    let d: Float32 = dot_product(a, b);
    let norm_a: Float32 = dot_product(a, a).sqrt();
    let norm_b: Float32 = dot_product(b, b).sqrt();
    if norm_a.is_zero() || norm_b.is_zero() {
        return Float32::from_bits(0);
    }
    d.div(norm_a.mul(norm_b))
}

/// The best match among the centroids.
pub fn find_best(centroids: &Vec<SpeakerCentroid>, embedding: &Vec<Float32>) -> (r: Option<
    (usize, Float32),
>)
    ensures
        match (r, best_match(centroid_views(centroids@), embedding@)) {
            (Some(a), Some(b)) => a.0 == b.0 && a.1 == b.1 && a.0 < centroids.len(),
            (None, None) => true,
            _ => false,
        },
{
    let mut at: Option<usize> = None;
    let mut best: Float32 = Float32::from_bits(MINUS_INFINITY_BITS);
    let mut i: usize = 0;
    let ghost views = centroid_views(centroids@);
    while i < centroids.len()
        invariant
            i <= centroids.len(),
            views == centroid_views(centroids@),
            ({
                let b = best_of(views, embedding@, i as int);
                &&& best == b.1
                &&& match (at, b.0) {
                    (Some(x), Some(y)) => x == y && x < i,
                    (None, None) => true,
                    _ => false,
                }
            }),
        decreases centroids.len() - i,
    {
        if centroids[i].vector.len() == embedding.len() {
            let similarity: Float32 = cosine_similarity(embedding, &centroids[i].vector);
            if best.lt(similarity) {
                best = similarity;
                at = Some(i);
            }
        }
        i = i + 1;
    }
    match at {
        Some(x) => Some((x, best.max(Float32::from_bits(0)))),
        None => None,
    }
}

/// Moves the centroid at `at` towards an embedding.
pub fn move_centroid(centroids: &mut Vec<SpeakerCentroid>, at: usize, embedding: &Vec<Float32>)
    ensures
        centroid_views(final(centroids)@) == with_moved(
            centroid_views(old(centroids)@),
            at as int,
            embedding@,
        ),
{
    let ghost views = centroid_views(old(centroids)@);
    if at >= centroids.len() || centroids[at].vector.len() != embedding.len() {
        assert(with_moved(views, at as int, embedding@) =~= views);
        return;
    }
    let mut vector: Vec<Float32> = Vec::new();
    let mut i: usize = 0;
    while i < embedding.len()
        invariant
            i <= embedding.len(),
            at < centroids.len(),
            *centroids == *old(centroids),
            centroids[at as int].vector.len() == embedding.len(),
            vector@ =~= moved(centroids[at as int].vector@, embedding@).take(i as int),
        decreases embedding.len() - i,
    {
        let old_part: Float32 = Float32::from_bits(OLD_WEIGHT_BITS).mul(centroids[at].vector[i]);
        let new_part: Float32 = Float32::from_bits(NEW_WEIGHT_BITS).mul(embedding[i]);
        vector.push(old_part.add(new_part));
        i = i + 1;
    }
    let id: u32 = centroids[at].id;
    centroids.set(at, SpeakerCentroid { id, vector });
    proof {
        assert(vector@ =~= moved(views[at as int].vector, embedding@));
        assert(centroid_views(centroids@) =~= with_moved(views, at as int, embedding@));
    }
}

/// The average taken further to one more vector.
pub fn average_in(average: &Vec<Float32>, count: usize, new: &Vec<Float32>) -> (r: Vec<Float32>)
    ensures
        r@ == averaged(average@, count as nat, new@),
{
    let c: Float32 = Float32::from_u64(count as u64);
    let d: Float32 = c.add(Float32::from_bits(ONE_BITS));
    let mut out: Vec<Float32> = Vec::new();
    let mut i: usize = 0;
    while i < average.len()
        invariant
            i <= average.len(),
            c == of_integer(count as nat),
            d == sum(of_integer(count as nat), Float32 { bits: ONE_BITS }),
            out@ =~= averaged(average@, count as nat, new@).take(i as int),
        decreases average.len() - i,
    {
        if i < new.len() {
            out.push(average[i].mul(c).add(new[i]).div(d));
        } else {
            out.push(average[i]);
        }
        i = i + 1;
    }
    assert(averaged(average@, count as nat, new@).take(i as int) =~= averaged(
        average@,
        count as nat,
        new@,
    ));
    out
}

/// The same vector, in a list of its own.
pub fn copy_vector(v: &Vec<Float32>) -> (r: Vec<Float32>)
    ensures
        r@ == v@,
{
    let mut out: Vec<Float32> = Vec::new();
    let mut i: usize = 0;
    while i < v.len()
        invariant
            i <= v.len(),
            out@ =~= v@.take(i as int),
        decreases v.len() - i,
    {
        out.push(v[i]);
        i = i + 1;
    }
    assert(v@.take(i as int) =~= v@);
    out
}

/// The best match is as similar as any centroid of the dimension of the embedding whose
/// similarity is a number above minus infinity.
pub proof fn law_best_match_is_best(
    centroids: Seq<CentroidView>,
    embedding: Seq<Float32>,
    i: int,
)
    requires
        0 <= i < centroids.len(),
        centroids[i].vector.len() == embedding.len(),
        (Float32 { bits: MINUS_INFINITY_BITS }).below(cosine(embedding, centroids[i].vector)),
    ensures
        best_match(centroids, embedding) matches Some(best) && 0 <= best.0 < centroids.len()
            && cosine(embedding, centroids[i].vector).at_most(best.1),
{
    lemma_best_of(centroids, embedding, centroids.len() as int, i);
}

proof fn lemma_best_of(centroids: Seq<CentroidView>, embedding: Seq<Float32>, k: int, i: int)
    requires
        0 <= k <= centroids.len(),
    ensures
        ({
            let best = best_of(centroids, embedding, k);
            &&& !best.1.nan()
            &&& best.0 matches Some(b) ==> 0 <= b < k
            &&& 0 <= i < k && centroids[i].vector.len() == embedding.len() && (Float32 {
                bits: MINUS_INFINITY_BITS,
            }).below(cosine(embedding, centroids[i].vector)) ==> best.0 is Some && cosine(
                embedding,
                centroids[i].vector,
            ).at_most(best.1)
        }),
    decreases k,
{
    if k > 0 {
        lemma_best_of(centroids, embedding, k - 1, i);
        let prev = best_of(centroids, embedding, k - 1);
        if prev.0 is None {
            lemma_none_is_lowest(centroids, embedding, k - 1);
        }
    }
}

proof fn lemma_none_is_lowest(centroids: Seq<CentroidView>, embedding: Seq<Float32>, k: int)
    requires
        best_of(centroids, embedding, k).0 is None,
    ensures
        best_of(centroids, embedding, k).1 == (Float32 { bits: MINUS_INFINITY_BITS }),
    decreases k,
{
    if k > 0 {
        lemma_none_is_lowest(centroids, embedding, k - 1);
    }
}

} // verus!
