//! What similarity, centroids and averages come to.
use vstd::prelude::*;
use crate::float32::{infinite_units, of_integer, one_units, product, quotient, sum, Float32};
use crate::float32_laws::{
    law_exact_roots_are_exact, law_one_and_two, law_small_integers_are_exact,
    law_small_products_are_exact, law_small_sums_are_exact, law_sums_and_products_commute,
    lemma_one_is_one, lemma_two_is_two, lemma_zero_is_zero, lemma_zero_units,
};
use crate::meeting::diarization::vectors::{
    averaged, cosine, dot, moved, norm, with_moved, CentroidView,
};
use crate::meeting::diarization::windows::mean;

verus! {

/// The similarity of two embeddings does not depend on which is named first.
pub proof fn law_similarity_is_mutual(a: Seq<Float32>, b: Seq<Float32>)
    ensures
        cosine(a, b) == cosine(b, a),
{
    if a.len() == b.len() {
        lemma_dot_commutes(a, b);
        law_sums_and_products_commute(norm(a), norm(b));
    }
}

proof fn lemma_dot_commutes(a: Seq<Float32>, b: Seq<Float32>)
    requires
        a.len() == b.len(),
    ensures
        dot(a, b) == dot(b, a),
    decreases a.len(),
{
    if a.len() > 0 {
        lemma_dot_commutes(a.drop_last(), b.drop_last());
        law_sums_and_products_commute(a.last(), b.last());
    }
}

/// The sum of the products of the components.
pub open spec fn inner(a: Seq<nat>, b: Seq<nat>) -> nat
    decreases a.len(),
{
    if a.len() == 0 {
        0
    } else {
        inner(a.drop_last(), b.drop_last()) + a.last() * b.last()
    }
}

/// A vector of integers in single precision.
pub open spec fn in_single(a: Seq<nat>) -> Seq<Float32> {
    a.map_values(|x: nat| of_integer(x))
}

/// Components that can be multiplied without loss.
pub open spec fn small(a: Seq<nat>) -> bool {
    forall|i: int| #![trigger a[i]] 0 <= i < a.len() ==> a[i] <= 0x1000
}

proof fn lemma_dot(a: Seq<nat>, b: Seq<nat>)
    requires
        a.len() == b.len(),
        small(a),
        small(b),
        inner(a, b) <= 0x100_0000,
    ensures
        dot(in_single(a), in_single(b)) == of_integer(inner(a, b)),
    decreases a.len(),
{
    let (x, y) = (in_single(a), in_single(b));
    if a.len() == 0 {
        lemma_zero_is_zero();
    } else {
        let (p, q) = (a.drop_last(), b.drop_last());
        assert(small(p)) by {
            assert forall|i: int| #![trigger p[i]] 0 <= i < p.len() implies p[i] <= 0x1000 by {
                assert(p[i] == a[i]);
            }
        }
        assert(small(q)) by {
            assert forall|i: int| #![trigger q[i]] 0 <= i < q.len() implies q[i] <= 0x1000 by {
                assert(q[i] == b[i]);
            }
        }
        let (u, v) = (a.last(), b.last());
        assert(a[a.len() - 1] == u && b[b.len() - 1] == v);
        assert(u * v <= 0x100_0000) by (nonlinear_arith)
            requires
                u <= 0x1000,
                v <= 0x1000,
        ;
        lemma_dot(p, q);
        assert(x.drop_last() =~= in_single(p));
        assert(y.drop_last() =~= in_single(q));
        law_small_products_are_exact(u, v);
        law_small_sums_are_exact(inner(p, q), u * v);
    }
}

/// The similarity of two embeddings is their inner product by the product of their lengths:
/// exactly so for small integers with lengths that are integers.
pub proof fn law_similarity_is_the_cosine(a: Seq<nat>, b: Seq<nat>, p: nat, q: nat)
    requires
        a.len() == b.len(),
        a.len() > 0,
        small(a),
        small(b),
        0 < p <= 0x1000,
        0 < q <= 0x1000,
        inner(a, a) == p * p,
        inner(b, b) == q * q,
        inner(a, b) <= 0x100_0000,
    ensures
        cosine(in_single(a), in_single(b)) == quotient(
            of_integer(inner(a, b)),
            of_integer(p * q),
        ),
{
    assert(p * p <= 0x100_0000 && q * q <= 0x100_0000 && p * q <= 0x100_0000) by (nonlinear_arith)
        requires
            p <= 0x1000,
            q <= 0x1000,
    ;
    lemma_dot(a, b);
    lemma_dot(a, a);
    lemma_dot(b, b);
    law_exact_roots_are_exact(p);
    law_exact_roots_are_exact(q);
    law_small_products_are_exact(p, q);
    lemma_not_zero(p);
    lemma_not_zero(q);
}

proof fn lemma_not_zero(p: nat)
    requires
        0 < p <= 0x1000,
    ensures
        !of_integer(p).zero(),
{
    law_small_integers_are_exact(p);
    lemma_zero_units(of_integer(p));
    vstd::arithmetic::power2::lemma_pow2_pos(149);
    let one = one_units();
    assert(p * one > 0) by (nonlinear_arith)
        requires
            p > 0,
            one > 0,
    ;
}

/// Moving a centroid keeps its dimension and goes component by component, nineteen parts of
/// what it was and one part of the embedding; an embedding of another dimension moves
/// nothing.
pub proof fn law_centroids_move_a_twentieth(vector: Seq<Float32>, embedding: Seq<Float32>, i: int)
    requires
        0 <= i < vector.len(),
    ensures
        moved(vector, embedding).len() == vector.len(),
        vector.len() == embedding.len() ==> moved(vector, embedding)[i] == sum(
            product(Float32 { bits: 0x3f73_3333 }, vector[i]),
            product(Float32 { bits: 0x3d4c_cccd }, embedding[i]),
        ),
        vector.len() != embedding.len() ==> moved(vector, embedding) == vector,
{
}

/// Only the centroid that is meant moves, and it keeps its number.
pub proof fn law_one_centroid_moves(
    centroids: Seq<CentroidView>,
    i: int,
    embedding: Seq<Float32>,
    j: int,
)
    requires
        0 <= i < centroids.len(),
        0 <= j < centroids.len(),
    ensures
        with_moved(centroids, i, embedding).len() == centroids.len(),
        with_moved(centroids, i, embedding)[j].id == centroids[j].id,
        with_moved(centroids, i, embedding)[j].vector == if j == i {
            moved(centroids[j].vector, embedding)
        } else {
            centroids[j].vector
        },
{
}

/// The average of one vector, taken further to a second one, is the mean of the two.
pub proof fn law_average_of_two_is_the_mean(a: Seq<Float32>, b: Seq<Float32>, i: int)
    requires
        a.len() == b.len(),
        0 <= i < a.len(),
        a[i].finite(),
        2 * a[i].units() < infinite_units(),
    ensures
        averaged(a, 1, b).len() == a.len(),
        averaged(a, 1, b)[i] == mean(a[i], b[i]),
{
    lemma_one_is_one();
    law_one_and_two(a[i]);
    law_small_sums_are_exact(1, 1);
    lemma_two_is_two();
}

/// An average counts every window once: exactly so for small integers. It keeps its dimension,
/// and a component that the new vector lacks stays as it was.
pub proof fn law_averages_count_every_window(
    a: Seq<Float32>,
    b: Seq<Float32>,
    n: nat,
    i: int,
    x: nat,
    y: nat,
)
    requires
        0 <= i < a.len(),
        x <= 0x1000,
        n < 0x1000,
        x * n + y <= 0x100_0000,
        a[i] == of_integer(x),
        i < b.len() ==> b[i] == of_integer(y),
    ensures
        averaged(a, n, b).len() == a.len(),
        i < b.len() ==> averaged(a, n, b)[i] == quotient(
            of_integer(x * n + y),
            of_integer(n + 1),
        ),
        i >= b.len() ==> averaged(a, n, b)[i] == a[i],
{
    lemma_one_is_one();
    assert(x * n <= 0x100_0000) by (nonlinear_arith)
        requires
            x <= 0x1000,
            n < 0x1000,
    ;
    law_small_products_are_exact(x, n);
    law_small_sums_are_exact(x * n, y);
    law_small_sums_are_exact(n, 1);
}

/// Embeddings of different dimensions, and those without length, are not similar at all.
pub proof fn law_nothing_is_similar_to_nothing(a: Seq<Float32>, b: Seq<Float32>)
    ensures
        a.len() != b.len() || a.len() == 0 || norm(a).zero() || norm(b).zero() ==> cosine(a, b) == (
        Float32 { bits: 0 }),
{
}

/// The mean of two numbers is half of their sum, whichever is named first: exactly so for small
/// integers.
pub proof fn law_mean_is_half_of_the_sum(x: nat, y: nat)
    requires
        x + y <= 0x100_0000,
    ensures
        mean(of_integer(x), of_integer(y)) == quotient(of_integer(x + y), of_integer(2)),
        mean(of_integer(x), of_integer(y)) == mean(of_integer(y), of_integer(x)),
{
    law_small_sums_are_exact(x, y);
    law_small_sums_are_exact(y, x);
    lemma_two_is_two();
}

} // verus!
