//! Lagrange interpolation at zero over the scalar field: the weight with
//! which each share enters the reconstruction of the value at zero.

use vstd::prelude::*;
use crate::interpolation::{
    differences_invertible, interpolated_at_zero, lemma_weights_interpolate,
};
use crate::scalar::{
    field_inverse, field_mul, field_sub, has_inverse, lemma_distinct_ids_differ,
    lemma_inverse_found, modulus, scalar_from_u64, scalar_invert, scalar_mul, scalar_sub, Scalar,
};

verus! {

/// No two entries of `ids` are equal.
pub open spec fn pairwise_distinct(ids: Seq<u64>) -> bool {
    forall|i: int, j: int| 0 <= i < j < ids.len() ==> ids[i] != ids[j]
}

/// No entry of `ids` is zero.
pub open spec fn all_nonzero(ids: Seq<u64>) -> bool {
    forall|i: int| 0 <= i < ids.len() ==> ids[i] != 0
}

/// The factor that the point `xj` contributes to the weight of the point
/// `xi`: `xj / (xj - xi)`.
pub open spec fn lagrange_factor(xj: u64, xi: u64) -> nat {
    field_mul(xj as nat, field_inverse(field_sub(xj as nat, xi as nat)))
}

/// The product of the factors that the first `n` points other than the
/// `i`-th contribute to the weight of the `i`-th.
pub open spec fn partial_weight(ids: Seq<u64>, i: int, n: int) -> nat
    decreases n,
{
    if n <= 0 {
        1
    } else if n - 1 == i {
        partial_weight(ids, i, n - 1)
    } else {
        field_mul(partial_weight(ids, i, n - 1), lagrange_factor(ids[n - 1], ids[i]))
    }
}

/// The value at zero of the `i`-th Lagrange basis polynomial over the points
/// `ids`: the product over `j != i` of `ids[j] / (ids[j] - ids[i])`.
pub open spec fn lagrange_weight(ids: Seq<u64>, i: int) -> nat {
    partial_weight(ids, i, ids.len() as int)
}

/// The weights of all the points, in their order.
pub open spec fn lagrange_weights(ids: Seq<u64>) -> Seq<nat> {
    Seq::new(ids.len(), |i: int| lagrange_weight(ids, i))
}

/// Computes the weight of the `i`-th of the points `ids`.
fn weight_of_point(ids: &[u64], i: usize) -> (weight: Scalar)
    requires
        i < ids@.len(),
        pairwise_distinct(ids@),
    ensures
        weight.is_reduced(),
        weight@ == lagrange_weight(ids@, i as int),
        forall|j: int|
            0 <= j < ids@.len() && j != i ==> has_inverse(
                #[trigger] field_sub(ids@[j] as nat, ids@[i as int] as nat),
            ),
{
    let xi = scalar_from_u64(ids[i]);
    let mut weight = scalar_from_u64(1);
    let mut j: usize = 0;
    while j < ids.len()
        invariant
            i < ids@.len(),
            j <= ids@.len(),
            pairwise_distinct(ids@),
            xi.is_reduced(),
            xi@ == ids@[i as int] as nat,
            weight.is_reduced(),
            weight@ == partial_weight(ids@, i as int, j as int),
            forall|b: int|
                0 <= b < j && b != i ==> has_inverse(
                    #[trigger] field_sub(ids@[b] as nat, ids@[i as int] as nat),
                ),
        decreases ids@.len() - j,
    {
        if j != i {
            let xj = scalar_from_u64(ids[j]);
            let difference = scalar_sub(&xj, &xi);
            proof {
                lemma_distinct_ids_differ(ids@[j as int], ids@[i as int]);
            }
            if let Some(inverse) = scalar_invert(&difference) {
                proof {
                    lemma_inverse_found(difference@, inverse@);
                    assert(has_inverse(field_sub(ids@[j as int] as nat, ids@[i as int] as nat)));
                }
                let factor = scalar_mul(&xj, &inverse);
                weight = scalar_mul(&weight, &factor);
            }
        }
        j += 1;
    }
    weight
}

/// The weights reconstruct what a polynomial shares: for every polynomial
/// with no more coefficients than there are points, the sum of its values
/// at the points, each times its point's weight, is the constant coefficient.
pub open spec fn reconstructs_constant_term(ids: Seq<u64>) -> bool {
    forall|coeffs: Seq<nat>|
        0 < coeffs.len() <= ids.len() ==> #[trigger] interpolated_at_zero(ids, coeffs) == coeffs[0]
            % modulus()
}

/// Computes the weights of all the points `ids`.
///
/// In finding them it finds the inverse of every difference of two points,
/// and with that the weights are known to reconstruct the constant term of
/// every polynomial that the points can determine.
pub(crate) fn weights_of_distinct_points(ids: &[u64]) -> (weights: Vec<Scalar>)
    requires
        pairwise_distinct(ids@),
    ensures
        weights@.len() == ids@.len(),
        forall|i: int| 0 <= i < ids@.len() ==> (#[trigger] weights@[i]).is_reduced(),
        weights@.map_values(|w: Scalar| w@) == lagrange_weights(ids@),
        reconstructs_constant_term(ids@),
{
    let mut weights: Vec<Scalar> = Vec::new();
    let mut i: usize = 0;
    while i < ids.len()
        invariant
            i <= ids@.len(),
            pairwise_distinct(ids@),
            weights@.len() == i,
            forall|a: int| 0 <= a < i ==> (#[trigger] weights@[a]).is_reduced(),
            forall|a: int| 0 <= a < i ==> (#[trigger] weights@[a])@ == lagrange_weight(ids@, a),
            forall|a: int, b: int|
                0 <= a < i && 0 <= b < ids@.len() && a != b ==> has_inverse(
                    #[trigger] field_sub(ids@[b] as nat, ids@[a] as nat),
                ),
        decreases ids@.len() - i,
    {
        let weight = weight_of_point(ids, i);
        weights.push(weight);
        i += 1;
    }
    proof {
        assert(weights@.map_values(|w: Scalar| w@) =~= lagrange_weights(ids@));
        assert(differences_invertible(ids@));
        assert forall|coeffs: Seq<nat>| 0 < coeffs.len() <= ids@.len() implies #[trigger]
            interpolated_at_zero(ids@, coeffs) == coeffs[0] % modulus() by {
            lemma_weights_interpolate(ids@, coeffs);
        }
    }
    weights
}

/// Whether no two of the ids are equal.
pub(crate) fn ids_are_distinct(ids: &[u64]) -> (distinct: bool)
    ensures
        distinct == pairwise_distinct(ids@),
{
    let mut j: usize = 0;
    while j < ids.len()
        invariant
            j <= ids@.len(),
            forall|a: int, b: int| 0 <= a < b < j ==> ids@[a] != ids@[b],
        decreases ids@.len() - j,
    {
        let mut i: usize = 0;
        while i < j
            invariant
                i <= j < ids@.len(),
                forall|a: int| 0 <= a < i ==> ids@[a] != ids@[j as int],
            decreases j - i,
        {
            if ids[i] == ids[j] {
                return false;
            }
            i += 1;
        }
        j += 1;
    }
    true
}

/// The Lagrange weights at zero of the points `ids`, in their order: `None`
/// where two of the points are equal, for then no weights exist.
pub fn lagrange_weights_at_zero(ids: &[u64]) -> (weights: Option<Vec<Scalar>>)
    ensures
        weights is Some <==> pairwise_distinct(ids@),
        weights is Some ==> {
            let found = weights->Some_0@;
            &&& found.len() == ids@.len()
            &&& forall|i: int| 0 <= i < found.len() ==> (#[trigger] found[i]).is_reduced()
            &&& found.map_values(|w: Scalar| w@) == lagrange_weights(ids@)
            &&& reconstructs_constant_term(ids@)
        },
{
    if ids_are_distinct(ids) {
        Some(weights_of_distinct_points(ids))
    } else {
        None
    }
}

} // verus!
