//! What the reconstruction yields for honest shares.
//!
//! A dealer who shares the secret `s` picks a polynomial with the constant
//! coefficient `s` and hands the signer with the id `x` the polynomial's
//! value at `x`. A signer's partial signature of a message is the message's
//! point on the curve times that value. The statements here say that such
//! shares, whichever quorum they come from, combine to the point times `s`:
//! the signature under the shared key.
//!
//! They hold under a premise that this library cannot prove: that the curve
//! library's scaling and addition are linear. What the library proves is the
//! arithmetic that rests on it.

use vstd::prelude::*;
use vstd::arithmetic::div_mod::{lemma_add_mod_noop_right, lemma_mod_bound, lemma_small_mod};
use crate::bls::{g2_scaled, g2_sum, BlsSignature};
use crate::interpolation::{eval, interpolated_at_zero, lemma_eval_reduced, weighted_value};
use crate::lagrange::{
    lagrange_factor, lagrange_weights, partial_weight, reconstructs_constant_term,
};
use crate::recover_signature::{
    ascending, lemma_ascending_exists, lemma_ascending_len, recovered_signature, share_of,
    valid_shares, weighted_sum,
};
use crate::scalar::modulus;

verus! {

/// Each share is the point `base` times the value at the signer's id of the
/// polynomial with the coefficients `coeffs`.
pub open spec fn honest_shares(
    base: Seq<u8>,
    coeffs: Seq<nat>,
    sigs: Seq<BlsSignature>,
    ids: Seq<u64>,
) -> bool {
    &&& sigs.len() == ids.len()
    &&& forall|i: int|
        0 <= i < ids.len() ==> g2_scaled(base, eval(coeffs, ids[i] as nat)) == Some(
            (#[trigger] sigs[i])@,
        )
}

/// The curve's operations are linear on the multiples of `base`: every
/// scalar scales it, a multiple's multiple is the multiple by the product,
/// and the sum of two multiples is the multiple by the sum.
pub open spec fn linear_on_multiples(base: Seq<u8>) -> bool {
    &&& forall|a: nat| a < modulus() ==> (#[trigger] g2_scaled(base, a)) is Some
    &&& forall|a: nat, b: nat|
        a < modulus() && b < modulus() ==> #[trigger] g2_scaled(g2_scaled(base, a).unwrap(), b)
            == g2_scaled(base, (a * b) % modulus())
    &&& forall|a: nat, b: nat|
        a < modulus() && b < modulus() ==> #[trigger] g2_sum(
            g2_scaled(base, a).unwrap(),
            g2_scaled(base, b).unwrap(),
        ) == g2_scaled(base, (a + b) % modulus())
}

proof fn lemma_partial_weight_reduced(ids: Seq<u64>, i: int, n: int)
    ensures
        partial_weight(ids, i, n) < modulus(),
    decreases n,
{
    if n > 0 {
        lemma_partial_weight_reduced(ids, i, n - 1);
        if n - 1 != i {
            let a = partial_weight(ids, i, n - 1);
            let b = lagrange_factor(ids[n - 1], ids[i]);
            lemma_mod_bound((a * b) as int, modulus() as int);
        }
    }
}

proof fn lemma_weighted_value_below(ids: Seq<u64>, coeffs: Seq<nat>, k: int, m: int)
    ensures
        weighted_value(ids, coeffs, k, m) < modulus(),
    decreases m,
{
    if m > 0 {
        lemma_mod_bound(
            (weighted_value(ids, coeffs, k, m - 1) + partial_weight(ids, m - 1, k) * eval(
                coeffs,
                ids[m - 1] as nat,
            )) as int,
            modulus() as int,
        );
    }
}

/// The weighted sum of the first `m` honest shares is `base` times the
/// weighted sum of the polynomial's values.
proof fn lemma_sum_of_honest_shares(
    base: Seq<u8>,
    coeffs: Seq<nat>,
    order: Seq<u64>,
    points: Seq<Seq<u8>>,
    m: int,
)
    requires
        1 <= m <= order.len(),
        points.len() == order.len(),
        linear_on_multiples(base),
        forall|r: int|
            0 <= r < order.len() ==> g2_scaled(base, eval(coeffs, order[r] as nat)) == Some(
                #[trigger] points[r],
            ),
    ensures
        weighted_sum(points, lagrange_weights(order), m) == g2_scaled(
            base,
            weighted_value(order, coeffs, order.len() as int, m),
        ),
    decreases m,
{
    let n = order.len() as int;
    let weights = lagrange_weights(order);
    let r = m - 1;
    let e = eval(coeffs, order[r] as nat);
    let w = weights[r];
    assert(w == partial_weight(order, r, n));
    lemma_eval_reduced(coeffs, order[r] as nat);
    lemma_partial_weight_reduced(order, r, n);
    let product = (e * w) % modulus();
    lemma_mod_bound((e * w) as int, modulus() as int);
    assert(g2_scaled(base, e) == Some(points[r]));
    let term = g2_scaled(g2_scaled(base, e).unwrap(), w);
    assert(term == g2_scaled(base, product));
    assert(g2_scaled(points[r], w) == g2_scaled(base, product));
    let before = weighted_value(order, coeffs, n, r);
    lemma_weighted_value_below(order, coeffs, n, r);
    assert(w * e == e * w) by (nonlinear_arith);
    assert((before + product) % modulus() == weighted_value(order, coeffs, n, m)) by {
        lemma_add_mod_noop_right(before as int, (e * w) as int, modulus() as int);
    }
    if m == 1 {
        assert(before == 0);
        lemma_small_mod(product, modulus());
    } else {
        lemma_sum_of_honest_shares(base, coeffs, order, points, r);
        assert(weighted_sum(points, weights, r) == g2_scaled(base, before));
        assert(g2_scaled(base, before) is Some);
        assert(g2_scaled(base, product) is Some);
        assert(g2_sum(g2_scaled(base, before).unwrap(), g2_scaled(base, product).unwrap())
            == g2_scaled(base, (before + product) % modulus()));
    }
}

/// Honest shares recover the shared secret's signature: where the curve's
/// operations are linear and the weights reconstruct constant terms, valid
/// shares of a polynomial with no more coefficients than there are shares
/// combine to the base point times the polynomial's constant coefficient.
pub proof fn lemma_honest_shares_recover(
    base: Seq<u8>,
    coeffs: Seq<nat>,
    sigs: Seq<BlsSignature>,
    ids: Seq<u64>,
)
    requires
        valid_shares(sigs, ids),
        0 < coeffs.len() <= ids.len(),
        honest_shares(base, coeffs, sigs, ids),
        linear_on_multiples(base),
        reconstructs_constant_term(ascending(ids)),
    ensures
        recovered_signature(sigs, ids) == g2_scaled(base, coeffs[0] % modulus()),
{
    lemma_ascending_exists(ids);
    lemma_ascending_len(ids);
    let order = ascending(ids);
    let points = order.map_values(|id: u64| share_of(sigs, ids, id));
    assert forall|r: int| 0 <= r < order.len() implies g2_scaled(
        base,
        eval(coeffs, order[r] as nat),
    ) == Some(#[trigger] points[r]) by {
        assert(order.contains(order[r]));
        let i = ids.index_of(order[r]);
        assert(0 <= i < ids.len() && ids[i] == order[r]);
        assert(g2_scaled(base, eval(coeffs, ids[i] as nat)) == Some(sigs[i]@));
    }
    lemma_sum_of_honest_shares(base, coeffs, order, points, order.len() as int);
    assert(interpolated_at_zero(order, coeffs) == coeffs[0] % modulus());
}

/// Any two quorums recover the same signature: under the same premises,
/// two valid lists of honest shares of one polynomial over one base point,
/// each at least as long as the polynomial has coefficients, combine to the
/// same result.
pub proof fn lemma_honest_quorums_agree(
    base: Seq<u8>,
    coeffs: Seq<nat>,
    sigs1: Seq<BlsSignature>,
    ids1: Seq<u64>,
    sigs2: Seq<BlsSignature>,
    ids2: Seq<u64>,
)
    requires
        valid_shares(sigs1, ids1),
        valid_shares(sigs2, ids2),
        0 < coeffs.len() <= ids1.len(),
        coeffs.len() <= ids2.len(),
        honest_shares(base, coeffs, sigs1, ids1),
        honest_shares(base, coeffs, sigs2, ids2),
        linear_on_multiples(base),
        reconstructs_constant_term(ascending(ids1)),
        reconstructs_constant_term(ascending(ids2)),
    ensures
        recovered_signature(sigs1, ids1) == recovered_signature(sigs2, ids2),
{
    lemma_honest_shares_recover(base, coeffs, sigs1, ids1);
    lemma_honest_shares_recover(base, coeffs, sigs2, ids2);
}

} // verus!
