//! Reconstruction of the composite signature from partial signatures.
//!
//! Each partial signature is the composite one's secret-sharing polynomial
//! taken at the signer's id, carried into the curve. The composite signature
//! is the value at zero, which Lagrange interpolation gives as a weighted sum
//! of the partial signatures. The shares are combined in ascending order of
//! their ids, so that the order in which they were handed in has no bearing
//! on the result.

use vstd::prelude::*;
use crate::bls::{add_signatures, g2_scaled, g2_sum, scale_signature, BlsSignature};
use crate::scalar::Scalar;
use crate::lagrange::{
    all_nonzero, ids_are_distinct, lagrange_weights, pairwise_distinct,
    reconstructs_constant_term, weights_of_distinct_points,
};

verus! {

/// One signer's contribution to a signing round.
#[derive(Clone, Copy, Debug, PartialEq, Eq)]
pub struct PartialSignature {
    /// What the signer returned.
    pub signature: BlsSignature,
    /// The id of the signer that returned it.
    pub participant_id: u64,
}

/// The ids of `shares`, in their order.
pub open spec fn ids_of(shares: Seq<PartialSignature>) -> Seq<u64> {
    shares.map_values(|share: PartialSignature| share.participant_id)
}

/// The signatures of `shares`, in their order.
pub open spec fn signatures_of(shares: Seq<PartialSignature>) -> Seq<BlsSignature> {
    shares.map_values(|share: PartialSignature| share.signature)
}

/// Each entry is smaller than the next.
pub open spec fn strictly_increasing(ids: Seq<u64>) -> bool {
    forall|i: int, j: int| 0 <= i < j < ids.len() ==> ids[i] < ids[j]
}

/// The two sequences hold the same numbers.
pub open spec fn same_members(a: Seq<u64>, b: Seq<u64>) -> bool {
    forall|x: u64| a.contains(x) <==> b.contains(x)
}

/// `sorted` holds the numbers of `ids`, each once, from the smallest up.
pub open spec fn is_ascending_order_of(sorted: Seq<u64>, ids: Seq<u64>) -> bool {
    strictly_increasing(sorted) && same_members(sorted, ids)
}

/// The numbers of `ids` from the smallest up.
pub open spec fn ascending(ids: Seq<u64>) -> Seq<u64> {
    choose|sorted: Seq<u64>| is_ascending_order_of(sorted, ids)
}

/// The encoding of the signature that came with `id`.
pub open spec fn share_of(sigs: Seq<BlsSignature>, ids: Seq<u64>, id: u64) -> Seq<u8> {
    sigs[ids.index_of(id)]@
}

/// What can be combined: as many ids as signatures, at least one, and the
/// ids non-zero and pairwise distinct.
pub open spec fn valid_shares(sigs: Seq<BlsSignature>, ids: Seq<u64>) -> bool {
    &&& sigs.len() == ids.len()
    &&& ids.len() > 0
    &&& all_nonzero(ids)
    &&& pairwise_distinct(ids)
}

/// The sum of the first `n` points, each multiplied by its weight, taken
/// from the first on; `None` as soon as a point fails to decode.
pub open spec fn weighted_sum(points: Seq<Seq<u8>>, weights: Seq<nat>, n: int) -> Option<Seq<u8>>
    decreases n,
{
    if n <= 0 {
        None
    } else if n == 1 {
        g2_scaled(points[0], weights[0])
    } else {
        match weighted_sum(points, weights, n - 1) {
            None => None,
            Some(sum) => match g2_scaled(points[n - 1], weights[n - 1]) {
                None => None,
                Some(term) => g2_sum(sum, term),
            },
        }
    }
}

/// The composite signature that the shares `(sigs[i], ids[i])` determine:
/// with the ids in ascending order, the sum of each share's signature
/// multiplied by the Lagrange weight of its id. `None` where the shares are
/// not valid or a signature is not a point of the group.
pub open spec fn recovered_signature(sigs: Seq<BlsSignature>, ids: Seq<u64>) -> Option<Seq<u8>> {
    if valid_shares(sigs, ids) {
        let order = ascending(ids);
        weighted_sum(
            order.map_values(|id: u64| share_of(sigs, ids, id)),
            lagrange_weights(order),
            order.len() as int,
        )
    } else {
        None
    }
}

/// Two strictly increasing sequences with the same members are equal.
pub proof fn lemma_ascending_unique(s: Seq<u64>, t: Seq<u64>)
    requires
        strictly_increasing(s),
        strictly_increasing(t),
        same_members(s, t),
    ensures
        s == t,
    decreases s.len(),
{
    if s.len() == 0 {
        if t.len() > 0 {
            assert(t.contains(t[0]));
            assert(s.contains(t[0]));
        }
        assert(s =~= t);
    } else {
        assert(s.contains(s[0]));
        assert(t.contains(s[0]));
        let a = s.last();
        let b = t.last();
        assert(s.contains(a));
        assert(t.contains(b));
        assert(t.contains(a));
        assert(s.contains(b));
        assert(a == b);
        let s0 = s.drop_last();
        let t0 = t.drop_last();
        assert forall|x: u64| s0.contains(x) <==> t0.contains(x) by {
            if s0.contains(x) {
                let i = choose|i: int| 0 <= i < s0.len() && s0[i] == x;
                assert(s[i] == x);
                assert(s.contains(x));
                let j = choose|j: int| 0 <= j < t.len() && t[j] == x;
                assert(j < t.len() - 1);
                assert(t0[j] == x);
            }
            if t0.contains(x) {
                let j = choose|j: int| 0 <= j < t0.len() && t0[j] == x;
                assert(t[j] == x);
                assert(t.contains(x));
                let i = choose|i: int| 0 <= i < s.len() && s[i] == x;
                assert(i < s.len() - 1);
                assert(s0[i] == x);
            }
        }
        lemma_ascending_unique(s0, t0);
        assert(s =~= s0.push(a));
        assert(t =~= t0.push(b));
    }
}

/// Whatever lists the members of `ids` from the smallest up is `ascending(ids)`.
pub proof fn lemma_ascending_is(sorted: Seq<u64>, ids: Seq<u64>)
    requires
        is_ascending_order_of(sorted, ids),
    ensures
        ascending(ids) == sorted,
{
    lemma_ascending_unique(ascending(ids), sorted);
}

/// `s` with `x` put in its place, if it is not there yet.
spec fn with_member(s: Seq<u64>, x: u64) -> Seq<u64>
    decreases s.len(),
{
    if s.len() == 0 {
        seq![x]
    } else if s.last() < x {
        s.push(x)
    } else if s.last() == x {
        s
    } else {
        with_member(s.drop_last(), x).push(s.last())
    }
}

proof fn lemma_with_member(s: Seq<u64>, x: u64)
    requires
        strictly_increasing(s),
    ensures
        strictly_increasing(with_member(s, x)),
        forall|y: u64| #[trigger] with_member(s, x).contains(y) <==> (s.contains(y) || y == x),
        with_member(s, x).len() > 0,
        with_member(s, x).last() == (if s.len() > 0 && s.last() > x {
            s.last()
        } else {
            x
        }),
    decreases s.len(),
{
    let r = with_member(s, x);
    if s.len() == 0 {
        assert(r[0] == x);
        assert forall|y: u64| r.contains(y) <==> (s.contains(y) || y == x) by {
            if y == x {
                assert(r[0] == y);
            }
        }
    } else if s.last() < x {
        assert(r.last() == x);
        assert forall|y: u64| r.contains(y) <==> (s.contains(y) || y == x) by {
            if s.contains(y) {
                let i = choose|i: int| 0 <= i < s.len() && s[i] == y;
                assert(r[i] == y);
            }
            if y == x {
                assert(r[s.len() as int] == y);
            }
        }
    } else if s.last() == x {
        assert(s.contains(x)) by {
            assert(s[s.len() - 1] == x);
        }
    } else {
        let s0 = s.drop_last();
        let r0 = with_member(s0, x);
        lemma_with_member(s0, x);
        assert(r == r0.push(s.last()));
        assert(r0.last() < s.last()) by {
            if s0.len() > 0 {
                assert(s0.last() == s[s.len() - 2]);
            }
        }
        assert forall|i: int, j: int| 0 <= i < j < r.len() implies r[i] < r[j] by {
            if j == r.len() - 1 {
                assert(r0[i] <= r0.last());
            }
        }
        assert forall|y: u64| r.contains(y) <==> (s.contains(y) || y == x) by {
            if r.contains(y) {
                let i = choose|i: int| 0 <= i < r.len() && r[i] == y;
                if i < r0.len() {
                    assert(r0.contains(y));
                    if s0.contains(y) {
                        let k = choose|k: int| 0 <= k < s0.len() && s0[k] == y;
                        assert(s[k] == y);
                    }
                } else {
                    assert(s[s.len() - 1] == y);
                }
            }
            if s.contains(y) {
                let k = choose|k: int| 0 <= k < s.len() && s[k] == y;
                if k < s0.len() {
                    assert(s0[k] == y);
                    assert(s0.contains(y));
                    assert(r0.contains(y));
                    let i = choose|i: int| 0 <= i < r0.len() && r0[i] == y;
                    assert(r[i] == y);
                } else {
                    assert(r[r.len() - 1] == y);
                }
            }
            if y == x {
                assert(r0.contains(y));
                let i = choose|i: int| 0 <= i < r0.len() && r0[i] == y;
                assert(r[i] == y);
            }
        }
    }
}

/// The members of `ids`, put in their places one after the other.
spec fn members_in_place(ids: Seq<u64>) -> Seq<u64>
    decreases ids.len(),
{
    if ids.len() == 0 {
        Seq::empty()
    } else {
        with_member(members_in_place(ids.drop_last()), ids.last())
    }
}

proof fn lemma_members_in_place(ids: Seq<u64>)
    ensures
        is_ascending_order_of(members_in_place(ids), ids),
    decreases ids.len(),
{
    let r = members_in_place(ids);
    if ids.len() > 0 {
        let ids0 = ids.drop_last();
        lemma_members_in_place(ids0);
        lemma_with_member(members_in_place(ids0), ids.last());
        assert forall|y: u64| r.contains(y) <==> ids.contains(y) by {
            if ids0.contains(y) {
                let k = choose|k: int| 0 <= k < ids0.len() && ids0[k] == y;
                assert(ids[k] == y);
            }
            if y == ids.last() {
                assert(ids[ids.len() - 1] == y);
            }
            if ids.contains(y) {
                let k = choose|k: int| 0 <= k < ids.len() && ids[k] == y;
                if k < ids0.len() {
                    assert(ids0[k] == y);
                }
            }
        }
    }
}

proof fn lemma_with_member_len(s: Seq<u64>, x: u64)
    requires
        strictly_increasing(s),
        !s.contains(x),
    ensures
        with_member(s, x).len() == s.len() + 1,
    decreases s.len(),
{
    if s.len() > 0 {
        assert(s.contains(s.last())) by {
            assert(s[s.len() - 1] == s.last());
        }
        if s.last() > x {
            let s0 = s.drop_last();
            assert(!s0.contains(x)) by {
                if s0.contains(x) {
                    let i = choose|i: int| 0 <= i < s0.len() && s0[i] == x;
                    assert(s[i] == x);
                }
            }
            lemma_with_member_len(s0, x);
        }
    }
}

proof fn lemma_members_in_place_len(ids: Seq<u64>)
    requires
        pairwise_distinct(ids),
    ensures
        members_in_place(ids).len() == ids.len(),
    decreases ids.len(),
{
    if ids.len() > 0 {
        let ids0 = ids.drop_last();
        lemma_members_in_place_len(ids0);
        lemma_members_in_place(ids0);
        assert(!ids0.contains(ids.last())) by {
            if ids0.contains(ids.last()) {
                let i = choose|i: int| 0 <= i < ids0.len() && ids0[i] == ids.last();
                assert(ids[i] == ids[ids.len() - 1]);
            }
        }
        lemma_with_member_len(members_in_place(ids0), ids.last());
    }
}

/// The ascending order of distinct ids holds as many ids as were given.
pub proof fn lemma_ascending_len(ids: Seq<u64>)
    requires
        pairwise_distinct(ids),
    ensures
        ascending(ids).len() == ids.len(),
{
    lemma_members_in_place(ids);
    lemma_members_in_place_len(ids);
    lemma_ascending_is(members_in_place(ids), ids);
}

/// Every list of ids has an ascending order, and `ascending` is it.
pub proof fn lemma_ascending_exists(ids: Seq<u64>)
    ensures
        is_ascending_order_of(ascending(ids), ids),
{
    lemma_members_in_place(ids);
}

/// Some share of the list has the id `id` and the signature `signature`.
pub open spec fn has_share(
    sigs: Seq<BlsSignature>,
    ids: Seq<u64>,
    id: u64,
    signature: BlsSignature,
) -> bool {
    exists|j: int| 0 <= j < ids.len() && ids[j] == id && sigs[j] == signature
}

/// Every share of the first list is a share of the second.
pub open spec fn shares_within(
    sigs1: Seq<BlsSignature>,
    ids1: Seq<u64>,
    sigs2: Seq<BlsSignature>,
    ids2: Seq<u64>,
) -> bool {
    forall|i: int| 0 <= i < ids1.len() ==> has_share(sigs2, ids2, #[trigger] ids1[i], sigs1[i])
}

/// The result does not depend on the order of the shares: two valid lists
/// that hold the same shares, in whatever order, recover the same signature.
pub proof fn lemma_recovery_ignores_order(
    sigs1: Seq<BlsSignature>,
    ids1: Seq<u64>,
    sigs2: Seq<BlsSignature>,
    ids2: Seq<u64>,
)
    requires
        valid_shares(sigs1, ids1),
        valid_shares(sigs2, ids2),
        shares_within(sigs1, ids1, sigs2, ids2),
        shares_within(sigs2, ids2, sigs1, ids1),
    ensures
        recovered_signature(sigs1, ids1) == recovered_signature(sigs2, ids2),
{
    assert forall|x: u64| ids1.contains(x) <==> ids2.contains(x) by {
        if ids1.contains(x) {
            let i = choose|i: int| 0 <= i < ids1.len() && ids1[i] == x;
            assert(has_share(sigs2, ids2, ids1[i], sigs1[i]));
        }
        if ids2.contains(x) {
            let i = choose|i: int| 0 <= i < ids2.len() && ids2[i] == x;
            assert(has_share(sigs1, ids1, ids2[i], sigs2[i]));
        }
    }
    lemma_ascending_exists(ids1);
    let order = ascending(ids1);
    lemma_ascending_is(order, ids2);
    let points1 = order.map_values(|id: u64| share_of(sigs1, ids1, id));
    let points2 = order.map_values(|id: u64| share_of(sigs2, ids2, id));
    assert forall|r: int| 0 <= r < order.len() implies points1[r] == points2[r] by {
        let x = order[r];
        assert(order.contains(x));
        let i = ids1.index_of(x);
        assert(0 <= i < ids1.len() && ids1[i] == x);
        assert(has_share(sigs2, ids2, ids1[i], sigs1[i]));
        let j = choose|j: int| 0 <= j < ids2.len() && ids2[j] == ids1[i] && sigs2[j] == sigs1[i];
        let k = ids2.index_of(x);
        assert(0 <= k < ids2.len() && ids2[k] == x);
        assert(j == k);
    }
    assert(points1 =~= points2);
}

/// Whether none of the ids is zero.
fn ids_are_nonzero(ids: &[u64]) -> (nonzero: bool)
    ensures
        nonzero == all_nonzero(ids@),
{
    let mut j: usize = 0;
    while j < ids.len()
        invariant
            j <= ids@.len(),
            forall|b: int| 0 <= b < j ==> ids@[b] != 0,
        decreases ids@.len() - j,
    {
        if ids[j] == 0 {
            return false;
        }
        j += 1;
    }
    true
}

/// Some share among the first `k` handed in is `share`.
spec fn came_from(
    sigs: Seq<BlsSignature>,
    ids: Seq<u64>,
    k: int,
    share: PartialSignature,
) -> bool {
    exists|j: int| 0 <= j < k && ids[j] == share.participant_id && sigs[j] == share.signature
}

/// Some share of `shares` has the id `id`.
spec fn holds_id(shares: Seq<PartialSignature>, id: u64) -> bool {
    exists|r: int| 0 <= r < shares.len() && shares[r].participant_id == id
}

/// The shares in ascending order of their ids.
fn sorted_by_id(sigs: &[BlsSignature], ids: &[u64]) -> (sorted: Vec<PartialSignature>)
    requires
        sigs@.len() == ids@.len(),
        pairwise_distinct(ids@),
    ensures
        sorted@.len() == ids@.len(),
        strictly_increasing(ids_of(sorted@)),
        forall|r: int|
            0 <= r < sorted@.len() ==> came_from(
                sigs@,
                ids@,
                ids@.len() as int,
                #[trigger] sorted@[r],
            ),
        forall|j: int| 0 <= j < ids@.len() ==> holds_id(sorted@, #[trigger] ids@[j]),
{
    let mut sorted: Vec<PartialSignature> = Vec::new();
    let mut k: usize = 0;
    while k < ids.len()
        invariant
            sigs@.len() == ids@.len(),
            pairwise_distinct(ids@),
            k <= ids@.len(),
            sorted@.len() == k,
            strictly_increasing(ids_of(sorted@)),
            forall|r: int|
                0 <= r < sorted@.len() ==> came_from(sigs@, ids@, k as int, #[trigger] sorted@[r]),
            forall|j: int| 0 <= j < k ==> holds_id(sorted@, #[trigger] ids@[j]),
        decreases ids@.len() - k,
    {
        let id = ids[k];
        let mut p: usize = 0;
        while p < sorted.len() && sorted[p].participant_id < id
            invariant
                p <= sorted@.len(),
                forall|r: int| 0 <= r < p ==> sorted@[r].participant_id < id,
            decreases sorted@.len() - p,
        {
            p += 1;
        }
        let ghost before = sorted@;
        let share = PartialSignature { signature: sigs[k], participant_id: id };
        sorted.insert(p, share);
        proof {
            let after = sorted@;
            assert(after == before.insert(p as int, share));
            assert forall|r: int| p <= r < before.len() implies before[r].participant_id > id by {
                assert(came_from(sigs@, ids@, k as int, before[r]));
                assert(ids_of(before)[p as int] <= ids_of(before)[r]);
            }
            assert forall|a: int, b: int| 0 <= a < b < after.len() implies ids_of(after)[a]
                < ids_of(after)[b] by {
                let ia = if a < p { a } else { a - 1 };
                let ib = if b < p { b } else { b - 1 };
                if a != p && b != p {
                    assert(ids_of(before)[ia] < ids_of(before)[ib]);
                }
            }
            assert forall|r: int| 0 <= r < after.len() implies came_from(
                sigs@,
                ids@,
                k + 1,
                #[trigger] after[r],
            ) by {
                if r == p {
                    assert(ids@[k as int] == share.participant_id && sigs@[k as int]
                        == share.signature);
                } else {
                    let ir = if r < p { r } else { r - 1 };
                    assert(came_from(sigs@, ids@, k as int, before[ir]));
                }
            }
            assert forall|j: int| 0 <= j < k + 1 implies holds_id(after, #[trigger] ids@[j]) by {
                if j == k {
                    assert(after[p as int].participant_id == ids@[j]);
                } else {
                    assert(holds_id(before, ids@[j]));
                    let r = choose|r: int|
                        0 <= r < before.len() && before[r].participant_id == ids@[j];
                    let nr = if r < p { r } else { r + 1 };
                    assert(after[nr].participant_id == ids@[j]);
                }
            }
        }
        k += 1;
    }
    sorted
}

/// Once a prefix of the sum has failed, the whole sum has.
proof fn lemma_failure_spreads(points: Seq<Seq<u8>>, weights: Seq<nat>, m: int, n: int)
    requires
        1 <= m <= n,
        weighted_sum(points, weights, m) is None,
    ensures
        weighted_sum(points, weights, n) is None,
    decreases n - m,
{
    if m < n {
        lemma_failure_spreads(points, weights, m + 1, n);
    }
}

/// The ids of sorted shares are the ascending order of the ids handed in,
/// and each share still carries the signature that came with its id.
proof fn lemma_sorted_shares(
    sigs: Seq<BlsSignature>,
    ids: Seq<u64>,
    shares: Seq<PartialSignature>,
)
    requires
        sigs.len() == ids.len(),
        pairwise_distinct(ids),
        shares.len() == ids.len(),
        strictly_increasing(ids_of(shares)),
        forall|r: int|
            0 <= r < shares.len() ==> came_from(sigs, ids, ids.len() as int, #[trigger] shares[r]),
        forall|j: int| 0 <= j < ids.len() ==> holds_id(shares, #[trigger] ids[j]),
    ensures
        ascending(ids) == ids_of(shares),
        forall|r: int|
            0 <= r < shares.len() ==> share_of(sigs, ids, #[trigger] ids_of(shares)[r])
                == shares[r].signature@,
{
    let order = ids_of(shares);
    assert forall|x: u64| order.contains(x) <==> ids.contains(x) by {
        if order.contains(x) {
            let r = choose|r: int| 0 <= r < order.len() && order[r] == x;
            assert(came_from(sigs, ids, ids.len() as int, shares[r]));
            let j = choose|j: int|
                0 <= j < ids.len() && ids[j] == shares[r].participant_id && sigs[j]
                    == shares[r].signature;
            assert(ids[j] == x);
        }
        if ids.contains(x) {
            let j = choose|j: int| 0 <= j < ids.len() && ids[j] == x;
            assert(holds_id(shares, ids[j]));
            let r = choose|r: int| 0 <= r < shares.len() && shares[r].participant_id == x;
            assert(order[r] == x);
        }
    }
    lemma_ascending_is(order, ids);
    assert forall|r: int| 0 <= r < shares.len() implies share_of(sigs, ids, #[trigger] order[r])
        == shares[r].signature@ by {
        assert(came_from(sigs, ids, ids.len() as int, shares[r]));
        let j = choose|j: int|
            0 <= j < ids.len() && ids[j] == shares[r].participant_id && sigs[j]
                == shares[r].signature;
        assert(ids.contains(order[r]));
        let i = ids.index_of(order[r]);
        assert(0 <= i < ids.len() && ids[i] == order[r]);
        assert(i == j);
    }
}

/// Recover the composite signature from the partial signatures `sigs`, of
/// which `sigs[i]` was made by the signer with the id `ids[i]`.
///
/// Fails where the two lists differ in length or are empty, where an id is
/// zero or occurs twice, and where a signature is not a point of the group.
/// The partial signatures themselves are not verified: a wrong one spoils
/// the result, which is to be verified against the composite public key.
///
/// The weights with which valid shares are combined reconstruct the constant
/// term of every polynomial that as many points determine: the secret, if
/// the shares are honest.
pub fn recover_signature_from_shards(sigs: &[BlsSignature], ids: &[u64]) -> (recovered: Option<
    BlsSignature,
>)
    ensures
        recovered is Some <==> recovered_signature(sigs@, ids@) is Some,
        recovered is Some ==> recovered_signature(sigs@, ids@) == Some(recovered->Some_0@),
        !valid_shares(sigs@, ids@) ==> recovered is None,
        valid_shares(sigs@, ids@) ==> reconstructs_constant_term(ascending(ids@)),
{
    if sigs.len() != ids.len() || ids.len() == 0 {
        return None;
    }
    if !ids_are_nonzero(ids) || !ids_are_distinct(ids) {
        return None;
    }
    let shares = sorted_by_id(sigs, ids);
    let n = shares.len();
    let mut order: Vec<u64> = Vec::new();
    let mut r: usize = 0;
    while r < n
        invariant
            n == shares@.len(),
            r <= n,
            order@ == ids_of(shares@).take(r as int),
        decreases n - r,
    {
        order.push(shares[r].participant_id);
        proof {
            assert(order@ =~= ids_of(shares@).take(r + 1));
        }
        r += 1;
    }
    let ghost points = order@.map_values(|id: u64| share_of(sigs@, ids@, id));
    let ghost weights = lagrange_weights(order@);
    proof {
        assert(order@ =~= ids_of(shares@));
        lemma_sorted_shares(sigs@, ids@, shares@);
        assert(pairwise_distinct(order@));
        assert(recovered_signature(sigs@, ids@) == weighted_sum(points, weights, n as int));
        assert forall|r: int| 0 <= r < n implies #[trigger] points[r] == shares@[r].signature@ by {
            assert(points[r] == share_of(sigs@, ids@, ids_of(shares@)[r]));
        }
    }
    let scalars = weights_of_distinct_points(order.as_slice());
    proof {
        assert forall|r: int| 0 <= r < n implies #[trigger] weights[r] == scalars@[r]@ by {
            assert(scalars@.map_values(|w: Scalar| w@)[r] == scalars@[r]@);
        }
    }
    let mut sum = match scale_signature(&shares[0].signature, &scalars[0]) {
        Some(scaled) => scaled,
        None => {
            proof {
                lemma_failure_spreads(points, weights, 1, n as int);
            }
            return None;
        },
    };
    let mut r: usize = 1;
    while r < n
        invariant
            n == shares@.len(),
            n == order@.len(),
            1 <= r <= n,
            scalars@.len() == n,
            weights.len() == n,
            reconstructs_constant_term(ascending(ids@)),
            forall|r: int| 0 <= r < n ==> (#[trigger] scalars@[r]).is_reduced(),
            forall|r: int| 0 <= r < n ==> #[trigger] weights[r] == scalars@[r]@,
            points.len() == n,
            forall|r: int| 0 <= r < n ==> #[trigger] points[r] == shares@[r].signature@,
            weighted_sum(points, weights, r as int) == Some(sum@),
            recovered_signature(sigs@, ids@) == weighted_sum(points, weights, n as int),
        decreases n - r,
    {
        let term = match scale_signature(&shares[r].signature, &scalars[r]) {
            Some(scaled) => scaled,
            None => {
                proof {
                    lemma_failure_spreads(points, weights, r + 1, n as int);
                }
                return None;
            },
        };
        sum = match add_signatures(&sum, &term) {
            Some(added) => added,
            None => {
                proof {
                    lemma_failure_spreads(points, weights, r + 1, n as int);
                }
                return None;
            },
        };
        r += 1;
    }
    Some(sum)
}

} // verus!
