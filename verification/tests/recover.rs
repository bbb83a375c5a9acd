use blst::min_pk::{PublicKey, SecretKey, Signature};
use blst::BLST_ERROR;
use bolt_dirk::bls::BlsSignature;
use bolt_dirk::lagrange::lagrange_weights_at_zero;
use bolt_dirk::recover_signature::recover_signature_from_shards;
use bolt_dirk::scalar::scalar_from_u64;

const DST: &[u8] = b"BLS_SIG_BLS12381G2_XMD:SHA-256_SSWU_RO_POP_";
const MESSAGE: &[u8] = b"a message that every participant signs";

fn secret_key(value: u64) -> SecretKey {
    let mut bytes = [0u8; 32];
    bytes[24..].copy_from_slice(&value.to_be_bytes());
    SecretKey::from_bytes(&bytes).unwrap()
}

fn sign(secret: u64, message: &[u8]) -> BlsSignature {
    BlsSignature { bytes: secret_key(secret).sign(message, DST, &[]).to_bytes() }
}

/// The share of the signer `id` for the sharing polynomial 5 + 7x.
fn linear_share(id: u64) -> u64 {
    5 + 7 * id
}

/// The share of the signer `id` for the sharing polynomial 5 + 7x + 11x^2.
fn quadratic_share(id: u64) -> u64 {
    5 + 7 * id + 11 * id * id
}

fn verifies(signature: &BlsSignature, message: &[u8], key: &PublicKey) -> bool {
    let decoded = Signature::from_bytes(&signature.bytes).unwrap();
    decoded.verify(true, message, DST, &[], key, true) == BLST_ERROR::BLST_SUCCESS
}

fn scalar_bytes(value: u64) -> [u8; 32] {
    let mut bytes = [0u8; 32];
    bytes[..8].copy_from_slice(&value.to_le_bytes());
    bytes
}

/// The field's order less `value`, least significant byte first.
fn negated_scalar_bytes(value: u8) -> [u8; 32] {
    let mut bytes: [u8; 32] = [
        0x01, 0x00, 0x00, 0x00, 0xff, 0xff, 0xff, 0xff, 0xfe, 0x5b, 0xfe, 0xff, 0x02, 0xa4, 0xbd,
        0x53, 0x05, 0xd8, 0xa1, 0x09, 0x08, 0xd8, 0x39, 0x33, 0x48, 0x7d, 0x9d, 0x29, 0x53, 0xa7,
        0xed, 0x73,
    ];
    // The lowest four bytes are 01 00 00 00: borrow from the fifth.
    assert!(value >= 1);
    bytes[0] = 0u8.wrapping_sub(value - 1);
    if value > 1 {
        bytes[1] = 0xff;
        bytes[2] = 0xff;
        bytes[3] = 0xff;
        bytes[4] = 0xfe;
    } else {
        bytes[0] = 0;
    }
    bytes
}

fn weights(ids: &[u64]) -> Vec<[u8; 32]> {
    lagrange_weights_at_zero(ids).unwrap().iter().map(|weight| weight.bytes).collect()
}

#[test]
fn scalar_of_a_number_is_the_one_of_the_curve_library() {
    for value in [0u64, 1, 255, 256, 0x0123_4567_89ab_cdef, u64::MAX] {
        assert_eq!(scalar_from_u64(value).bytes, bls12_381::Scalar::from(value).to_bytes());
        assert_eq!(scalar_from_u64(value).bytes, scalar_bytes(value));
    }
}

#[test]
fn weights_of_two_points() {
    // 2/(2-1) = 2 and 1/(1-2) = -1
    assert_eq!(weights(&[1, 2]), vec![scalar_bytes(2), negated_scalar_bytes(1)]);
}

#[test]
fn weights_of_three_points() {
    assert_eq!(
        weights(&[1, 2, 3]),
        vec![scalar_bytes(3), negated_scalar_bytes(3), scalar_bytes(1)]
    );
}

#[test]
fn weight_of_a_single_point_is_one() {
    assert_eq!(weights(&[9]), vec![scalar_bytes(1)]);
    assert_eq!(weights(&[0]), vec![scalar_bytes(1)]);
}

#[test]
fn weights_of_no_points() {
    assert_eq!(weights(&[]), Vec::<[u8; 32]>::new());
}

#[test]
fn weights_go_by_the_points_not_their_order() {
    assert_eq!(weights(&[3, 1, 2]), vec![scalar_bytes(1), scalar_bytes(3), negated_scalar_bytes(3)]);
}

#[test]
fn weights_of_equal_points_do_not_exist() {
    assert!(lagrange_weights_at_zero(&[2, 2]).is_none());
    assert!(lagrange_weights_at_zero(&[1, 2, 3, 1]).is_none());
    assert!(lagrange_weights_at_zero(&[0, 0]).is_none());
}

#[test]
fn weights_sum_to_one_on_large_ids() {
    // For the points m = u64::MAX and 1 the weights are 1/(1 - m) and
    // m/(m - 1): neither is a small number, and together they make one.
    let found = weights(&[u64::MAX, 1]);
    let first = bls12_381::Scalar::from_bytes(&found[0]).unwrap();
    let second = bls12_381::Scalar::from_bytes(&found[1]).unwrap();
    assert_eq!(first + second, bls12_381::Scalar::one());
    let m = bls12_381::Scalar::from(u64::MAX);
    assert_eq!(second * (m - bls12_381::Scalar::one()), m);
}

#[test]
fn weights_reconstruct_the_constant_term() {
    // 5 + 7x + 11x^2 at the points 4, 9 and 2, weighted, gives 5.
    let ids: [u64; 3] = [4, 9, 2];
    let found = weights(&ids);
    let mut sum = bls12_381::Scalar::zero();
    for (id, weight) in ids.iter().zip(found.iter()) {
        let weight = bls12_381::Scalar::from_bytes(weight).unwrap();
        sum += weight * bls12_381::Scalar::from(quadratic_share(*id));
    }
    assert_eq!(sum, bls12_381::Scalar::from(5));
}

#[test]
fn two_shares_recover_the_composite_signature() {
    let shares = [sign(linear_share(1), MESSAGE), sign(linear_share(2), MESSAGE)];
    let recovered = recover_signature_from_shards(&shares, &[1, 2]).unwrap();
    assert_eq!(recovered, sign(5, MESSAGE));
}

#[test]
fn recovered_signature_verifies_against_the_composite_key() {
    let key = secret_key(5).sk_to_pk();
    let shares = [sign(linear_share(2), MESSAGE), sign(linear_share(3), MESSAGE)];
    let recovered = recover_signature_from_shards(&shares, &[2, 3]).unwrap();
    assert!(verifies(&recovered, MESSAGE, &key));
    assert!(!verifies(&recovered, b"another message", &key));
    assert!(!verifies(&recovered, MESSAGE, &secret_key(6).sk_to_pk()));
}

#[test]
fn order_of_the_shares_does_not_matter() {
    let sig_b = sign(linear_share(2), MESSAGE);
    let sig_c = sign(linear_share(3), MESSAGE);
    let one_way = recover_signature_from_shards(&[sig_b, sig_c], &[2, 3]);
    let other_way = recover_signature_from_shards(&[sig_c, sig_b], &[3, 2]);
    assert!(one_way.is_some());
    assert_eq!(one_way, other_way);
}

#[test]
fn every_quorum_recovers_the_same_signature() {
    let expected = sign(5, MESSAGE);
    let ids: [u64; 4] = [1, 2, 3, 4];
    for a in 0..4 {
        for b in 0..4 {
            for c in 0..4 {
                if a == b || b == c || a == c {
                    continue;
                }
                let chosen = [ids[a], ids[b], ids[c]];
                let shares: Vec<BlsSignature> =
                    chosen.iter().map(|id| sign(quadratic_share(*id), MESSAGE)).collect();
                assert_eq!(recover_signature_from_shards(&shares, &chosen), Some(expected));
            }
        }
    }
}

#[test]
fn more_shares_than_the_threshold_still_recover() {
    let ids: [u64; 3] = [4, 9, 2];
    let shares: Vec<BlsSignature> = ids.iter().map(|id| sign(linear_share(*id), MESSAGE)).collect();
    assert_eq!(recover_signature_from_shards(&shares, &ids), Some(sign(5, MESSAGE)));
}

#[test]
fn unsorted_ids_far_apart_recover() {
    let ids: [u64; 3] = [1_000_000_007, 5, 42];
    let shares: Vec<BlsSignature> =
        ids.iter().map(|id| sign(quadratic_share(*id), MESSAGE)).collect();
    let recovered = recover_signature_from_shards(&shares, &ids).unwrap();
    assert_eq!(recovered, sign(5, MESSAGE));
    assert!(verifies(&recovered, MESSAGE, &secret_key(5).sk_to_pk()));
}

#[test]
fn a_single_share_is_returned_as_it_is() {
    let share = sign(17, MESSAGE);
    assert_eq!(recover_signature_from_shards(&[share], &[3]), Some(share));
}

#[test]
fn large_ids_recover_too() {
    // The polynomial 5 + 7x at u64::MAX and u64::MAX - 1 does not fit in 64
    // bits; the constant polynomial 5 does, and any two points recover it.
    let ids = [u64::MAX, u64::MAX - 1];
    let shares = [sign(5, MESSAGE), sign(5, MESSAGE)];
    assert_eq!(recover_signature_from_shards(&shares, &ids), Some(sign(5, MESSAGE)));
}

#[test]
fn duplicate_ids_are_rejected() {
    let shares = [sign(linear_share(2), MESSAGE), sign(linear_share(2), MESSAGE)];
    assert_eq!(recover_signature_from_shards(&shares, &[2, 2]), None);
    let three = [
        sign(linear_share(1), MESSAGE),
        sign(linear_share(2), MESSAGE),
        sign(linear_share(1), MESSAGE),
    ];
    assert_eq!(recover_signature_from_shards(&three, &[1, 2, 1]), None);
}

#[test]
fn zero_id_is_rejected() {
    let shares = [sign(5, MESSAGE), sign(linear_share(1), MESSAGE)];
    assert_eq!(recover_signature_from_shards(&shares, &[0, 1]), None);
    assert_eq!(recover_signature_from_shards(&shares[..1], &[0]), None);
}

#[test]
fn no_shares_are_rejected() {
    assert_eq!(recover_signature_from_shards(&[], &[]), None);
}

#[test]
fn mismatched_lengths_are_rejected() {
    let shares = [sign(linear_share(1), MESSAGE), sign(linear_share(2), MESSAGE)];
    assert_eq!(recover_signature_from_shards(&shares, &[1]), None);
    assert_eq!(recover_signature_from_shards(&shares[..1], &[1, 2]), None);
    assert_eq!(recover_signature_from_shards(&shares, &[]), None);
}

#[test]
fn bytes_that_are_no_point_are_rejected() {
    let bad = BlsSignature { bytes: [0x11; 96] };
    let good = sign(linear_share(1), MESSAGE);
    assert_eq!(recover_signature_from_shards(&[bad], &[1]), None);
    assert_eq!(recover_signature_from_shards(&[good, bad], &[1, 2]), None);
    assert_eq!(recover_signature_from_shards(&[bad, good], &[2, 1]), None);
}

#[test]
fn a_wrong_share_spoils_the_result() {
    let key = secret_key(5).sk_to_pk();
    let shares = [sign(linear_share(1), MESSAGE), sign(linear_share(2) + 1, MESSAGE)];
    let recovered = recover_signature_from_shards(&shares, &[1, 2]).unwrap();
    assert!(!verifies(&recovered, MESSAGE, &key));
}
