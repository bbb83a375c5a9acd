//! BLS12-381 values as the library carries them: a public key and a signature
//! are the compressed encoding of a curve point.

use vstd::prelude::*;
use crate::scalar::Scalar;

verus! {

/// `blst::BLST_ERROR`, the reason for which blst refuses an input. The
/// library reads nothing of it.
#[verifier::external_type_specification]
#[verifier::external_body]
pub struct ExBlstError(blst::BLST_ERROR);

/// The compressed encoding of the public key that `encoding` decodes to, or
/// `None` where `encoding` is not the serialisation of a point of the first
/// group that lies in the prime-order subgroup and is not the point at infinity.
pub uninterp spec fn public_key_point(encoding: Seq<u8>) -> Option<Seq<u8>>;

/// Calls `blst::min_pk::PublicKey::key_validate` and compresses the key it
/// returns with `PublicKey::to_bytes`. Trusted: the call succeeds exactly on the
/// encodings that `public_key_point` accepts, and the bytes handed back are
/// the point that it names.
#[verifier::external_body]
fn validate_public_key(encoding: &[u8]) -> (decoded: Result<[u8; 48], blst::BLST_ERROR>)
    ensures
        decoded is Ok <==> public_key_point(encoding@) is Some,
        decoded is Ok ==> public_key_point(encoding@) == Some(decoded->Ok_0@),
{
    blst::min_pk::PublicKey::key_validate(encoding).map(|key| key.to_bytes())
}

/// A validated public key, held as its compressed encoding.
#[derive(Clone, Copy, Debug, PartialEq, Eq)]
pub struct BlsPublicKey {
    bytes: [u8; 48],
}

impl View for BlsPublicKey {
    type V = Seq<u8>;

    closed spec fn view(&self) -> Seq<u8> {
        self.bytes@
    }
}

/// The reason a byte string was refused as a public key.
#[derive(Clone, Copy, Debug, PartialEq, Eq)]
pub struct InvalidPublicKey;

impl BlsPublicKey {
    /// The key is the point of some accepted encoding. This holds of every
    /// key.
    #[verifier::type_invariant]
    pub open spec fn is_valid(&self) -> bool {
        exists|encoding: Seq<u8>| #[trigger] public_key_point(encoding) == Some(self@)
    }

    /// Parses a public key, accepting exactly the encodings of valid points.
    pub fn from_bytes(encoding: &[u8]) -> (parsed: Result<BlsPublicKey, InvalidPublicKey>)
        ensures
            parsed is Ok <==> public_key_point(encoding@) is Some,
            parsed is Ok ==> public_key_point(encoding@) == Some(parsed->Ok_0@),
            parsed is Ok ==> parsed->Ok_0.is_valid(),
    {
        match validate_public_key(encoding) {
            Ok(bytes) => Ok(BlsPublicKey { bytes }),
            Err(_) => Err(InvalidPublicKey),
        }
    }

    /// The compressed encoding of the key.
    pub fn to_bytes(&self) -> (bytes: [u8; 48])
        ensures
            bytes@ == self@,
            self.is_valid(),
    {
        proof {
            use_type_invariant(self);
        }
        self.bytes
    }
}

/// A signature as a participant returned it: the compressed encoding of a
/// point of the second group. Nothing is checked of it until it is combined.
#[derive(Clone, Copy, Debug, PartialEq, Eq)]
pub struct BlsSignature {
    pub bytes: [u8; 96],
}

impl View for BlsSignature {
    type V = Seq<u8>;

    open spec fn view(&self) -> Seq<u8> {
        self.bytes@
    }
}

/// The compressed encoding of `k` times the point that `point` encodes, or
/// `None` where `point` is not the compressed encoding of a point of the
/// second group's prime-order subgroup.
pub uninterp spec fn g2_scaled(point: Seq<u8>, k: nat) -> Option<Seq<u8>>;

/// The compressed encoding of the sum of the points that `a` and `b` encode,
/// or `None` where either is not the compressed encoding of a point of the
/// second group's prime-order subgroup.
pub uninterp spec fn g2_sum(a: Seq<u8>, b: Seq<u8>) -> Option<Seq<u8>>;

/// Decodes the point with `bls12_381::G2Affine::from_compressed`, multiplies it
/// by the scalar (`*` of `G2Affine` and `bls12_381::Scalar`) and compresses
/// the product with `G2Affine::to_compressed`. Trusted: the result is the one
/// that `g2_scaled` names.
#[verifier::external_body]
pub(crate) fn scale_signature(point: &BlsSignature, k: &Scalar) -> (scaled: Option<
    BlsSignature,
>)
    requires
        k.is_reduced(),
    ensures
        scaled is Some <==> g2_scaled(point@, k@) is Some,
        scaled is Some ==> g2_scaled(point@, k@) == Some(scaled->Some_0@),
{
    let decoded = bls12_381::G2Affine::from_compressed(&point.bytes);
    let point = Option::<bls12_381::G2Affine>::from(decoded)?;
    let scalar = bls12_381::Scalar::from_bytes(&k.bytes).unwrap();
    Some(BlsSignature { bytes: bls12_381::G2Affine::from(point * scalar).to_compressed() })
}

/// Decodes both points with `bls12_381::G2Affine::from_compressed`, adds them
/// (`+` of `G2Projective` and `G2Affine`) and compresses the sum with
/// `G2Affine::to_compressed`. Trusted: the result is the one that `g2_sum`
/// names.
#[verifier::external_body]
pub(crate) fn add_signatures(a: &BlsSignature, b: &BlsSignature) -> (sum: Option<BlsSignature>)
    ensures
        sum is Some <==> g2_sum(a@, b@) is Some,
        sum is Some ==> g2_sum(a@, b@) == Some(sum->Some_0@),
{
    let p = Option::<bls12_381::G2Affine>::from(bls12_381::G2Affine::from_compressed(&a.bytes))?;
    let q = Option::<bls12_381::G2Affine>::from(bls12_381::G2Affine::from_compressed(&b.bytes))?;
    let sum = bls12_381::G2Projective::from(p) + q;
    Some(BlsSignature { bytes: bls12_381::G2Affine::from(sum).to_compressed() })
}

} // verus!
