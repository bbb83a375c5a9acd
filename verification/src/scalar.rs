//! The scalar field of BLS12-381: the integers modulo the order of the
//! curve's prime-order subgroups. Share identifiers and interpolation
//! weights live here.

use vstd::prelude::*;
use vstd::arithmetic::div_mod::{
    lemma_mod_add_multiples_vanish, lemma_mod_bound, lemma_mul_mod_noop_right, lemma_small_mod,
};

verus! {

/// The order of the scalar field.
pub open spec fn modulus() -> nat {
    0x73eda753299d7d483339d80809a1d80553bda402fffe5bfeffffffff00000001nat
}

/// The number that `bytes` spell in base 256, least significant byte first.
pub open spec fn le_value(bytes: Seq<u8>) -> nat
    decreases bytes.len(),
{
    if bytes.len() == 0 {
        0
    } else {
        bytes[0] as nat + 256 * le_value(bytes.drop_first())
    }
}

/// The product of two residues.
pub open spec fn field_mul(a: nat, b: nat) -> nat {
    (a * b) % modulus()
}

/// The difference of two residues.
pub open spec fn field_sub(a: nat, b: nat) -> nat {
    ((a as int - b as int) % (modulus() as int)) as nat
}

/// `b` is a reduced residue whose product with `a` is one.
pub open spec fn is_inverse_of(b: nat, a: nat) -> bool {
    b < modulus() && (a * b) % modulus() == 1
}

/// Some residue inverts `a`.
pub open spec fn has_inverse(a: nat) -> bool {
    exists|b: nat| is_inverse_of(b, a)
}

/// The inverse of `a`, where it has one.
pub open spec fn field_inverse(a: nat) -> nat {
    choose|b: nat| is_inverse_of(b, a)
}

/// A residue has at most one inverse.
pub proof fn lemma_inverse_unique(a: nat, b1: nat, b2: nat)
    requires
        is_inverse_of(b1, a),
        is_inverse_of(b2, a),
    ensures
        b1 == b2,
{
    let m = modulus() as int;
    let (a, x, y) = (a as int, b1 as int, b2 as int);
    // x = x * (a * y) = (x * a) * y = y, all modulo m
    assert((x * ((a * y) % m)) % m == (x * (a * y)) % m) by {
        lemma_mul_mod_noop_right(x, a * y, m);
    }
    assert((y * ((a * x) % m)) % m == (y * (a * x)) % m) by {
        lemma_mul_mod_noop_right(y, a * x, m);
    }
    assert(x * (a * y) == y * (a * x)) by (nonlinear_arith);
    assert(x * 1 == x && y * 1 == y);
    lemma_small_mod(b1, modulus());
    lemma_small_mod(b2, modulus());
}

/// The inverse that was found is the inverse.
pub proof fn lemma_inverse_found(a: nat, b: nat)
    requires
        is_inverse_of(b, a),
    ensures
        has_inverse(a),
        field_inverse(a) == b,
{
    lemma_inverse_unique(a, b, field_inverse(a));
}

/// Two distinct 64-bit numbers differ as residues too.
pub proof fn lemma_distinct_ids_differ(x: u64, y: u64)
    requires
        x != y,
    ensures
        0 < field_sub(x as nat, y as nat) < modulus(),
{
    let m = modulus() as int;
    let d = x as int - y as int;
    lemma_mod_bound(d, m);
    if d > 0 {
        lemma_small_mod(d as nat, modulus());
    } else {
        lemma_mod_add_multiples_vanish(d, m);
        lemma_small_mod((d + m) as nat, modulus());
    }
}

/// A residue, held as the 32 bytes that spell it, least significant first:
/// the form in which `bls12_381::Scalar::to_bytes` gives a scalar out and
/// `Scalar::from_bytes` takes one in.
#[derive(Clone, Copy, Debug, PartialEq, Eq)]
pub struct Scalar {
    pub bytes: [u8; 32],
}

impl View for Scalar {
    type V = nat;

    open spec fn view(&self) -> nat {
        le_value(self.bytes@)
    }
}

impl Scalar {
    /// The bytes spell a number below the modulus.
    pub open spec fn is_reduced(&self) -> bool {
        self@ < modulus()
    }
}

/// The value of bytes that are zero is zero.
proof fn lemma_le_value_of_zeros(bytes: Seq<u8>)
    requires
        forall|i: int| 0 <= i < bytes.len() ==> bytes[i] == 0,
    ensures
        le_value(bytes) == 0,
    decreases bytes.len(),
{
    if bytes.len() > 0 {
        lemma_le_value_of_zeros(bytes.drop_first());
    }
}

/// The scalar that stands for a 64-bit number.
pub fn scalar_from_u64(x: u64) -> (r: Scalar)
    ensures
        r.is_reduced(),
        r@ == x as nat,
{
    let b0: u8 = (x & 0xff) as u8;
    let b1: u8 = ((x >> 8) & 0xff) as u8;
    let b2: u8 = ((x >> 16) & 0xff) as u8;
    let b3: u8 = ((x >> 24) & 0xff) as u8;
    let b4: u8 = ((x >> 32) & 0xff) as u8;
    let b5: u8 = ((x >> 40) & 0xff) as u8;
    let b6: u8 = ((x >> 48) & 0xff) as u8;
    let b7: u8 = ((x >> 56) & 0xff) as u8;
    let bytes: [u8; 32] = [
        b0, b1, b2, b3, b4, b5, b6, b7, 0, 0, 0, 0, 0, 0, 0, 0, 0, 0, 0, 0, 0, 0, 0, 0, 0, 0, 0,
        0, 0, 0, 0, 0,
    ];
    proof {
        let s = bytes@;
        let s1 = s.drop_first();
        let s2 = s1.drop_first();
        let s3 = s2.drop_first();
        let s4 = s3.drop_first();
        let s5 = s4.drop_first();
        let s6 = s5.drop_first();
        let s7 = s6.drop_first();
        let s8 = s7.drop_first();
        lemma_le_value_of_zeros(s8);
        assert(le_value(s7) == b7);
        assert(le_value(s6) == b6 + 256 * le_value(s7));
        assert(le_value(s5) == b5 + 256 * le_value(s6));
        assert(le_value(s4) == b4 + 256 * le_value(s5));
        assert(le_value(s3) == b3 + 256 * le_value(s4));
        assert(le_value(s2) == b2 + 256 * le_value(s3));
        assert(le_value(s1) == b1 + 256 * le_value(s2));
        assert(le_value(s) == b0 + 256 * le_value(s1));
        assert(x == b0 + 256 * (b1 + 256 * (b2 + 256 * (b3 + 256 * (b4 + 256 * (b5 + 256 * (b6
            + 256 * b7))))))) by (bit_vector)
            requires
                b0 == (x & 0xff) as u8,
                b1 == ((x >> 8) & 0xff) as u8,
                b2 == ((x >> 16) & 0xff) as u8,
                b3 == ((x >> 24) & 0xff) as u8,
                b4 == ((x >> 32) & 0xff) as u8,
                b5 == ((x >> 40) & 0xff) as u8,
                b6 == ((x >> 48) & 0xff) as u8,
                b7 == ((x >> 56) & 0xff) as u8,
        ;
    }
    Scalar { bytes }
}

/// Calls the subtraction of `bls12_381::Scalar` (`-`), on the scalars that
/// `Scalar::from_bytes` reads, and spells the result with `Scalar::to_bytes`.
/// Trusted: it is subtraction modulo the field's order.
#[verifier::external_body]
pub(crate) fn scalar_sub(a: &Scalar, b: &Scalar) -> (r: Scalar)
    requires
        a.is_reduced(),
        b.is_reduced(),
    ensures
        r.is_reduced(),
        r@ == field_sub(a@, b@),
{
    let x = bls12_381::Scalar::from_bytes(&a.bytes).unwrap();
    let y = bls12_381::Scalar::from_bytes(&b.bytes).unwrap();
    Scalar { bytes: (x - y).to_bytes() }
}

/// Calls the multiplication of `bls12_381::Scalar` (`*`), on the scalars
/// that `Scalar::from_bytes` reads, and spells the result with
/// `Scalar::to_bytes`. Trusted: it is multiplication modulo the field's order.
#[verifier::external_body]
pub(crate) fn scalar_mul(a: &Scalar, b: &Scalar) -> (r: Scalar)
    requires
        a.is_reduced(),
        b.is_reduced(),
    ensures
        r.is_reduced(),
        r@ == field_mul(a@, b@),
{
    let x = bls12_381::Scalar::from_bytes(&a.bytes).unwrap();
    let y = bls12_381::Scalar::from_bytes(&b.bytes).unwrap();
    Scalar { bytes: (x * y).to_bytes() }
}

/// Calls `bls12_381::Scalar::invert`, on the scalar that `Scalar::from_bytes`
/// reads, and spells the result with `Scalar::to_bytes`. Trusted: it fails on
/// zero alone, and what it returns otherwise multiplies with the argument to
/// one.
#[verifier::external_body]
pub(crate) fn scalar_invert(a: &Scalar) -> (r: Option<Scalar>)
    requires
        a.is_reduced(),
    ensures
        r is Some <==> a@ != 0,
        r is Some ==> r->Some_0.is_reduced() && is_inverse_of(r->Some_0@, a@),
{
    let x = bls12_381::Scalar::from_bytes(&a.bytes).unwrap();
    Option::from(x.invert()).map(|inverse: bls12_381::Scalar| Scalar { bytes: inverse.to_bytes() })
}

} // verus!
