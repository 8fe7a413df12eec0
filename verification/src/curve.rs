//! Points of the BLS12-381 groups G1 and G2, and the pairing.
//!
//! A point is held as its uncompressed affine encoding. The group law,
//! scalar multiplication, compression and the pairing are done by
//! `ark_bls12_381`; the contracts name their results and, for multiples
//! `[x]_1 = x G1` and `[y]_2 = y G2` of the generators, say which multiple
//! comes out, and when the pairing check holds.

use vstd::prelude::*;
use crate::field::{Scalar, fadd, field_dot, fmul, fneg, modulus, vals};
use ark_bls12_381::{Bls12_381, G1Affine, G1Projective, G2Affine, G2Projective};
use ark_ec::pairing::Pairing;
use ark_ec::{AffineRepr, CurveGroup, PrimeGroup, VariableBaseMSM};
use ark_ff::{BigInt, One, Zero};
use ark_serialize::{CanonicalDeserialize, CanonicalSerialize};

verus! {

/// A point of G1, as its 96-byte uncompressed affine encoding.
#[derive(Clone, Copy, Debug, PartialEq, Eq, Hash)]
pub struct G1 {
    pub(crate) bytes: [u8; 96],
}

/// A point of G2, as its 192-byte uncompressed affine encoding.
#[derive(Clone, Copy, Debug, PartialEq, Eq, Hash)]
pub struct G2 {
    pub(crate) bytes: [u8; 192],
}

impl View for G1 {
    type V = Seq<u8>;

    closed spec fn view(&self) -> Seq<u8> {
        self.bytes@
    }
}

impl View for G2 {
    type V = Seq<u8>;

    closed spec fn view(&self) -> Seq<u8> {
        self.bytes@
    }
}

pub open spec fn g1_views(s: Seq<G1>) -> Seq<Seq<u8>> {
    s.map_values(|p: G1| p@)
}

/// `a + b` in G1.
pub uninterp spec fn spec_g1_add(a: Seq<u8>, b: Seq<u8>) -> Seq<u8>;

/// `-a` in G1.
pub uninterp spec fn spec_g1_neg(a: Seq<u8>) -> Seq<u8>;

/// `a * k` in G1.
pub uninterp spec fn spec_g1_mul(a: Seq<u8>, k: nat) -> Seq<u8>;

/// `sum_i scalars[i] * bases[i]` over the shorter of the two.
pub uninterp spec fn spec_g1_msm(bases: Seq<Seq<u8>>, scalars: Seq<nat>) -> Seq<u8>;

/// The standard generator of G1 times `k`.
pub uninterp spec fn spec_g1_gen_mul(k: nat) -> Seq<u8>;

/// The standard generator of G2 times `k`.
pub uninterp spec fn spec_g2_gen_mul(k: nat) -> Seq<u8>;

/// The 48-byte compressed encoding of a G1 point.
pub uninterp spec fn spec_g1_compress(a: Seq<u8>) -> Seq<u8>;

/// The 96-byte compressed encoding of a G2 point.
pub uninterp spec fn spec_g2_compress(a: Seq<u8>) -> Seq<u8>;

/// The G1 point a validated compressed encoding at the front of `bytes`
/// decodes to, if it does.
pub uninterp spec fn spec_g1_decompress(bytes: Seq<u8>) -> Option<Seq<u8>>;

/// The G2 point a validated compressed encoding at the front of `bytes`
/// decodes to, if it does.
pub uninterp spec fn spec_g2_decompress(bytes: Seq<u8>) -> Option<Seq<u8>>;

/// `e(a1, b1) * e(a2, b2) == 1` in the target group.
pub uninterp spec fn spec_pairing_check(a1: Seq<u8>, a2: Seq<u8>, b1: Seq<u8>, b2: Seq<u8>) -> bool;

impl G1 {
    /// `self + other` (`+` on `G1Projective`, then `into_affine`): the sum of
    /// two multiples of the generator is the multiple by the sum of the
    /// factors, modulo the group order.
    #[verifier::external_body]
    fn ark_plus(&self, other: &G1) -> (r: G1)
        ensures
            r@ == spec_g1_add(self@, other@),
            forall|a: nat, b: nat|
                #![trigger spec_g1_gen_mul(a), spec_g1_gen_mul(b)]
                a < modulus() && b < modulus() && self@ == spec_g1_gen_mul(a) && other@ == spec_g1_gen_mul(b) ==> r@
                    == spec_g1_gen_mul(fadd(a, b)),
    {
        let a = G1Affine::deserialize_uncompressed_unchecked(&self.bytes[..]).unwrap();
        let b = G1Affine::deserialize_uncompressed_unchecked(&other.bytes[..]).unwrap();
        let mut bytes = [0u8; 96];
        (a + b).into_affine().serialize_uncompressed(&mut bytes[..]).unwrap();
        G1 { bytes }
    }

    /// `self + other` (`+` on `G1Projective`, then `into_affine`).
    pub fn plus(&self, other: &G1) -> (r: G1)
        ensures
            r@ == spec_g1_add(self@, other@),
            forall|a: nat, b: nat|
                #![trigger spec_g1_gen_mul(a), spec_g1_gen_mul(b)]
                a < modulus() && b < modulus() && self@ == spec_g1_gen_mul(a) && other@ == spec_g1_gen_mul(b) ==> r@
                    == spec_g1_gen_mul(fadd(a, b)),
    {
        self.ark_plus(other)
    }

    /// `-self` (`Neg` on `G1Affine`): the negation of a multiple of the
    /// generator is the multiple by the negated factor.
    #[verifier::external_body]
    fn ark_negate(&self) -> (r: G1)
        ensures
            r@ == spec_g1_neg(self@),
            forall|a: nat| a < modulus() && self@ == #[trigger] spec_g1_gen_mul(a) ==> r@ == spec_g1_gen_mul(fneg(a)),
    {
        let a = G1Affine::deserialize_uncompressed_unchecked(&self.bytes[..]).unwrap();
        let mut bytes = [0u8; 96];
        (-a).serialize_uncompressed(&mut bytes[..]).unwrap();
        G1 { bytes }
    }

    /// `-self`.
    pub fn negate(&self) -> (r: G1)
        ensures
            r@ == spec_g1_neg(self@),
            forall|a: nat| a < modulus() && self@ == #[trigger] spec_g1_gen_mul(a) ==> r@ == spec_g1_gen_mul(fneg(a)),
    {
        self.ark_negate()
    }

    /// `self * k` (`Mul<Fr>` on `G1Affine`, then `into_affine`): a multiple
    /// of the generator times `k` is the multiple by the product.
    #[verifier::external_body]
    fn ark_scale(&self, k: &Scalar) -> (r: G1)
        ensures
            r@ == spec_g1_mul(self@, k@),
            forall|a: nat|
                a < modulus() && self@ == #[trigger] spec_g1_gen_mul(a) ==> r@ == spec_g1_gen_mul(fmul(a, k@)),
    {
        let a = G1Affine::deserialize_uncompressed_unchecked(&self.bytes[..]).unwrap();
        let k = ark_bls12_381::Fr::new(BigInt::new(k.limbs));
        let mut bytes = [0u8; 96];
        (a * k).into_affine().serialize_uncompressed(&mut bytes[..]).unwrap();
        G1 { bytes }
    }

    /// `self * k`.
    pub fn scale(&self, k: &Scalar) -> (r: G1)
        ensures
            r@ == spec_g1_mul(self@, k@),
            forall|a: nat|
                a < modulus() && self@ == #[trigger] spec_g1_gen_mul(a) ==> r@ == spec_g1_gen_mul(fmul(a, k@)),
    {
        self.ark_scale(k)
    }

    /// The identity of G1 (`Zero::zero`), which is the generator times zero.
    #[verifier::external_body]
    fn ark_identity() -> (r: G1)
        ensures
            r@ == spec_g1_gen_mul(0),
    {
        let mut bytes = [0u8; 96];
        G1Projective::zero().into_affine().serialize_uncompressed(&mut bytes[..]).unwrap();
        G1 { bytes }
    }

    /// The identity of G1 (`Zero::zero`), which is the generator times zero.
    pub fn identity() -> (r: G1)
        ensures
            r@ == spec_g1_gen_mul(0),
    {
        Self::ark_identity()
    }

    /// The generator of G1 times `k` (`G1Projective::generator() * k`).
    #[verifier::external_body]
    fn ark_generator_times(k: &Scalar) -> (r: G1)
        ensures
            r@ == spec_g1_gen_mul(k@),
    {
        let k = ark_bls12_381::Fr::new(BigInt::new(k.limbs));
        let mut bytes = [0u8; 96];
        (G1Projective::generator() * k).into_affine().serialize_uncompressed(&mut bytes[..]).unwrap();
        G1 { bytes }
    }

    /// The generator of G1 times `k` (`G1Projective::generator() * k`).
    pub fn generator_times(k: &Scalar) -> (r: G1)
        ensures
            r@ == spec_g1_gen_mul(k@),
    {
        Self::ark_generator_times(k)
    }

    /// The 48-byte compressed encoding (`serialize_compressed`); it decodes
    /// back to the same point.
    #[verifier::external_body]
    fn ark_to_compressed(&self) -> (r: Vec<u8>)
        ensures
            r@ == spec_g1_compress(self@),
            r@.len() == 48,
            spec_g1_decompress(r@) == Some(self@),
    {
        let a = G1Affine::deserialize_uncompressed_unchecked(&self.bytes[..]).unwrap();
        let mut buf = Vec::new();
        a.serialize_compressed(&mut buf).unwrap();
        buf
    }

    /// The 48-byte compressed encoding (`serialize_compressed`); it decodes
    /// back to the same point.
    pub fn to_compressed(&self) -> (r: Vec<u8>)
        ensures
            r@ == spec_g1_compress(self@),
            r@.len() == 48,
            spec_g1_decompress(r@) == Some(self@),
    {
        self.ark_to_compressed()
    }

    /// Decode a compressed point from the front of `bytes`, checking that it
    /// is on the curve and in the prime-order subgroup
    /// (`deserialize_compressed`); too few bytes for a point fail.
    #[verifier::external_body]
    fn ark_from_compressed(bytes: &[u8]) -> (r: Option<G1>)
        ensures
            r is Some <==> spec_g1_decompress(bytes@) is Some,
            bytes@.len() < 48 ==> r is None,
            r matches Some(p) ==> Some(p@) == spec_g1_decompress(bytes@),
    {
        let a = G1Affine::deserialize_compressed(bytes).ok()?;
        let mut out = [0u8; 96];
        a.serialize_uncompressed(&mut out[..]).unwrap();
        Some(G1 { bytes: out })
    }

    /// Decode a compressed point from the front of `bytes`, checking that it
    /// is on the curve and in the prime-order subgroup
    /// (`deserialize_compressed`); too few bytes for a point fail.
    pub fn from_compressed(bytes: &[u8]) -> (r: Option<G1>)
        ensures
            r is Some <==> spec_g1_decompress(bytes@) is Some,
            bytes@.len() < 48 ==> r is None,
            r matches Some(p) ==> Some(p@) == spec_g1_decompress(bytes@),
    {
        Self::ark_from_compressed(bytes)
    }
}

impl G2 {
    /// The generator of G2 times `k` (`G2Projective::generator() * k`).
    #[verifier::external_body]
    fn ark_generator_times(k: &Scalar) -> (r: G2)
        ensures
            r@ == spec_g2_gen_mul(k@),
    {
        let k = ark_bls12_381::Fr::new(BigInt::new(k.limbs));
        let mut bytes = [0u8; 192];
        (G2Projective::generator() * k).into_affine().serialize_uncompressed(&mut bytes[..]).unwrap();
        G2 { bytes }
    }

    /// The generator of G2 times `k` (`G2Projective::generator() * k`).
    pub fn generator_times(k: &Scalar) -> (r: G2)
        ensures
            r@ == spec_g2_gen_mul(k@),
    {
        Self::ark_generator_times(k)
    }

    /// The 96-byte compressed encoding (`serialize_compressed`); it decodes
    /// back to the same point.
    #[verifier::external_body]
    fn ark_to_compressed(&self) -> (r: Vec<u8>)
        ensures
            r@ == spec_g2_compress(self@),
            r@.len() == 96,
            spec_g2_decompress(r@) == Some(self@),
    {
        let a = G2Affine::deserialize_uncompressed_unchecked(&self.bytes[..]).unwrap();
        let mut buf = Vec::new();
        a.serialize_compressed(&mut buf).unwrap();
        buf
    }

    /// The 96-byte compressed encoding (`serialize_compressed`); it decodes
    /// back to the same point.
    pub fn to_compressed(&self) -> (r: Vec<u8>)
        ensures
            r@ == spec_g2_compress(self@),
            r@.len() == 96,
            spec_g2_decompress(r@) == Some(self@),
    {
        self.ark_to_compressed()
    }

    /// Decode a compressed point from the front of `bytes`, checking that it
    /// is on the curve and in the prime-order subgroup
    /// (`deserialize_compressed`); too few bytes for a point fail.
    #[verifier::external_body]
    fn ark_from_compressed(bytes: &[u8]) -> (r: Option<G2>)
        ensures
            r is Some <==> spec_g2_decompress(bytes@) is Some,
            bytes@.len() < 96 ==> r is None,
            r matches Some(p) ==> Some(p@) == spec_g2_decompress(bytes@),
    {
        let a = G2Affine::deserialize_compressed(bytes).ok()?;
        let mut out = [0u8; 192];
        a.serialize_uncompressed(&mut out[..]).unwrap();
        Some(G2 { bytes: out })
    }

    /// Decode a compressed point from the front of `bytes`, checking that it
    /// is on the curve and in the prime-order subgroup
    /// (`deserialize_compressed`); too few bytes for a point fail.
    pub fn from_compressed(bytes: &[u8]) -> (r: Option<G2>)
        ensures
            r is Some <==> spec_g2_decompress(bytes@) is Some,
            bytes@.len() < 96 ==> r is None,
            r matches Some(p) ==> Some(p@) == spec_g2_decompress(bytes@),
    {
        Self::ark_from_compressed(bytes)
    }
}

/// `sum_i scalars[i] * bases[i]` over the shorter of the two
/// (`VariableBaseMSM::msm_unchecked`); over multiples of the generator the
/// result is the multiple by the weighted sum of the factors.
#[verifier::external_body]
fn ark_g1_msm(bases: &[G1], scalars: &[Scalar]) -> (r: G1)
    ensures
        r@ == spec_g1_msm(g1_views(bases@), vals(scalars@)),
        forall|e: Seq<nat>|
            e.len() == bases@.len() && bases@.len() == scalars@.len() && (forall|i: int|
                0 <= i < e.len() ==> e[i] < modulus() && bases@[i]@ == spec_g1_gen_mul(e[i])) ==> r@ == spec_g1_gen_mul(
                #[trigger] field_dot(vals(scalars@), e),
            ),
{
    let b: Vec<G1Affine> = bases.iter().map(|p| G1Affine::deserialize_uncompressed_unchecked(&p.bytes[..]).unwrap()).collect();
    let s: Vec<ark_bls12_381::Fr> = scalars.iter().map(|x| ark_bls12_381::Fr::new(BigInt::new(x.limbs))).collect();
    let mut bytes = [0u8; 96];
    G1Projective::msm_unchecked(&b, &s).into_affine().serialize_uncompressed(&mut bytes[..]).unwrap();
    G1 { bytes }
}

/// `sum_i scalars[i] * bases[i]` over the shorter of the two
/// (`VariableBaseMSM::msm_unchecked`).
pub fn g1_msm(bases: &[G1], scalars: &[Scalar]) -> (r: G1)
    ensures
        r@ == spec_g1_msm(g1_views(bases@), vals(scalars@)),
        forall|e: Seq<nat>|
            e.len() == bases@.len() && bases@.len() == scalars@.len() && (forall|i: int|
                0 <= i < e.len() ==> e[i] < modulus() && bases@[i]@ == spec_g1_gen_mul(e[i])) ==> r@ == spec_g1_gen_mul(
                #[trigger] field_dot(vals(scalars@), e),
            ),
{
    ark_g1_msm(bases, scalars)
}

/// Whether `e(a1, b1) * e(a2, b2)` is the identity of the target group
/// (`Pairing::multi_pairing`, then `is_one`). The pairing is bilinear and
/// `e(G1, G2)` has the group order, so for `a_i = [x_i]_1`, `b_i = [y_i]_2`
/// this holds exactly when `x1 y1 + x2 y2 = 0` modulo the order.
#[verifier::external_body]
fn ark_pairing_check(a1: &G1, a2: &G1, b1: &G2, b2: &G2) -> (r: bool)
    ensures
        r == spec_pairing_check(a1@, a2@, b1@, b2@),
        forall|x1: nat, x2: nat, y1: nat, y2: nat|
            #![trigger spec_g1_gen_mul(x1), spec_g1_gen_mul(x2), spec_g2_gen_mul(y1), spec_g2_gen_mul(y2)]
            x1 < modulus() && x2 < modulus() && y1 < modulus() && y2 < modulus() && a1@ == spec_g1_gen_mul(x1) && a2@
                == spec_g1_gen_mul(x2) && b1@ == spec_g2_gen_mul(y1) && b2@ == spec_g2_gen_mul(y2) ==> (r <==> fadd(
                fmul(x1, y1),
                fmul(x2, y2),
            ) == 0),
{
    let p1 = G1Affine::deserialize_uncompressed_unchecked(&a1.bytes[..]).unwrap();
    let p2 = G1Affine::deserialize_uncompressed_unchecked(&a2.bytes[..]).unwrap();
    let q1 = G2Affine::deserialize_uncompressed_unchecked(&b1.bytes[..]).unwrap();
    let q2 = G2Affine::deserialize_uncompressed_unchecked(&b2.bytes[..]).unwrap();
    Bls12_381::multi_pairing([p1, p2], [q1, q2]).0.is_one()
}

/// Whether `e(a1, b1) * e(a2, b2)` is the identity of the target group
/// (`Pairing::multi_pairing`, then `is_one`).
pub fn pairing_check(a1: &G1, a2: &G1, b1: &G2, b2: &G2) -> (r: bool)
    ensures
        r == spec_pairing_check(a1@, a2@, b1@, b2@),
        forall|x1: nat, x2: nat, y1: nat, y2: nat|
            #![trigger spec_g1_gen_mul(x1), spec_g1_gen_mul(x2), spec_g2_gen_mul(y1), spec_g2_gen_mul(y2)]
            x1 < modulus() && x2 < modulus() && y1 < modulus() && y2 < modulus() && a1@ == spec_g1_gen_mul(x1) && a2@
                == spec_g1_gen_mul(x2) && b1@ == spec_g2_gen_mul(y1) && b2@ == spec_g2_gen_mul(y2) ==> (r <==> fadd(
                fmul(x1, y1),
                fmul(x2, y2),
            ) == 0),
{
    ark_pairing_check(a1, a2, b1, b2)
}

} // verus!
