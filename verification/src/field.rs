//! The scalar field of BLS12-381, `F_r`.
//!
//! A `Scalar` holds the canonical representative of its residue as four
//! little-endian 64-bit limbs. Arithmetic is delegated to `ark_bls12_381::Fr`;
//! the contracts state it as arithmetic on integers modulo `r`.

use vstd::prelude::*;
use vstd::arithmetic::power2::pow2;
use ark_bls12_381::Fr;
use ark_ff::{BigInt, Field, FftField, PrimeField, UniformRand, Zero};
use ark_serialize::{CanonicalDeserialize, CanonicalSerialize};
use ark_std::rand::RngCore;
use vstd::std_specs::cmp::PartialEqSpecImpl;

verus! {

/// The order `r` of the scalar field.
pub open spec fn modulus() -> nat {
    52435875175126190479447740508185965837690552500527637822603658699938581184513nat
}

/// `2^64`
pub open spec fn limb_base() -> nat {
    18446744073709551616nat
}

/// The integer held by four little-endian limbs.
pub open spec fn limbs_value(l: [u64; 4]) -> nat {
    l[0] as nat + limb_base() * (l[1] as nat + limb_base() * (l[2] as nat + limb_base() * (l[3] as nat)))
}

pub open spec fn fadd(a: nat, b: nat) -> nat {
    (a + b) % modulus()
}

pub open spec fn fsub(a: nat, b: nat) -> nat {
    ((a as int - b as int) % (modulus() as int)) as nat
}

pub open spec fn fmul(a: nat, b: nat) -> nat {
    (a * b) % modulus()
}

pub open spec fn fneg(a: nat) -> nat {
    ((0 - a as int) % (modulus() as int)) as nat
}

/// The multiplicative inverse of `a` modulo `r` (unique, `r` being prime).
pub open spec fn finv(a: nat) -> nat {
    choose|x: nat| x < modulus() && fmul(a, x) == 1
}

/// `a / b` in the field.
pub open spec fn fdiv(a: nat, b: nat) -> nat {
    fmul(a, finv(b))
}

/// `a^e mod r`.
pub open spec fn fpow(a: nat, e: nat) -> nat
    decreases e,
{
    if e == 0 {
        1
    } else {
        fmul(fpow(a, (e - 1) as nat), a)
    }
}

/// The integer whose little-endian bytes are `b`.
pub open spec fn le_value(b: Seq<u8>) -> nat
    decreases b.len(),
{
    if b.len() == 0 {
        0
    } else {
        b[0] as nat + 256 * le_value(b.drop_first())
    }
}

/// The `len` little-endian bytes of `x` (truncating above `256^len`).
pub open spec fn le_bytes(x: nat, len: nat) -> Seq<u8>
    decreases len,
{
    if len == 0 {
        Seq::empty()
    } else {
        seq![(x % 256) as u8] + le_bytes(x / 256, (len - 1) as nat)
    }
}

pub proof fn lemma_modulus_pos()
    ensures
        modulus() > 1,
{
}

/// `fmul` is commutative.
pub proof fn lemma_fmul_comm(a: nat, b: nat)
    ensures
        fmul(a, b) == fmul(b, a),
{
    vstd::arithmetic::mul::lemma_mul_is_commutative(a as int, b as int);
}

/// `fmul` is associative.
pub proof fn lemma_fmul_assoc(a: nat, b: nat, c: nat)
    ensures
        fmul(fmul(a, b), c) == fmul(a, fmul(b, c)),
{
    let p = modulus() as int;
    vstd::arithmetic::div_mod::lemma_mul_mod_noop_left((a * b) as int, c as int, p);
    vstd::arithmetic::div_mod::lemma_mul_mod_noop_right(a as int, (b * c) as int, p);
    vstd::arithmetic::mul::lemma_mul_is_associative(a as int, b as int, c as int);
}

/// Reducing a factor first does not change a product.
pub proof fn lemma_fmul_mod(a: nat, b: nat)
    ensures
        fmul(a % modulus(), b) == fmul(a, b),
        fmul(a, b % modulus()) == fmul(a, b),
{
    let p = modulus() as int;
    vstd::arithmetic::div_mod::lemma_mul_mod_noop_left(a as int, b as int, p);
    vstd::arithmetic::div_mod::lemma_mul_mod_noop_right(a as int, b as int, p);
}

/// Reducing a summand first does not change a sum.
pub proof fn lemma_fadd_mod(a: nat, b: nat)
    ensures
        fadd(a % modulus(), b) == fadd(a, b),
        fadd(a, b % modulus()) == fadd(a, b),
{
    let p = modulus() as int;
    vstd::arithmetic::div_mod::lemma_add_mod_noop(a as int, b as int, p);
    vstd::arithmetic::div_mod::lemma_add_mod_noop(a as int, (b % modulus()) as int, p);
    vstd::arithmetic::div_mod::lemma_add_mod_noop((a % modulus()) as int, b as int, p);
    vstd::arithmetic::div_mod::lemma_mod_twice(a as int, p);
    vstd::arithmetic::div_mod::lemma_mod_twice(b as int, p);
}



/// The product of the elements of `s` in the field.
pub open spec fn field_product(s: Seq<nat>) -> nat
    decreases s.len(),
{
    if s.len() == 0 {
        1
    } else {
        fmul(field_product(s.drop_last()), s.last())
    }
}

/// `sum_i s[i] * e[i]` in the field, over the shorter of the two.
pub open spec fn field_dot(s: Seq<nat>, e: Seq<nat>) -> nat
    decreases s.len(),
{
    if s.len() == 0 || e.len() == 0 {
        0
    } else {
        fadd(fmul(s[0], e[0]), field_dot(s.drop_first(), e.drop_first()))
    }
}

/// Taking factor `k` out of a product and multiplying it back in last
/// leaves the product unchanged.
proof fn lemma_product_remove(s: Seq<nat>, k: int)
    requires
        0 <= k < s.len(),
    ensures
        field_product(s) == fmul(field_product(s.remove(k)), s[k]),
    decreases s.len(),
{
    if k == s.len() - 1 {
        assert(s.remove(k) =~= s.drop_last());
    } else {
        let d = s.drop_last();
        assert(d[k] == s[k]);
        lemma_product_remove(d, k);
        let r = d.remove(k);
        assert(s.remove(k).drop_last() =~= r);
        assert(s.remove(k).last() == s.last());
        lemma_fmul_assoc(field_product(r), s[k], s.last());
        lemma_fmul_comm(s[k], s.last());
        lemma_fmul_assoc(field_product(r), s.last(), s[k]);
    }
}

/// Reordering the factors of a product leaves it unchanged: when `sigma`
/// sends `0..m` one-to-one into `0..m`, the factors `s[sigma[0]], ...,
/// s[sigma[m-1]]` have the product of `s`.
pub proof fn lemma_product_reindex(s: Seq<nat>, sigma: Seq<int>)
    requires
        sigma.len() == s.len(),
        forall|p: int| 0 <= p < sigma.len() ==> 0 <= #[trigger] sigma[p] < s.len(),
        forall|p: int, q: int| 0 <= p < q < sigma.len() ==> #[trigger] sigma[p] != #[trigger] sigma[q],
    ensures
        field_product(Seq::new(s.len(), |p: int| s[sigma[p]])) == field_product(s),
    decreases s.len(),
{
    let m = s.len() as int;
    let t = Seq::new(s.len(), |p: int| s[sigma[p]]);
    if m > 0 {
        let j = sigma[m - 1];
        let s2 = s.remove(j);
        let sigma2 = Seq::new((m - 1) as nat, |p: int| if sigma[p] < j { sigma[p] } else { sigma[p] - 1 });
        assert forall|p: int| 0 <= p < sigma2.len() implies 0 <= #[trigger] sigma2[p] < s2.len() by {
            assert(sigma[p] != sigma[m - 1]);
        }
        assert forall|p: int, q: int| 0 <= p < q < sigma2.len() implies #[trigger] sigma2[p] != #[trigger] sigma2[q] by {
            assert(sigma[p] != sigma[q]);
            assert(sigma[p] != sigma[m - 1]);
            assert(sigma[q] != sigma[m - 1]);
        }
        lemma_product_reindex(s2, sigma2);
        let t2 = Seq::new(s2.len(), |p: int| s2[sigma2[p]]);
        assert forall|p: int| 0 <= p < m - 1 implies #[trigger] t2[p] == t.drop_last()[p] by {
            assert(sigma[p] != sigma[m - 1]);
        }
        assert(t2 =~= t.drop_last());
        lemma_product_remove(s, j);
    }
}

/// The product of a concatenation is the product of the products.
pub proof fn lemma_product_concat(a: Seq<nat>, b: Seq<nat>)
    ensures
        field_product(a + b) == fmul(field_product(a), field_product(b)),
    decreases b.len(),
{
    if b.len() == 0 {
        assert(a + b =~= a);
        assert(field_product(a) < modulus()) by {
            lemma_product_reduced(a);
        }
        assert(fmul(field_product(a), 1) == field_product(a) % modulus());
        vstd::arithmetic::div_mod::lemma_small_mod(field_product(a), modulus());
    } else {
        assert((a + b).drop_last() =~= a + b.drop_last());
        assert((a + b).last() == b.last());
        lemma_product_concat(a, b.drop_last());
        lemma_fmul_assoc(field_product(a), field_product(b.drop_last()), b.last());
    }
}

/// A product is a reduced field element.
pub proof fn lemma_product_reduced(s: Seq<nat>)
    ensures
        field_product(s) < modulus(),
    decreases s.len(),
{
    if s.len() > 0 {
        lemma_modulus_pos();
        vstd::arithmetic::div_mod::lemma_mod_bound((field_product(s.drop_last()) * s.last()) as int, modulus() as int);
    }
}

/// The product of pointwise products is the product of the two products.
pub proof fn lemma_product_pointwise(a: Seq<nat>, b: Seq<nat>)
    requires
        a.len() == b.len(),
    ensures
        field_product(Seq::new(a.len(), |i: int| fmul(a[i], b[i]))) == fmul(field_product(a), field_product(b)),
    decreases a.len(),
{
    let m = a.len() as int;
    let ab = Seq::new(a.len(), |i: int| fmul(a[i], b[i]));
    if m == 0 {
        assert(fmul(1, 1) == 1) by {
            lemma_modulus_pos();
            vstd::arithmetic::div_mod::lemma_small_mod(1, modulus());
        }
    } else {
        let (a1, b1) = (a.drop_last(), b.drop_last());
        lemma_product_pointwise(a1, b1);
        assert(ab.drop_last() =~= Seq::new(a1.len(), |i: int| fmul(a1[i], b1[i])));
        let (pa, pb, x, y) = (field_product(a1), field_product(b1), a.last(), b.last());
        // (pa pb)(x y) = (pa x)(pb y)
        lemma_fmul_mod(fmul(pa, pb), x * y);
        lemma_fmul_assoc(fmul(pa, pb), x, y);
        lemma_fmul_assoc(pa, pb, x);
        lemma_fmul_comm(pb, x);
        lemma_fmul_assoc(pa, x, pb);
        lemma_fmul_assoc(fmul(pa, x), pb, y);
        assert(fmul(fmul(pa, pb), fmul(x, y)) == fmul(fmul(fmul(pa, pb), x), y)) by {
            lemma_fmul_assoc(fmul(pa, pb), x, y);
        }
    }
}

/// An element of the scalar field.
#[derive(Clone, Copy, Debug)]
pub struct Scalar {
    pub(crate) limbs: [u64; 4],
}

impl View for Scalar {
    type V = nat;

    closed spec fn view(&self) -> nat {
        limbs_value(self.limbs)
    }
}

pub open spec fn vals(s: Seq<Scalar>) -> Seq<nat> {
    s.map_values(|x: Scalar| x@)
}

proof fn lemma_limbs_unique(a: [u64; 4], b: [u64; 4])
    requires
        limbs_value(a) == limbs_value(b),
    ensures
        a == b,
{
    let bb = limb_base() as int;
    let ta = a[1] as int + bb * (a[2] as int + bb * (a[3] as int));
    let tb = b[1] as int + bb * (b[2] as int + bb * (b[3] as int));
    assert(limbs_value(a) as int == ta * bb + a[0] as int) by (nonlinear_arith)
        requires ta == a[1] as int + bb * (a[2] as int + bb * (a[3] as int)), bb == limb_base();
    assert(limbs_value(b) as int == tb * bb + b[0] as int) by (nonlinear_arith)
        requires tb == b[1] as int + bb * (b[2] as int + bb * (b[3] as int)), bb == limb_base();
    vstd::arithmetic::div_mod::lemma_fundamental_div_mod_converse(limbs_value(a) as int, bb, ta, a[0] as int);
    vstd::arithmetic::div_mod::lemma_fundamental_div_mod_converse(limbs_value(a) as int, bb, tb, b[0] as int);
    let ua = a[2] as int + bb * (a[3] as int);
    let ub = b[2] as int + bb * (b[3] as int);
    assert(ta == ua * bb + a[1] as int) by (nonlinear_arith) requires ua == a[2] as int + bb * (a[3] as int), ta == a[1] as int + bb * ua;
    assert(tb == ub * bb + b[1] as int) by (nonlinear_arith) requires ub == b[2] as int + bb * (b[3] as int), tb == b[1] as int + bb * ub;
    vstd::arithmetic::div_mod::lemma_fundamental_div_mod_converse(ta, bb, ua, a[1] as int);
    vstd::arithmetic::div_mod::lemma_fundamental_div_mod_converse(ta, bb, ub, b[1] as int);
    assert(ua == (a[3] as int) * bb + a[2] as int) by (nonlinear_arith) requires ua == a[2] as int + bb * (a[3] as int);
    assert(ub == (b[3] as int) * bb + b[2] as int) by (nonlinear_arith) requires ub == b[2] as int + bb * (b[3] as int);
    vstd::arithmetic::div_mod::lemma_fundamental_div_mod_converse(ua, bb, a[3] as int, a[2] as int);
    vstd::arithmetic::div_mod::lemma_fundamental_div_mod_converse(ua, bb, b[3] as int, b[2] as int);
    assert(a =~= b);
}

impl Scalar {
    /// Every scalar holds the canonical representative of its residue.
    #[verifier::type_invariant]
    pub open spec fn canonical(self) -> bool {
        self@ < modulus()
    }

    pub fn zero() -> (r: Scalar)
        ensures
            r@ == 0,
    {
        Scalar { limbs: [0, 0, 0, 0] }
    }

    pub fn one() -> (r: Scalar)
        ensures
            r@ == 1,
    {
        Scalar { limbs: [1, 0, 0, 0] }
    }

    pub fn from_u64(x: u64) -> (r: Scalar)
        ensures
            r@ == x as nat,
    {
        Scalar { limbs: [x, 0, 0, 0] }
    }

    /// The canonical value is below the modulus.
    pub fn lemma_canonical(&self)
        ensures
            self@ < modulus(),
    {
        proof {
            use_type_invariant(self);
        }
    }

    pub fn is_zero(&self) -> (r: bool)
        ensures
            r == (self@ == 0),
    {
        let r = self.limbs[0] == 0 && self.limbs[1] == 0 && self.limbs[2] == 0 && self.limbs[3] == 0;
        proof {
            if self@ == 0 {
                lemma_limbs_unique(self.limbs, [0u64, 0, 0, 0]);
            }
        }
        r
    }

    pub fn is_one(&self) -> (r: bool)
        ensures
            r == (self@ == 1),
    {
        let r = self.limbs[0] == 1 && self.limbs[1] == 0 && self.limbs[2] == 0 && self.limbs[3] == 0;
        proof {
            if self@ == 1 {
                lemma_limbs_unique(self.limbs, [1u64, 0, 0, 0]);
            }
        }
        r
    }

    /// Field equality: the canonical representatives agree.
    pub fn equals(&self, other: &Scalar) -> (r: bool)
        ensures
            r == (self@ == other@),
    {
        let r = self.limbs[0] == other.limbs[0] && self.limbs[1] == other.limbs[1]
            && self.limbs[2] == other.limbs[2] && self.limbs[3] == other.limbs[3];
        proof {
            if self@ == other@ {
                lemma_limbs_unique(self.limbs, other.limbs);
            }
            if r {
                assert(self.limbs =~= other.limbs);
            }
        }
        r
    }

    /// Bit `i` of the canonical representative (zero past its 256 bits).
    pub closed spec fn spec_bit(self, i: nat) -> bool {
        i < 256 && (self.limbs[(i / 64) as int] >> ((i % 64) as u64)) & 1 == 1
    }

    /// Bit `i` of the canonical representative, as `BigInt::get_bit` reads it.
    pub fn bit(&self, i: usize) -> (r: bool)
        ensures
            r == self.spec_bit(i as nat),
    {
        if i >= 256 {
            false
        } else {
            (self.limbs[i / 64] >> ((i % 64) as u64)) & 1 == 1
        }
    }

    /// `self + other` in the field.
    #[verifier::external_body]
    fn ark_plus(&self, other: &Scalar) -> (r: Scalar)
        ensures
            r@ == fadd(self@, other@),
    {
        let x = Fr::new(BigInt::new(self.limbs)) + Fr::new(BigInt::new(other.limbs));
        Scalar { limbs: x.into_bigint().0 }
    }

    /// `self + other` in the field.
    pub fn plus(&self, other: &Scalar) -> (r: Scalar)
        ensures
            r@ == fadd(self@, other@),
    {
        self.ark_plus(other)
    }

    /// `self - other` in the field.
    #[verifier::external_body]
    fn ark_minus(&self, other: &Scalar) -> (r: Scalar)
        ensures
            r@ == fsub(self@, other@),
    {
        let x = Fr::new(BigInt::new(self.limbs)) - Fr::new(BigInt::new(other.limbs));
        Scalar { limbs: x.into_bigint().0 }
    }

    /// `self - other` in the field.
    pub fn minus(&self, other: &Scalar) -> (r: Scalar)
        ensures
            r@ == fsub(self@, other@),
    {
        self.ark_minus(other)
    }

    /// `self * other` in the field.
    #[verifier::external_body]
    fn ark_times(&self, other: &Scalar) -> (r: Scalar)
        ensures
            r@ == fmul(self@, other@),
    {
        let x = Fr::new(BigInt::new(self.limbs)) * Fr::new(BigInt::new(other.limbs));
        Scalar { limbs: x.into_bigint().0 }
    }

    /// `self * other` in the field.
    pub fn times(&self, other: &Scalar) -> (r: Scalar)
        ensures
            r@ == fmul(self@, other@),
    {
        self.ark_times(other)
    }

    /// `-self` in the field.
    #[verifier::external_body]
    fn ark_negate(&self) -> (r: Scalar)
        ensures
            r@ == fneg(self@),
    {
        let x = -Fr::new(BigInt::new(self.limbs));
        Scalar { limbs: x.into_bigint().0 }
    }

    /// `-self` in the field.
    pub fn negate(&self) -> (r: Scalar)
        ensures
            r@ == fneg(self@),
    {
        self.ark_negate()
    }

    /// The multiplicative inverse, `None` for zero.
    #[verifier::external_body]
    fn ark_inverse(&self) -> (r: Option<Scalar>)
        ensures
            r is None <==> self@ == 0,
            r matches Some(x) ==> fmul(self@, x@) == 1 && x@ == finv(self@),
    {
        Fr::new(BigInt::new(self.limbs)).inverse().map(|x| Scalar { limbs: x.into_bigint().0 })
    }

    /// The multiplicative inverse, `None` for zero.
    pub fn inverse(&self) -> (r: Option<Scalar>)
        ensures
            r is None <==> self@ == 0,
            r matches Some(x) ==> fmul(self@, x@) == 1 && x@ == finv(self@),
    {
        self.ark_inverse()
    }

    /// `self^e` in the field.
    #[verifier::external_body]
    fn ark_pow(&self, e: u64) -> (r: Scalar)
        ensures
            r@ == fpow(self@, e as nat),
    {
        let x = Fr::new(BigInt::new(self.limbs)).pow([e]);
        Scalar { limbs: x.into_bigint().0 }
    }

    /// `self^e` in the field.
    pub fn pow(&self, e: u64) -> (r: Scalar)
        ensures
            r@ == fpow(self@, e as nat),
    {
        self.ark_pow(e)
    }

    /// The field's multiplicative generator, 7 (`Fr::GENERATOR` for BLS12-381).
    pub fn generator() -> (r: Scalar)
        ensures
            r@ == 7,
    {
        Self::from_u64(7)
    }

    /// The little-endian integer of `bytes`, reduced mod `r`
    /// (`PrimeField::from_le_bytes_mod_order`).
    #[verifier::external_body]
    fn ark_from_le_bytes_mod_order(bytes: &[u8]) -> (r: Scalar)
        ensures
            r@ == le_value(bytes@) % modulus(),
    {
        Scalar { limbs: Fr::from_le_bytes_mod_order(bytes).into_bigint().0 }
    }

    /// The little-endian integer of `bytes`, reduced mod `r`
    /// (`PrimeField::from_le_bytes_mod_order`).
    pub fn from_le_bytes_mod_order(bytes: &[u8]) -> (r: Scalar)
        ensures
            r@ == le_value(bytes@) % modulus(),
    {
        Self::ark_from_le_bytes_mod_order(bytes)
    }

    /// The compressed canonical encoding: 32 little-endian bytes of the
    /// canonical representative (`CanonicalSerialize::serialize_compressed`).
    #[verifier::external_body]
    fn ark_to_bytes(&self) -> (r: Vec<u8>)
        ensures
            r@ == le_bytes(self@, 32),
    {
        let mut buf = Vec::new();
        Fr::new(BigInt::new(self.limbs)).serialize_compressed(&mut buf).unwrap();
        buf
    }

    /// The compressed canonical encoding: 32 little-endian bytes of the
    /// canonical representative (`CanonicalSerialize::serialize_compressed`).
    pub fn to_bytes(&self) -> (r: Vec<u8>)
        ensures
            r@ == le_bytes(self@, 32),
    {
        self.ark_to_bytes()
    }

    /// Reads a compressed, validated encoding from the front of `bytes`
    /// (`CanonicalDeserialize::deserialize_compressed`): fails when fewer
    /// than 32 bytes are given or their value is not below the modulus.
    #[verifier::external_body]
    fn ark_from_bytes(bytes: &[u8]) -> (r: Option<Scalar>)
        ensures
            r is Some <==> (bytes@.len() >= 32 && le_value(bytes@.subrange(0, 32)) < modulus()),
            r matches Some(x) ==> x@ == le_value(bytes@.subrange(0, 32)),
    {
        Fr::deserialize_compressed(bytes).ok().map(|x| Scalar { limbs: x.into_bigint().0 })
    }

    /// Reads a compressed, validated encoding from the front of `bytes`
    /// (`CanonicalDeserialize::deserialize_compressed`): fails when fewer
    /// than 32 bytes are given or their value is not below the modulus.
    pub fn from_bytes(bytes: &[u8]) -> (r: Option<Scalar>)
        ensures
            r is Some <==> (bytes@.len() >= 32 && le_value(bytes@.subrange(0, 32)) < modulus()),
            r matches Some(x) ==> x@ == le_value(bytes@.subrange(0, 32)),
    {
        Self::ark_from_bytes(bytes)
    }

    /// A uniformly random scalar (`UniformRand::rand`). Nothing is stated of
    /// the value beyond its being a scalar.
    #[verifier::external_body]
    fn ark_random<R: RngCore>(rng: &mut R) -> (r: Scalar)
    {
        Scalar { limbs: Fr::rand(rng).into_bigint().0 }
    }

    /// A uniformly random scalar (`UniformRand::rand`). Nothing is stated of
    /// the value beyond its being a scalar.
    pub fn random<R: RngCore>(rng: &mut R) -> (r: Scalar)
    {
        Self::ark_random(rng)
    }
}

impl PartialEq for Scalar {
    fn eq(&self, other: &Scalar) -> (r: bool) {
        self.equals(other)
    }
}

impl Eq for Scalar {}

impl PartialEqSpecImpl for Scalar {
    open spec fn obeys_eq_spec() -> bool {
        true
    }

    open spec fn eq_spec(&self, other: &Scalar) -> bool {
        self@ == other@
    }
}

/// A copy of `v[start..end]`.
pub fn copy_range<T: Copy>(v: &[T], start: usize, end: usize) -> (r: Vec<T>)
    requires
        start <= end <= v@.len(),
    ensures
        r@ == v@.subrange(start as int, end as int),
{
    let mut r: Vec<T> = Vec::new();
    for i in start..end
        invariant
            start <= end <= v@.len(),
            r@ == v@.subrange(start as int, i as int),
    {
        r.push(v[i]);
        proof {
            assert(r@ =~= v@.subrange(start as int, i + 1));
        }
    }
    r
}

/// `ark_ff::batch_inversion`: every nonzero entry is replaced by its inverse,
/// zero entries are left alone.
#[verifier::external_body]
fn ark_batch_inversion(v: &mut Vec<Scalar>)
    ensures
        final(v)@.len() == old(v)@.len(),
        forall|i: int| 0 <= i < old(v)@.len() ==> {
            &&& old(v)@[i]@ == 0 ==> final(v)@[i]@ == 0
            &&& old(v)@[i]@ != 0 ==> fmul(old(v)@[i]@, final(v)@[i]@) == 1 && final(v)@[i]@ == finv(old(v)@[i]@)
        },
{
    let mut fr: Vec<Fr> = v.iter().map(|s| Fr::new(BigInt::new(s.limbs))).collect();
    ark_ff::batch_inversion(&mut fr);
    *v = fr.iter().map(|x| Scalar { limbs: x.into_bigint().0 }).collect();
}

/// `ark_ff::batch_inversion`: every nonzero entry is replaced by its inverse,
/// zero entries are left alone.
pub fn batch_inversion(v: &mut Vec<Scalar>)
    ensures
        final(v)@.len() == old(v)@.len(),
        forall|i: int| 0 <= i < old(v)@.len() ==> {
            &&& old(v)@[i]@ == 0 ==> final(v)@[i]@ == 0
            &&& old(v)@[i]@ != 0 ==> fmul(old(v)@[i]@, final(v)@[i]@) == 1 && final(v)@[i]@ == finv(old(v)@[i]@)
        },
{
    ark_batch_inversion(v)
}

/// Dividing `a + 2^m b` by `2^j` for `j < m` leaves the same low bit as
/// dividing `a`.
proof fn lemma_div_low_bit(a: nat, b: nat, m: nat, j: nat)
    requires
        j < m,
    ensures
        ((a + pow2(m) * b) / pow2(j)) % 2 == (a / pow2(j)) % 2,
{
    let d = (m - j) as nat;
    vstd::arithmetic::power2::lemma_pow2_adds(j, d);
    assert(j + d == m);
    vstd::arithmetic::power2::lemma_pow2_unfold(d);
    vstd::arithmetic::power2::lemma_pow2_pos(j);
    let pj = pow2(j) as int;
    let q = (a as int) / pj;
    let r = (a as int) % pj;
    vstd::arithmetic::div_mod::lemma_fundamental_div_mod(a as int, pj);
    let c = pow2((d - 1) as nat) as int * (b as int);
    assert(a + pow2(m) * b == pj * (q + 2 * c) + r) by (nonlinear_arith)
        requires
            a == pj * q + r,
            pow2(m) == pj * pow2(d),
            pow2(d) == 2 * pow2((d - 1) as nat),
            c == pow2((d - 1) as nat) as int * (b as int),
    ;
    vstd::arithmetic::div_mod::lemma_mod_bound(a as int, pj);
    vstd::arithmetic::div_mod::lemma_fundamental_div_mod_converse((a + pow2(m) * b) as int, pj, q + 2 * c, r);
    vstd::arithmetic::div_mod::lemma_mod_multiples_vanish(c, q, 2);
    assert(q + 2 * c == 2 * c + q);
}

/// Dividing `a + 2^m b` with `a < 2^m` by `2^j` for `j >= m` is dividing
/// `b` by `2^(j - m)`.
proof fn lemma_div_high_part(a: nat, b: nat, m: nat, j: nat)
    requires
        m <= j,
        a < pow2(m),
    ensures
        (a + pow2(m) * b) / pow2(j) == b / pow2((j - m) as nat),
{
    let d = (j - m) as nat;
    vstd::arithmetic::power2::lemma_pow2_adds(m, d);
    assert(m + d == j);
    vstd::arithmetic::power2::lemma_pow2_pos(m);
    vstd::arithmetic::power2::lemma_pow2_pos(d);
    let v = (a + pow2(m) * b) as int;
    vstd::arithmetic::div_mod::lemma_fundamental_div_mod_converse(v, pow2(m) as int, b as int, a as int);
    vstd::arithmetic::div_mod::lemma_div_denominator(v, pow2(m) as int, pow2(d) as int);
}

/// Bit `i` of a scalar is bit `i` of its value: `(s / 2^i) mod 2`.
pub proof fn lemma_bit_of_value(s: Scalar, i: nat)
    ensures
        s.spec_bit(i) <==> (s@ / pow2(i)) % 2 == 1,
{
    let l = s.limbs;
    let b = limb_base();
    vstd::arithmetic::power2::lemma2_to64();
    vstd::arithmetic::power2::lemma2_to64_rest();
    assert(pow2(64) == b);
    let v3 = l[3] as nat;
    let v2 = (l[2] + b * v3) as nat;
    let v1 = (l[1] + b * v2) as nat;
    let v = (l[0] + b * v1) as nat;
    assert(s@ == v);
    vstd::arithmetic::power2::lemma_pow2_pos(i);
    if i >= 256 {
        vstd::arithmetic::power2::lemma_pow2_adds(64, 64);
        vstd::arithmetic::power2::lemma_pow2_adds(128, 128);
        assert(v < pow2(128) * pow2(128)) by (nonlinear_arith)
            requires
                v == l[0] + b * v1,
                v1 == l[1] + b * v2,
                v2 == l[2] + b * v3,
                v3 == l[3] as nat,
                l[0] < b,
                l[1] < b,
                l[2] < b,
                l[3] < b,
                pow2(128) == b * b,
        ;
        assert(pow2(128 + 128) == pow2(256));
        if i > 256 {
            vstd::arithmetic::power2::lemma_pow2_strictly_increases(256, i);
        }
        vstd::arithmetic::div_mod::lemma_basic_div(v as int, pow2(i) as int);
    } else {
        let q = i / 64;
        let r = i % 64;
        let (limb, vq): (u64, nat) = if q == 0 {
            lemma_div_low_bit(l[0] as nat, v1, 64, i);
            (l[0], 0)
        } else if q == 1 {
            lemma_div_high_part(l[0] as nat, v1, 64, i);
            lemma_div_low_bit(l[1] as nat, v2, 64, r);
            (l[1], 0)
        } else if q == 2 {
            lemma_div_high_part(l[0] as nat, v1, 64, i);
            lemma_div_high_part(l[1] as nat, v2, 64, (i - 64) as nat);
            lemma_div_low_bit(l[2] as nat, v3, 64, r);
            (l[2], 0)
        } else {
            lemma_div_high_part(l[0] as nat, v1, 64, i);
            lemma_div_high_part(l[1] as nat, v2, 64, (i - 64) as nat);
            lemma_div_high_part(l[2] as nat, v3, 64, (i - 128) as nat);
            (l[3], 0)
        };
        assert((s@ / pow2(i)) % 2 == (limb as nat / pow2(r)) % 2);
        vstd::bits::lemma_u64_shr_is_div(limb, r as u64);
        let sh = limb >> (r as u64);
        assert((sh & 1 == 1) <==> (sh % 2 == 1)) by (bit_vector);
    }
}

/// The value of the low `k` bits of a scalar, bit by bit.
pub open spec fn low_bits_value(s: Scalar, k: nat) -> nat
    decreases k,
{
    if k == 0 {
        0
    } else {
        low_bits_value(s, (k - 1) as nat) + if s.spec_bit((k - 1) as nat) {
            pow2((k - 1) as nat)
        } else {
            0
        }
    }
}

/// A scalar is the sum of its bits: the low `k` bits make `s mod 2^k`, and
/// all 256 of them make `s`.
pub proof fn lemma_bits_make_value(s: Scalar, k: nat)
    ensures
        low_bits_value(s, k) == s@ % pow2(k),
        k >= 256 ==> low_bits_value(s, k) == s@,
    decreases k,
{
    if k == 0 {
        vstd::arithmetic::power2::lemma2_to64();
        assert(s@ % 1 == 0);
    } else {
        let k1 = (k - 1) as nat;
        lemma_bits_make_value(s, k1);
        lemma_bit_of_value(s, k1);
        vstd::arithmetic::power2::lemma_pow2_pos(k1);
        vstd::arithmetic::power2::lemma_pow2_unfold(k);
        let p1 = pow2(k1) as int;
        let x = s@ as int;
        vstd::arithmetic::div_mod::lemma_mod_breakdown(x, p1, 2);
        assert(p1 * 2 == pow2(k));
        let bq = (x / p1) % 2;
        vstd::arithmetic::div_mod::lemma_mod_bound(x / p1, 2);
        assert(x % (pow2(k) as int) == p1 * bq + x % p1);
        if s.spec_bit(k1) {
            assert(bq == 1);
            assert(p1 * bq == p1) by (nonlinear_arith)
                requires
                    bq == 1,
            ;
        } else {
            assert(bq == 0);
            assert(p1 * bq == 0) by (nonlinear_arith)
                requires
                    bq == 0,
            ;
        }
    }
    if k >= 256 {
        lemma_bit_of_value(s, 256);
        let b = limb_base();
        vstd::arithmetic::power2::lemma2_to64();
        vstd::arithmetic::power2::lemma2_to64_rest();
        vstd::arithmetic::power2::lemma_pow2_adds(64, 64);
        vstd::arithmetic::power2::lemma_pow2_adds(128, 128);
        let l = s.limbs;
        let v3 = l[3] as nat;
        let v2 = (l[2] + b * v3) as nat;
        let v1 = (l[1] + b * v2) as nat;
        assert(s@ < pow2(128) * pow2(128)) by (nonlinear_arith)
            requires
                s@ == l[0] + b * v1,
                v1 == l[1] + b * v2,
                v2 == l[2] + b * v3,
                v3 == l[3] as nat,
                l[0] < b,
                l[1] < b,
                l[2] < b,
                l[3] < b,
                pow2(128) == b * b,
                pow2(64) == b,
        ;
        assert(pow2(128 + 128) == pow2(256));
        if k > 256 {
            vstd::arithmetic::power2::lemma_pow2_strictly_increases(256, k);
        }
        vstd::arithmetic::div_mod::lemma_small_mod(s@, pow2(k));
    }
}

} // verus!
