//! Univariate polynomials over the scalar field, radix-2 evaluation domains,
//! and the small helpers the prover, verifier and preprocessing share.
//!
//! A `Poly` holds its coefficients, lowest degree first. FFTs over a domain
//! are done by `ark_poly`.

use vstd::prelude::*;
use crate::field::{Scalar, vals, fadd, fsub, fmul, fpow, finv, modulus, batch_inversion};
use ark_bls12_381::Fr;
use ark_ff::{BigInt, PrimeField};
use ark_poly::{EvaluationDomain, Radix2EvaluationDomain};

verus! {

/// `n` is a power of two.
pub open spec fn is_pow2(n: nat) -> bool
    decreases n,
{
    if n == 1 {
        true
    } else if n == 0 || n % 2 == 1 {
        false
    } else {
        is_pow2(n / 2)
    }
}

/// Twice a power of two is one.
pub proof fn lemma_pow2_double(p: nat)
    requires
        is_pow2(p),
    ensures
        is_pow2(2 * p),
        p >= 1,
{
    assert((2 * p) / 2 == p);
    assert((2 * p) % 2 == 0);
    if p == 0 {
        assert(!is_pow2(0));
    }
}

/// A power of two below another is at most half of it.
pub proof fn lemma_pow2_below(p: nat, q: nat)
    requires
        is_pow2(p),
        is_pow2(q),
        p < q,
    ensures
        2 * p <= q,
    decreases q,
{
    if p != 1 {
        assert(q != 1);
        lemma_pow2_below(p / 2, q / 2);
    }
}

/// The smallest power of two at least a power of two `n` is `n`.
pub proof fn lemma_pow2_ceil_exact(n: nat, size: nat)
    requires
        is_pow2(n),
        is_pow2(size),
        size >= n,
        size == 1 || size / 2 < n,
    ensures
        size == n,
{
    if n < size {
        lemma_pow2_below(n, size);
    }
}

proof fn lemma_pow2_of_exp(e: nat)
    ensures
        is_pow2(vstd::arithmetic::power2::pow2(e)),
    decreases e,
{
    if e == 0 {
        vstd::arithmetic::power2::lemma2_to64();
    } else {
        lemma_pow2_of_exp((e - 1) as nat);
        vstd::arithmetic::power2::lemma_pow2_unfold(e);
        lemma_pow2_double(vstd::arithmetic::power2::pow2((e - 1) as nat));
    }
}

/// The largest power of two a `usize` holds.
pub proof fn lemma_usize_top()
    ensures
        is_pow2((usize::MAX / 2 + 1) as nat),
{
    vstd::arithmetic::power2::lemma2_to64();
    vstd::arithmetic::power2::lemma2_to64_rest();
    if usize::BITS == 32 {
        lemma_pow2_of_exp(31);
    } else {
        lemma_pow2_of_exp(63);
    }
}

/// The largest domain `F_r` supports: `2^TWO_ADICITY`.
pub open spec fn max_domain_size() -> nat {
    4294967296
}

/// `log2(n)` for a power of two `n`.
pub open spec fn log2(n: nat) -> nat
    decreases n,
{
    if n <= 1 {
        0
    } else {
        1 + log2(n / 2)
    }
}

/// `x` squared `k` times in the field: `x^(2^k)`.
pub open spec fn square_times(x: nat, k: nat) -> nat
    decreases k,
{
    if k == 0 {
        x
    } else {
        square_times(fmul(x, x), (k - 1) as nat)
    }
}

/// The root of unity of order `3 * 2^32` in `F_r`: the field's generator `7`
/// raised to `(r - 1) / (3 * 2^32)`.
pub open spec fn large_subgroup_root() -> nat {
    fpow(7, ((modulus() - 1) as nat) / 4294967296 / 3)
}

/// The generator `Radix2EvaluationDomain::new` picks for the subgroup of
/// order `size`: `FftField::get_root_of_unity` cubes the large-subgroup root
/// (giving the `2^32`-th root of unity) and squares it `32 - log2(size)`
/// times.
#[verifier::opaque]
pub open spec fn spec_root_of_unity(size: nat) -> nat {
    square_times(fpow(large_subgroup_root(), 3), (32 - log2(size)) as nat)
}

/// Squaring `a + b` times is squaring `a` times, then `b` times.
proof fn lemma_square_times_add(x: nat, a: nat, b: nat)
    ensures
        square_times(x, a + b) == square_times(square_times(x, a), b),
    decreases a,
{
    if a > 0 {
        lemma_square_times_add(fmul(x, x), (a - 1) as nat, b);
        assert((a + b - 1) as nat == (a - 1) as nat + b);
    }
}

/// `log2` of a power of two at most `2^e` is at most `e`.
proof fn lemma_log2_le(n: nat, e: nat)
    requires
        n <= vstd::arithmetic::power2::pow2(e),
    ensures
        log2(n) <= e,
    decreases e,
{
    if n > 1 {
        if e == 0 {
            vstd::arithmetic::power2::lemma2_to64();
        } else {
            vstd::arithmetic::power2::lemma_pow2_unfold(e);
            lemma_log2_le(n / 2, (e - 1) as nat);
        }
    }
}

/// The generator of the subgroup of order `4n`, to the fourth, is the
/// generator of the subgroup of order `n`.
pub proof fn lemma_root_fourth_power(n: nat)
    requires
        is_pow2(n),
        4 * n <= max_domain_size(),
    ensures
        fpow(spec_root_of_unity(4 * n), 4) == spec_root_of_unity(n),
{
    reveal(spec_root_of_unity);
    lemma_pow2_double(n);
    assert((4 * n) / 2 == 2 * n);
    assert((2 * n) / 2 == n);
    assert(log2(2 * n) == 1 + log2(n));
    assert(log2(4 * n) == 1 + log2(2 * n));
    vstd::arithmetic::power2::lemma2_to64();
    lemma_log2_le(4 * n, 32);
    let k = (32 - log2(4 * n)) as nat;
    let x = fpow(large_subgroup_root(), 3);
    assert((32 - log2(n)) as nat == k + 2);
    lemma_square_times_add(x, k, 2);
    let y = square_times(x, k);
    crate::evaluation::lemma_fpow_reduced(large_subgroup_root(), 3);
    lemma_square_times_reduced(x, k);
    assert(square_times(y, 2) == square_times(fmul(y, y), 1));
    assert(square_times(fmul(y, y), 1) == square_times(fmul(fmul(y, y), fmul(y, y)), 0));
    crate::field::lemma_modulus_pos();
    vstd::arithmetic::div_mod::lemma_small_mod(y, modulus());
    assert(fpow(y, 0) == 1);
    assert(fpow(y, 1) == fmul(1, y));
    assert(fmul(1, y) == y);
    assert(fpow(y, 2) == fmul(y, y));
    assert(fpow(y, 3) == fmul(fmul(y, y), y));
    assert(fpow(y, 4) == fmul(fmul(fmul(y, y), y), y));
    crate::field::lemma_fmul_assoc(fmul(y, y), y, y);
}

/// Repeated squaring of a reduced element stays reduced.
proof fn lemma_square_times_reduced(x: nat, k: nat)
    requires
        x < modulus(),
    ensures
        square_times(x, k) < modulus(),
    decreases k,
{
    if k > 0 {
        crate::field::lemma_modulus_pos();
        vstd::arithmetic::div_mod::lemma_mod_bound((x * x) as int, modulus() as int);
        lemma_square_times_reduced(fmul(x, x), (k - 1) as nat);
    }
}

/// The first `size` entries of `s` (all of them when there are fewer): a
/// transform over `size` points reads its input resized to `size`.
pub open spec fn fit(s: Seq<nat>, size: nat) -> Seq<nat> {
    if s.len() <= size {
        s
    } else {
        s.subrange(0, size as int)
    }
}

/// Evaluation over the coset `offset * H`, `|H| = size`: entry `i` is the
/// value at `omega^i offset` of the polynomial made of the first `size`
/// coefficients.
#[verifier::opaque]
pub open spec fn spec_fft(size: nat, offset: nat, coeffs: Seq<nat>) -> Seq<nat> {
    Seq::new(size, |i: int| poly_eval(fit(coeffs, size), fmul(fpow(spec_root_of_unity(size), i as nat), offset)))
}

/// Interpolation over the coset `offset * H`, `|H| = size`: the `size`
/// reduced coefficients whose evaluation over the coset is `evals`, padded
/// with zeros (or cut) to `size` entries.
#[verifier::opaque]
pub open spec fn spec_ifft(size: nat, offset: nat, evals: Seq<nat>) -> Seq<nat> {
    choose|c: Seq<nat>|
        #![trigger spec_fft(size, offset, c)]
        c.len() == size && (forall|i: int| 0 <= i < size ==> c[i] < modulus()) && spec_fft(size, offset, c)
            == Seq::new(size, |i: int| coeff(evals, i))
}

/// A multiplicative subgroup `H` of size a power of two, or a coset of it.
#[derive(Clone, Copy, Debug)]
pub struct Domain {
    size: usize,
    group_gen: Scalar,
    offset: Scalar,
}

impl Domain {
    #[verifier::type_invariant]
    spec fn well_formed(self) -> bool {
        &&& is_pow2(self.size as nat)
        &&& self.size <= max_domain_size()
        &&& self.group_gen@ == spec_root_of_unity(self.size as nat)
        &&& fpow(self.group_gen@, self.size as nat) == 1
        &&& self.offset@ != 0
    }

    pub closed spec fn spec_size(self) -> nat {
        self.size as nat
    }

    pub closed spec fn spec_group_gen(self) -> nat {
        self.group_gen@
    }

    pub closed spec fn spec_offset(self) -> nat {
        self.offset@
    }

    /// Element `i` of the domain: `offset * omega^i`.
    pub open spec fn spec_element(self, i: nat) -> nat {
        fmul(fpow(self.spec_group_gen(), i), self.spec_offset())
    }

    /// The size is a power of two the field supports, the generator is the
    /// one arkworks picks, and the offset is nonzero.
    pub fn lemma_wf(&self)
        ensures
            is_pow2(self.spec_size()),
            1 <= self.spec_size() <= max_domain_size(),
            self.spec_size() <= usize::MAX / 2 + 1,
            self.spec_group_gen() == spec_root_of_unity(self.spec_size()),
            fpow(self.spec_group_gen(), self.spec_size()) == 1,
            self.spec_offset() != 0,
    {
        proof {
            use_type_invariant(self);
            lemma_usize_top();
            if self.size > usize::MAX / 2 + 1 {
                lemma_pow2_below((usize::MAX / 2 + 1) as nat, self.size as nat);
            }
        }
    }

    /// `Radix2EvaluationDomain::new`: the subgroup whose size is the smallest
    /// power of two at least `n`, when that power fits a `usize` and the
    /// field has such a subgroup, which it does exactly up to `2^32`. Its
    /// generator is the root of unity arkworks
    /// picks for that size, of order dividing the size.
    #[verifier::external_body]
    fn ark_new(n: usize) -> (r: Option<Domain>)
        ensures
            r is Some <==> (n <= max_domain_size() && n <= usize::MAX / 2 + 1),
            r matches Some(d) ==> {
                &&& is_pow2(d.spec_size())
                &&& d.spec_size() >= n
                &&& (d.spec_size() == 1 || d.spec_size() / 2 < n)
                &&& d.spec_offset() == 1
                &&& d.spec_group_gen() == spec_root_of_unity(d.spec_size())
                &&& fpow(d.spec_group_gen(), d.spec_size()) == 1
            },
    {
        let d = Radix2EvaluationDomain::<Fr>::new(n)?;
        Some(Domain {
            size: d.size(),
            group_gen: Scalar { limbs: d.group_gen().into_bigint().0 },
            offset: Scalar { limbs: d.coset_offset().into_bigint().0 },
        })
    }

    /// `Radix2EvaluationDomain::new`: the subgroup whose size is the smallest
    /// power of two at least `n`, when that power fits a `usize` and the
    /// field has such a subgroup, which it does exactly up to `2^32`. Its
    /// generator is the root of unity arkworks
    /// picks for that size, of order dividing the size.
    pub fn new(n: usize) -> (r: Option<Domain>)
        ensures
            r is Some <==> (n <= max_domain_size() && n <= usize::MAX / 2 + 1),
            r matches Some(d) ==> {
                &&& is_pow2(d.spec_size())
                &&& d.spec_size() >= n
                &&& (d.spec_size() == 1 || d.spec_size() / 2 < n)
                &&& d.spec_offset() == 1
                &&& d.spec_group_gen() == spec_root_of_unity(d.spec_size())
                &&& fpow(d.spec_group_gen(), d.spec_size()) == 1
            },
    {
        Self::ark_new(n)
    }

    /// The coset `offset * H`; `None` when `offset` is zero.
    pub fn get_coset(&self, offset: Scalar) -> (r: Option<Domain>)
        ensures
            r is None <==> offset@ == 0,
            r matches Some(d) ==> {
                &&& d.spec_size() == self.spec_size()
                &&& d.spec_group_gen() == self.spec_group_gen()
                &&& d.spec_offset() == offset@
            },
    {
        proof {
            use_type_invariant(self);
        }
        if offset.is_zero() {
            None
        } else {
            Some(Domain { size: self.size, group_gen: self.group_gen, offset })
        }
    }

    pub fn size(&self) -> (r: usize)
        ensures
            r == self.spec_size(),
    {
        self.size
    }

    pub fn group_gen(&self) -> (r: Scalar)
        ensures
            r@ == self.spec_group_gen(),
    {
        self.group_gen
    }

    /// `offset * omega^i`.
    pub fn element(&self, i: usize) -> (r: Scalar)
        ensures
            r@ == self.spec_element(i as nat),
    {
        let g = self.group_gen.pow(i as u64);
        g.times(&self.offset)
    }

    /// All elements, in order.
    pub fn elements(&self) -> (r: Vec<Scalar>)
        ensures
            r@.len() == self.spec_size(),
            forall|i: int| 0 <= i < r@.len() ==> (#[trigger] r@[i])@ == self.spec_element(i as nat),
    {
        let mut r: Vec<Scalar> = Vec::new();
        for i in 0..self.size
            invariant
                r@.len() == i,
                forall|j: int| 0 <= j < i ==> (#[trigger] r@[j])@ == self.spec_element(j as nat),
        {
            r.push(self.element(i));
        }
        r
    }

    /// `tau^n - offset^n`, which is zero exactly on the domain.
    pub fn evaluate_vanishing_polynomial(&self, tau: &Scalar) -> (r: Scalar)
        ensures
            r@ == fsub(fpow(tau@, self.spec_size()), fpow(self.spec_offset(), self.spec_size())),
    {
        let a = tau.pow(self.size as u64);
        let b = self.offset.pow(self.size as u64);
        a.minus(&b)
    }

    /// Evaluations of the polynomial with coefficients `coeffs` over the
    /// domain (`EvaluationDomain::fft`). The result has one entry per element:
    /// when there are no more coefficients than elements, entry `i` is the
    /// polynomial's value at element `i`.
    #[verifier::external_body]
    fn ark_fft(&self, coeffs: &[Scalar]) -> (r: Vec<Scalar>)
        ensures
            r@.len() == self.spec_size(),
            vals(r@) == spec_fft(self.spec_size(), self.spec_offset(), vals(coeffs@)),
    {
        let offset = Fr::new(BigInt::new(self.offset.limbs));
        let d = Radix2EvaluationDomain::<Fr>::new(self.size).unwrap().get_coset(offset).unwrap();
        let c: Vec<Fr> = coeffs.iter().map(|s| Fr::new(BigInt::new(s.limbs))).collect();
        d.fft(&c).iter().map(|x| Scalar { limbs: x.into_bigint().0 }).collect()
    }

    /// Evaluations of the polynomial with coefficients `coeffs` over the
    /// domain (`EvaluationDomain::fft`). The result has one entry per element:
    /// when there are no more coefficients than elements, entry `i` is the
    /// polynomial's value at element `i`.
    pub fn fft(&self, coeffs: &[Scalar]) -> (r: Vec<Scalar>)
        ensures
            r@.len() == self.spec_size(),
            vals(r@) == spec_fft(self.spec_size(), self.spec_offset(), vals(coeffs@)),
            coeffs@.len() <= self.spec_size() ==> forall|i: int|
                0 <= i < self.spec_size() ==> #[trigger] vals(r@)[i] == poly_eval(vals(coeffs@), self.spec_element(i as nat)),
    {
        let r = self.ark_fft(coeffs);
        proof {
            use_type_invariant(self);
            reveal(spec_fft);
            if coeffs@.len() <= self.spec_size() {
                assert forall|i: int| 0 <= i < self.spec_size() implies #[trigger] vals(r@)[i] == poly_eval(
                    vals(coeffs@),
                    self.spec_element(i as nat),
                ) by {
                    assert(vals(r@)[i] == spec_fft(self.spec_size(), self.spec_offset(), vals(coeffs@))[i]);
                }
            }
        }
        r
    }

    /// Coefficients of the polynomial taking the values `evals` over the
    /// domain (`EvaluationDomain::ifft`), missing values taken as zero. The
    /// result has one entry per element.
    #[verifier::external_body]
    fn ark_ifft(&self, evals: &[Scalar]) -> (r: Vec<Scalar>)
        ensures
            r@.len() == self.spec_size(),
            vals(r@) == spec_ifft(self.spec_size(), self.spec_offset(), vals(evals@)),
            evals@.len() <= self.spec_size() ==> forall|i: int|
                0 <= i < self.spec_size() ==> #[trigger] poly_eval(vals(r@), self.spec_element(i as nat)) == coeff(
                    vals(evals@),
                    i,
                ),
    {
        let offset = Fr::new(BigInt::new(self.offset.limbs));
        let d = Radix2EvaluationDomain::<Fr>::new(self.size).unwrap().get_coset(offset).unwrap();
        let e: Vec<Fr> = evals.iter().map(|s| Fr::new(BigInt::new(s.limbs))).collect();
        d.ifft(&e).iter().map(|x| Scalar { limbs: x.into_bigint().0 }).collect()
    }

    /// Coefficients of the polynomial taking the values `evals` over the
    /// domain (`EvaluationDomain::ifft`), missing values taken as zero. The
    /// result has one entry per element.
    pub fn ifft(&self, evals: &[Scalar]) -> (r: Vec<Scalar>)
        ensures
            r@.len() == self.spec_size(),
            vals(r@) == spec_ifft(self.spec_size(), self.spec_offset(), vals(evals@)),
            evals@.len() <= self.spec_size() ==> forall|i: int|
                0 <= i < self.spec_size() ==> #[trigger] poly_eval(vals(r@), self.spec_element(i as nat)) == coeff(
                    vals(evals@),
                    i,
                ),
    {
        self.ark_ifft(evals)
    }
}

/// Coefficient `i`, zero past the end.
pub open spec fn coeff(s: Seq<nat>, i: int) -> nat {
    if 0 <= i < s.len() {
        s[i]
    } else {
        0
    }
}

/// `s` without its trailing zero coefficients.
pub open spec fn trim(s: Seq<nat>) -> Seq<nat>
    decreases s.len(),
{
    if s.len() > 0 && s.last() == 0 {
        trim(s.drop_last())
    } else {
        s
    }
}

/// Every coefficient is zero.
pub open spec fn poly_is_zero(s: Seq<nat>) -> bool {
    forall|i: int| 0 <= i < s.len() ==> s[i] == 0
}

/// Horner evaluation: `s[0] + z * (s[1] + z * (...))` in the field.
pub open spec fn poly_eval(s: Seq<nat>, z: nat) -> nat
    decreases s.len(),
{
    if s.len() == 0 {
        0
    } else {
        fadd(fmul(poly_eval(s.drop_first(), z), z), s[0])
    }
}

pub open spec fn max_len(a: Seq<nat>, b: Seq<nat>) -> nat {
    if a.len() >= b.len() {
        a.len()
    } else {
        b.len()
    }
}

/// `a + b`.
pub open spec fn poly_add(a: Seq<nat>, b: Seq<nat>) -> Seq<nat> {
    trim(Seq::new(max_len(a, b), |i: int| fadd(coeff(a, i), coeff(b, i))))
}

/// `a - b`.
pub open spec fn poly_sub(a: Seq<nat>, b: Seq<nat>) -> Seq<nat> {
    trim(Seq::new(max_len(a, b), |i: int| fsub(coeff(a, i), coeff(b, i))))
}

/// `a * k`: zero when either is zero, else every coefficient scaled.
pub open spec fn poly_scale(a: Seq<nat>, k: nat) -> Seq<nat> {
    if poly_is_zero(a) || k == 0 {
        Seq::empty()
    } else {
        Seq::new(a.len(), |i: int| fmul(a[i], k))
    }
}

/// `a * (X^n - 1)`.
pub open spec fn poly_mul_vanishing(a: Seq<nat>, n: nat) -> Seq<nat> {
    trim(Seq::new(n + a.len(), |i: int| fsub(coeff(a, i - n), coeff(a, i))))
}

pub proof fn lemma_trim_props(s: Seq<nat>)
    ensures
        trim(s).len() <= s.len(),
        trim(s) == s.subrange(0, trim(s).len() as int),
        trim(s).len() == 0 || trim(s).last() != 0,
        forall|i: int| trim(s).len() <= i < s.len() ==> s[i] == 0,
    decreases s.len(),
{
    if s.len() > 0 && s.last() == 0 {
        lemma_trim_props(s.drop_last());
        assert(s.drop_last().subrange(0, trim(s).len() as int) =~= s.subrange(0, trim(s).len() as int));
        assert forall|i: int| trim(s).len() <= i < s.len() implies s[i] == 0 by {
            if i < s.len() - 1 {
                assert(s.drop_last()[i] == s[i]);
            }
        }
    } else {
        assert(s.subrange(0, s.len() as int) =~= s);
    }
}

#[derive(Clone, Debug, PartialEq, Eq)]
pub struct Poly {
    coeffs: Vec<Scalar>,
}

impl View for Poly {
    type V = Seq<nat>;

    closed spec fn view(&self) -> Seq<nat> {
        vals(self.coeffs@)
    }
}

impl Poly {
    pub closed spec fn spec_coeffs(self) -> Seq<Scalar> {
        self.coeffs@
    }

    /// The coefficients, lowest degree first, without trailing zeros.
    pub fn from_coefficients_vec(coeffs: Vec<Scalar>) -> (r: Poly)
        ensures
            r@ == trim(vals(coeffs@)),
            r.spec_coeffs() == coeffs@.subrange(0, r@.len() as int),
    {
        let mut c = coeffs;
        let ghost orig = c@;
        proof {
            assert(c@.subrange(0, c@.len() as int) =~= orig);
        }
        while c.len() > 0 && c[c.len() - 1].is_zero()
            invariant
                c@.len() <= orig.len(),
                c@ == orig.subrange(0, c@.len() as int),
                trim(vals(c@)) == trim(vals(orig)),
            decreases c@.len(),
        {
            let ghost before = c@;
            c.pop();
            proof {
                assert(vals(before).drop_last() =~= vals(c@));
                assert(c@ =~= orig.subrange(0, c@.len() as int));
            }
        }
        proof {
            assert(trim(vals(c@)) == vals(c@));
        }
        Poly { coeffs: c }
    }

    pub fn from_coefficients_slice(coeffs: &[Scalar]) -> (r: Poly)
        ensures
            r@ == trim(vals(coeffs@)),
    {
        let mut v: Vec<Scalar> = Vec::new();
        for i in 0..coeffs.len()
            invariant
                v@ == coeffs@.subrange(0, i as int),
        {
            v.push(coeffs[i]);
            proof {
                assert(v@ =~= coeffs@.subrange(0, i + 1));
            }
        }
        proof {
            assert(v@ =~= coeffs@);
        }
        Self::from_coefficients_vec(v)
    }

    pub fn zero() -> (r: Poly)
        ensures
            r@ == Seq::<nat>::empty(),
    {
        Poly { coeffs: Vec::new() }
    }

    pub fn coeffs(&self) -> (r: &[Scalar])
        ensures
            r@ == self.spec_coeffs(),
            vals(r@) == self@,
    {
        self.coeffs.as_slice()
    }

    pub fn is_zero(&self) -> (r: bool)
        ensures
            r == poly_is_zero(self@),
    {
        let n = self.coeffs.len();
        for i in 0..n
            invariant
                n == self@.len(),
                forall|j: int| 0 <= j < i ==> self@[j] == 0,
        {
            if !self.coeffs[i].is_zero() {
                assert(self@[i as int] == self.coeffs@[i as int]@);
                return false;
            }
        }
        true
    }

    /// Zero for the zero polynomial, else one less than the number of
    /// coefficients.
    pub fn degree(&self) -> (r: usize)
        ensures
            r == if poly_is_zero(self@) {
                0
            } else {
                (self@.len() - 1) as nat
            },
    {
        if self.is_zero() {
            0
        } else {
            self.coeffs.len() - 1
        }
    }

    /// The value at `z`, by Horner's rule.
    pub fn evaluate(&self, z: &Scalar) -> (r: Scalar)
        ensures
            r@ == poly_eval(self@, z@),
    {
        let n = self.coeffs.len();
        let mut acc = Scalar::zero();
        let mut i = n;
        proof {
            assert(self@.subrange(n as int, n as int) =~= Seq::<nat>::empty());
        }
        while i > 0
            invariant
                n == self@.len(),
                0 <= i <= n,
                acc@ == poly_eval(self@.subrange(i as int, n as int), z@),
            decreases i,
        {
            i = i - 1;
            proof {
                let s = self@.subrange(i as int, n as int);
                assert(s.drop_first() =~= self@.subrange(i + 1, n as int));
                assert(s[0] == self@[i as int]);
            }
            acc = acc.times(z).plus(&self.coeffs[i]);
        }
        proof {
            assert(self@.subrange(0, n as int) =~= self@);
        }
        acc
    }

    /// Coefficient `i`, zero past the end.
    fn coeff_at(&self, i: usize) -> (r: Scalar)
        ensures
            r@ == coeff(self@, i as int),
    {
        if i < self.coeffs.len() {
            self.coeffs[i]
        } else {
            Scalar::zero()
        }
    }

    /// `self + other`.
    pub fn plus(&self, other: &Poly) -> (r: Poly)
        ensures
            r@ == poly_add(self@, other@),
    {
        let n = if self.coeffs.len() >= other.coeffs.len() {
            self.coeffs.len()
        } else {
            other.coeffs.len()
        };
        let mut v: Vec<Scalar> = Vec::new();
        for i in 0..n
            invariant
                n == max_len(self@, other@),
                v@.len() == i,
                forall|j: int| 0 <= j < i ==> (#[trigger] v@[j])@ == fadd(coeff(self@, j), coeff(other@, j)),
        {
            v.push(self.coeff_at(i).plus(&other.coeff_at(i)));
        }
        proof {
            assert(vals(v@) =~= Seq::new(n as nat, |i: int| fadd(coeff(self@, i), coeff(other@, i))));
        }
        Self::from_coefficients_vec(v)
    }

    /// `self - other`.
    pub fn minus(&self, other: &Poly) -> (r: Poly)
        ensures
            r@ == poly_sub(self@, other@),
    {
        let n = if self.coeffs.len() >= other.coeffs.len() {
            self.coeffs.len()
        } else {
            other.coeffs.len()
        };
        let mut v: Vec<Scalar> = Vec::new();
        for i in 0..n
            invariant
                n == max_len(self@, other@),
                v@.len() == i,
                forall|j: int| 0 <= j < i ==> (#[trigger] v@[j])@ == fsub(coeff(self@, j), coeff(other@, j)),
        {
            v.push(self.coeff_at(i).minus(&other.coeff_at(i)));
        }
        proof {
            assert(vals(v@) =~= Seq::new(n as nat, |i: int| fsub(coeff(self@, i), coeff(other@, i))));
        }
        Self::from_coefficients_vec(v)
    }

    /// `self * k`.
    pub fn scale(&self, k: &Scalar) -> (r: Poly)
        ensures
            r@ == poly_scale(self@, k@),
    {
        if self.is_zero() || k.is_zero() {
            return Poly::zero();
        }
        let n = self.coeffs.len();
        let mut v: Vec<Scalar> = Vec::new();
        for i in 0..n
            invariant
                n == self@.len(),
                v@.len() == i,
                forall|j: int| 0 <= j < i ==> (#[trigger] v@[j])@ == fmul(self@[j], k@),
        {
            v.push(self.coeffs[i].times(k));
        }
        proof {
            assert(vals(v@) =~= Seq::new(n as nat, |i: int| fmul(self@[i], k@)));
        }
        Poly { coeffs: v }
    }

    /// `self * (X^n - 1)`, the product with the vanishing polynomial of a
    /// subgroup of size `n`.
    pub fn mul_by_vanishing_poly(&self, n: usize) -> (r: Poly)
        requires
            n + self@.len() <= usize::MAX,
        ensures
            r@ == poly_mul_vanishing(self@, n as nat),
    {
        let len = self.coeffs.len();
        let mut v: Vec<Scalar> = Vec::new();
        for i in 0..n + len
            invariant
                len == self@.len(),
                n + len <= usize::MAX,
                v@.len() == i,
                forall|j: int| 0 <= j < i ==> (#[trigger] v@[j])@ == fsub(coeff(self@, j - n), coeff(self@, j)),
        {
            let hi = if i >= n { self.coeff_at(i - n) } else { Scalar::zero() };
            v.push(hi.minus(&self.coeff_at(i)));
        }
        proof {
            assert(vals(v@) =~= Seq::new((n + len) as nat, |i: int| fsub(coeff(self@, i - n), coeff(self@, i))));
        }
        Self::from_coefficients_vec(v)
    }
}

/// Interpolate evaluations over the domain.
pub fn interpolate(domain: &Domain, evals: &[Scalar]) -> (r: Poly)
    ensures
        r@ == trim(spec_ifft(domain.spec_size(), domain.spec_offset(), vals(evals@))),
        r@.len() <= domain.spec_size(),
        evals@.len() <= domain.spec_size() ==> forall|i: int|
            0 <= i < domain.spec_size() ==> #[trigger] poly_eval(r@, domain.spec_element(i as nat)) == coeff(
                vals(evals@),
                i,
            ),
{
    let c = domain.ifft(evals);
    proof {
        lemma_trim_props(vals(c@));
        assert forall|i: int| 0 <= i < domain.spec_size() implies #[trigger] poly_eval(trim(vals(c@)), domain.spec_element(i as nat))
            == poly_eval(vals(c@), domain.spec_element(i as nat)) by {
            crate::evaluation::lemma_eval_trim(vals(c@), domain.spec_element(i as nat));
        }
    }
    Poly::from_coefficients_vec(c)
}

/// `L_0(zeta)` : `(zeta^n - 1) / (n (zeta - 1))`,
/// zero where the denominator is.
pub open spec fn spec_l0(n: nat, zeta: nat) -> nat {
    let den = fmul(n, fsub(zeta, 1));
    if den == 0 {
        0
    } else {
        fmul(fsub(fpow(zeta, n), 1), finv(den))
    }
}

/// `zeta^n`, `Z_H(zeta) = zeta^n - 1` and `L_0(zeta)`.
///
/// `Z_H(zeta)` is zero exactly when `zeta` is in the domain; `L_0` is then
/// reported as zero (it's really undefined at `zeta = 1`) and the caller
/// must bail out on `Z_H(zeta) == 0`.
pub fn vanishing_at(n: usize, zeta: &Scalar) -> (r: (Scalar, Scalar, Scalar))
    ensures
        r.0@ == fpow(zeta@, n as nat),
        r.1@ == fsub(r.0@, 1),
        r.2@ == spec_l0(n as nat, zeta@),
{
    let zeta_n = zeta.pow(n as u64);
    let z_h = zeta_n.minus(&Scalar::one());
    let den = Scalar::from_u64(n as u64).times(&zeta.minus(&Scalar::one()));
    let l0 = match den.inverse() {
        Some(inv) => z_h.times(&inv),
        None => Scalar::zero(),
    };
    (zeta_n, z_h, l0)
}

/// `L_i(zeta) = omega^i (zeta^n - 1) / (n (zeta - omega^i))` for
/// `i < count`, with one batch inversion. `zeta` must not be in the domain;
/// where it is, the entry comes out zero.
pub fn lagrange_at(domain: &Domain, zeta: &Scalar, count: usize) -> (r: Vec<Scalar>)
    ensures
        r@.len() == count,
        forall|i: int|
            0 <= i < count ==> {
                let e = domain.spec_element(i as nat);
                let z_h = fsub(fpow(zeta@, domain.spec_size()), 1);
                let den = fsub(zeta@, e);
                (#[trigger] r@[i])@ == fmul(
                    fmul(fmul(e, z_h), finv(domain.spec_size())),
                    if den == 0 { 0 } else { finv(den) },
                )
            },
{
    domain.lemma_wf();
    let n = domain.size();
    let z_h = zeta.pow(n as u64).minus(&Scalar::one());
    let n_scalar = Scalar::from_u64(n as u64);
    let n_inv = match n_scalar.inverse() {
        Some(x) => x,
        None => Scalar::zero(),
    };
    let mut denoms: Vec<Scalar> = Vec::new();
    for i in 0..count
        invariant
            denoms@.len() == i,
            forall|j: int| 0 <= j < i ==> (#[trigger] denoms@[j])@ == fsub(zeta@, domain.spec_element(j as nat)),
    {
        denoms.push(zeta.minus(&domain.element(i)));
    }
    let ghost before = denoms@;
    batch_inversion(&mut denoms);
    let mut out: Vec<Scalar> = Vec::new();
    for i in 0..count
        invariant
            denoms@.len() == count,
            before.len() == count,
            n as nat == domain.spec_size(),
            n_inv@ == finv(domain.spec_size()),
            z_h@ == fsub(fpow(zeta@, domain.spec_size()), 1),
            forall|j: int| 0 <= j < count ==> (#[trigger] before[j])@ == fsub(zeta@, domain.spec_element(j as nat)),
            forall|j: int| 0 <= j < count ==> {
                &&& (#[trigger] before[j])@ == 0 ==> denoms@[j]@ == 0
                &&& before[j]@ != 0 ==> denoms@[j]@ == finv(before[j]@)
            },
            out@.len() == i,
            forall|j: int|
                0 <= j < i ==> {
                    let e = domain.spec_element(j as nat);
                    let den = fsub(zeta@, e);
                    (#[trigger] out@[j])@ == fmul(
                        fmul(fmul(e, z_h@), finv(domain.spec_size())),
                        if den == 0 { 0 } else { finv(den) },
                    )
                },
    {
        proof {
            assert(before[i as int]@ == fsub(zeta@, domain.spec_element(i as nat)));
        }
        out.push(domain.element(i).times(&z_h).times(&n_inv).times(&denoms[i]));
    }
    out
}

} // verus!
