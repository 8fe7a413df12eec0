//! KZG polynomial commitments over BLS12-381.
//!
//! `Srs::setup` is a plain powers-of-tau with the secret sampled locally,
//! which is only fine for tests. `Srs::from_ceremony_text` reads the output
//! of the Ethereum KZG ceremony instead, in the text format c-kzg ships.

use vstd::prelude::*;
use crate::field::{Scalar, vals, fadd, field_dot, fmul, fneg, fpow, fsub, modulus, lemma_modulus_pos, copy_range};
use crate::evaluation::{
    coeffs_of, horner, lemma_cong_add, lemma_cong_mul, lemma_dot_powers, lemma_eval_horner, lemma_eval_reduced, lemma_eval_step,
    lemma_fpow_reduced, lemma_horner_add, lemma_horner_cong, lemma_horner_pad, lemma_horner_scale,
};
use crate::curve::{
    G1, G2, g1_msm, g1_views, pairing_check, spec_g1_add, spec_g1_gen_mul, spec_g1_msm, spec_g1_mul,
    spec_g1_neg, spec_g2_gen_mul, spec_pairing_check,
};
use crate::poly::{Poly, coeff, max_len, poly_eval, poly_is_zero, trim};
use ark_std::rand::RngCore;

verus! {

/// Structured reference string: `[1, tau, tau^2, ..., tau^d]` in G1 and `[1, tau]` in G2.
#[derive(Clone, Debug)]
pub struct Srs {
    pub powers_of_g: Vec<G1>,
    pub h: G2,
    pub tau_h: G2,
}

/// Everything the verifier needs from the SRS.
#[derive(Clone, Copy, Debug, PartialEq, Eq)]
pub struct VerifierKey {
    pub g: G1,
    pub h: G2,
    pub tau_h: G2,
}

#[derive(Clone, Copy, Debug, PartialEq, Eq)]
pub struct Commitment(pub G1);

/// Witness `[(p(X) - p(z)) / (X - z)]_1` for an evaluation at `z`.
#[derive(Clone, Copy, Debug, PartialEq, Eq)]
pub struct OpeningProof(pub G1);

/// A claimed opening: commitment, point, value, proof.
#[derive(Clone, Copy, Debug)]
pub struct Opening {
    pub comm: Commitment,
    pub point: Scalar,
    pub value: Scalar,
    pub proof: OpeningProof,
}

#[derive(Clone, Debug, PartialEq, Eq)]
pub enum SrsError {
    Parse(String),
    /// The powers aren't consecutive powers of the same `tau` as `tau_h`.
    Inconsistent,
}

/// The quotient of synthetic division of `c` by `X - z`: coefficient `i` is
/// the value at `z` of the tail `c[i+1..]`.
pub open spec fn synth_quotient(c: Seq<nat>, z: nat) -> Seq<nat> {
    Seq::new((c.len() - 1) as nat, |i: int| poly_eval(c.subrange(i + 1, c.len() as int), z))
}

/// `p(x) = q(x) (x - z) + p(z)` modulo the field's order, for the quotient
/// `q` of synthetic division by `X - z`.
proof fn lemma_division_cong(p: Seq<nat>, z: nat, x: nat)
    requires
        p.len() >= 1,
    ensures
        (poly_eval(p, x) as int) % (modulus() as int) == (poly_eval(synth_quotient(p, z), x) * (x - z) + poly_eval(p, z))
            % (modulus() as int),
    decreases p.len(),
{
    let m = modulus() as int;
    lemma_modulus_pos();
    let q = synth_quotient(p, z);
    let t = p.drop_first();
    lemma_eval_step(p, x);
    lemma_eval_step(p, z);
    if p.len() == 1 {
        assert(q.len() == 0);
        assert(t.len() == 0);
        assert(poly_eval(t, x) == 0 && poly_eval(t, z) == 0 && poly_eval(q, x) == 0);
        assert(0 * x == 0 && 0 * z == 0 && 0 * (x - z) == 0) by (nonlinear_arith);
        vstd::arithmetic::div_mod::lemma_mod_twice(poly_eval(p, z) as int, m);
    } else {
        lemma_division_cong(t, z, x);
        let qt = synth_quotient(t, z);
        assert(q.drop_first() =~= qt) by {
            assert forall|i: int| 0 <= i < qt.len() implies q.drop_first()[i] == qt[i] by {
                assert(p.subrange(i + 2, p.len() as int) =~= t.subrange(i + 1, t.len() as int));
            }
        }
        assert(p.subrange(1, p.len() as int) =~= t);
        assert(q[0] == poly_eval(t, z));
        lemma_eval_step(q, x);
        let (a, b, c0) = (poly_eval(qt, x) as int, poly_eval(t, z) as int, p[0] as int);
        let et = poly_eval(t, x) as int;
        // p(x) = t(x) x + c0 = (a (x - z) + b) x + c0
        lemma_cong_mul(et, a * (x - z) + b, x as int);
        lemma_cong_add(et * x, (a * (x - z) + b) * x, c0, c0);
        // q(x) (x - z) + p(z) = (a x + b)(x - z) + b z + c0
        let eq = poly_eval(q, x) as int;
        lemma_cong_mul(eq, a * x + b, x - z);
        let ez = poly_eval(p, z) as int;
        lemma_cong_add(eq * (x - z), (a * x + b) * (x - z), ez, b * z + c0);
        assert((a * (x - z) + b) * x + c0 == (a * x + b) * (x - z) + (b * z + c0)) by (nonlinear_arith);
    }
}

/// Synthetic division is exact: `p = q (X - z) + p(z)` for the quotient `q`,
/// the remainder being `p`'s value at `z`.
pub proof fn lemma_division_identity(p: Seq<nat>, z: nat, x: nat)
    requires
        p.len() >= 1,
    ensures
        poly_eval(p, x) == fadd(fmul(poly_eval(synth_quotient(p, z), x), fsub(x, z)), poly_eval(p, z)),
{
    let m = modulus() as int;
    lemma_modulus_pos();
    lemma_division_cong(p, z, x);
    let eq = poly_eval(synth_quotient(p, z), x) as int;
    let ez = poly_eval(p, z) as int;
    let d = x as int - z as int;
    // fsub(x, z) is d reduced
    vstd::arithmetic::div_mod::lemma_mod_twice(d, m);
    lemma_cong_mul(d % m, d, eq);
    assert(eq * (d % m) == (d % m) * eq) by (nonlinear_arith);
    assert(eq * d == d * eq) by (nonlinear_arith);
    lemma_cong_mul((eq * (d % m)) % m, eq * d, 1);
    vstd::arithmetic::div_mod::lemma_mod_twice(eq * (d % m), m);
    lemma_cong_add((eq * (d % m)) % m, eq * d, ez, ez);
    lemma_eval_reduced(p, x);
    vstd::arithmetic::div_mod::lemma_small_mod(poly_eval(p, x), modulus());
}

/// `a + f * b`, without trailing zeros.
pub open spec fn poly_add_scaled(a: Seq<nat>, f: nat, b: Seq<nat>) -> Seq<nat> {
    trim(Seq::new(max_len(a, b), |i: int| fadd(coeff(a, i), fmul(f, coeff(b, i)))))
}

/// `sum_{i < k} gamma^i p_i`.
pub open spec fn fold_polys(polys: Seq<Seq<nat>>, gamma: nat, k: nat) -> Seq<nat>
    decreases k,
{
    if k == 0 || k > polys.len() {
        Seq::empty()
    } else {
        poly_add_scaled(fold_polys(polys, gamma, (k - 1) as nat), fpow(gamma, (k - 1) as nat), polys[k - 1])
    }
}

pub open spec fn poly_views(polys: Seq<&Poly>) -> Seq<Seq<nat>> {
    polys.map_values(|p: &Poly| p@)
}

/// The KZG pairing equation for `(C, z, v, W)`:
/// `e(C - v G + z W, H) * e(-W, tau H) == 1`.
pub open spec fn kzg_check(vk: VerifierKey, c: Seq<u8>, z: nat, v: nat, w: Seq<u8>) -> bool {
    spec_pairing_check(
        spec_g1_add(spec_g1_add(c, spec_g1_neg(spec_g1_mul(vk.g@, v))), spec_g1_mul(w, z)),
        spec_g1_neg(w),
        vk.h@,
        vk.tau_h@,
    )
}

/// `sum_{i < k} gamma^i C_i`, starting from the identity.
pub open spec fn fold_comms(comms: Seq<Commitment>, gamma: nat, k: nat) -> Seq<u8>
    decreases k,
{
    if k == 0 || k > comms.len() {
        spec_g1_gen_mul(0)
    } else {
        spec_g1_add(fold_comms(comms, gamma, (k - 1) as nat), spec_g1_mul(comms[k - 1].0@, fpow(gamma, (k - 1) as nat)))
    }
}

/// `sum_{i < k} gamma^i v_i`.
pub open spec fn fold_values(values: Seq<Scalar>, gamma: nat, k: nat) -> nat
    decreases k,
{
    if k == 0 || k > values.len() {
        0
    } else {
        fadd(fold_values(values, gamma, (k - 1) as nat), fmul(values[k - 1]@, fpow(gamma, (k - 1) as nat)))
    }
}

/// `C - v G + z W` for one opening.
pub open spec fn opening_term(vk: VerifierKey, o: Opening) -> Seq<u8> {
    spec_g1_add(spec_g1_add(o.comm.0@, spec_g1_neg(spec_g1_mul(vk.g@, o.value@))), spec_g1_mul(o.proof.0@, o.point@))
}

/// `sum_{i < k} u^i (C_i - v_i G + z_i W_i)`.
pub open spec fn fold_opening_terms(vk: VerifierKey, os: Seq<Opening>, u: nat, k: nat) -> Seq<u8>
    decreases k,
{
    if k == 0 || k > os.len() {
        spec_g1_gen_mul(0)
    } else {
        spec_g1_add(fold_opening_terms(vk, os, u, (k - 1) as nat), spec_g1_mul(opening_term(vk, os[k - 1]), fpow(u, (k - 1) as nat)))
    }
}

/// `sum_{i < k} u^i W_i`.
pub open spec fn fold_opening_proofs(os: Seq<Opening>, u: nat, k: nat) -> Seq<u8>
    decreases k,
{
    if k == 0 || k > os.len() {
        spec_g1_gen_mul(0)
    } else {
        spec_g1_add(fold_opening_proofs(os, u, (k - 1) as nat), spec_g1_mul(os[k - 1].proof.0@, fpow(u, (k - 1) as nat)))
    }
}

/// `a + f * b`, without trailing zeros.
pub fn add_scaled(a: &Poly, f: &Scalar, b: &Poly) -> (r: Poly)
    ensures
        r@ == poly_add_scaled(a@, f@, b@),
{
    let ac = a.coeffs();
    let bc = b.coeffs();
    let n = if ac.len() >= bc.len() {
        ac.len()
    } else {
        bc.len()
    };
    let mut v: Vec<Scalar> = Vec::new();
    for i in 0..n
        invariant
            vals(ac@) == a@,
            vals(bc@) == b@,
            n == max_len(a@, b@),
            v@.len() == i,
            forall|j: int| 0 <= j < i ==> (#[trigger] v@[j])@ == fadd(coeff(a@, j), fmul(f@, coeff(b@, j))),
    {
        let x = if i < ac.len() { ac[i] } else { Scalar::zero() };
        let y = if i < bc.len() { bc[i] } else { Scalar::zero() };
        proof {
            if i < ac.len() {
                assert(a@[i as int] == ac@[i as int]@);
            }
            if i < bc.len() {
                assert(b@[i as int] == bc@[i as int]@);
            }
        }
        v.push(x.plus(&f.times(&y)));
    }
    proof {
        assert(vals(v@) =~= Seq::new(n as nat, |i: int| fadd(coeff(a@, i), fmul(f@, coeff(b@, i)))));
    }
    Poly::from_coefficients_vec(v)
}

/// `sum_i gamma^i p_i`
pub fn fold(polys: &[&Poly], gamma: &Scalar) -> (r: Poly)
    ensures
        r@ == fold_polys(poly_views(polys@), gamma@, polys@.len() as nat),
{
    let mut acc = Poly::zero();
    let mut c = Scalar::one();
    for k in 0..polys.len()
        invariant
            acc@ == fold_polys(poly_views(polys@), gamma@, k as nat),
            c@ == fpow(gamma@, k as nat),
    {
        acc = add_scaled(&acc, &c, polys[k]);
        proof {
            assert(poly_views(polys@)[k as int] == polys@[k as int]@);
        }
        c = c.times(gamma);
    }
    acc
}

/// Divide `p` by `(X - z)`. Returns `(quotient, remainder)`; the remainder is `p(z)`.
pub fn divide_by_linear(p: &Poly, z: &Scalar) -> (r: (Poly, Scalar))
    ensures
        poly_is_zero(p@) ==> r.0@ == Seq::<nat>::empty() && r.1@ == 0,
        !poly_is_zero(p@) ==> r.0@ == trim(synth_quotient(p@, z@)) && r.1@ == poly_eval(p@, z@),
{
    if p.is_zero() {
        return (Poly::zero(), Scalar::zero());
    }
    let c = p.coeffs();
    let len = c.len();
    // Synthetic division, highest coefficient first.
    let mut q: Vec<Scalar> = vec![Scalar::zero(); len - 1];
    let mut carry = Scalar::zero();
    let mut i = len;
    proof {
        assert(c@.len() > 0);
        assert(p@.subrange(len as int, len as int) =~= Seq::<nat>::empty());
        assert(poly_eval(p@.subrange(len as int, len as int), z@) == 0);
        assert(fmul(0, z@) == 0);
    }
    while i > 1
        invariant
            vals(c@) == p@,
            len == c@.len(),
            len >= 1,
            1 <= i <= len,
            q@.len() == len - 1,
            carry@ == fmul(poly_eval(p@.subrange(i as int, len as int), z@), z@),
            forall|j: int| i - 1 <= j < len - 1 ==> (#[trigger] q@[j])@ == poly_eval(p@.subrange(j + 1, len as int), z@),
        decreases i,
    {
        i = i - 1;
        let v = c[i].plus(&carry);
        proof {
            let s = p@.subrange(i as int, len as int);
            assert(s.drop_first() =~= p@.subrange(i + 1, len as int));
            assert(s[0] == c@[i as int]@);
            assert(v@ == poly_eval(s, z@));
        }
        q.set(i - 1, v);
        carry = v.times(z);
    }
    let v = c[0].plus(&carry);
    proof {
        let s = p@.subrange(0, len as int);
        assert(s.drop_first() =~= p@.subrange(1, len as int));
        assert(s =~= p@);
        assert(s[0] == c@[0]@);
        assert(vals(q@) =~= synth_quotient(p@, z@));
    }
    (Poly::from_coefficients_vec(q), v)
}

/// The commitment to the polynomial with coefficients `p` under the G1
/// powers `powers`: `sum_i p_i powers_i`.
pub open spec fn commitment_of(powers: Seq<G1>, p: Seq<nat>) -> Seq<u8> {
    spec_g1_msm(g1_views(powers.subrange(0, p.len() as int)), p)
}

/// `c` is `[p(tau)]_1` for every `tau` whose powers the whole of `powers`
/// holds.
pub open spec fn commitment_matches(powers: Seq<G1>, c: Seq<u8>, p: Seq<nat>) -> bool {
    forall|tau: nat| #[trigger] powers_of_tau(powers, tau, powers.len()) ==> c == spec_g1_gen_mul(poly_eval(p, tau))
}

/// The first powers of the SRS are `[tau^i]_1`.
pub open spec fn powers_of_tau(powers: Seq<G1>, tau: nat, len: nat) -> bool {
    &&& tau < modulus()
    &&& len <= powers.len()
    &&& forall|i: int| 0 <= i < len ==> (#[trigger] powers[i])@ == spec_g1_gen_mul(fpow(tau, i as nat))
}

/// The opening equation in the exponent: `c - v + w (z - tau) = 0`, for a
/// commitment `[c]_1`, a claimed value `v` at `z` and a proof `[w]_1`.
pub open spec fn opening_equation(c: nat, z: nat, v: nat, w: nat, tau: nat) -> bool {
    (c - v + w * (z - tau)) % (modulus() as int) == 0
}

/// The consistency check of `from_powers` with the random weights `rs`:
/// `e(sum r_i g_i, tau h) * e(-sum r_i g_{i+1}, h) == 1`.
pub open spec fn powers_consistent(powers: Seq<Seq<u8>>, h: Seq<u8>, tau_h: Seq<u8>, rs: Seq<nat>) -> bool {
    spec_pairing_check(
        spec_g1_msm(powers.subrange(0, rs.len() as int), rs),
        spec_g1_neg(spec_g1_msm(powers.subrange(1, powers.len() as int), rs)),
        tau_h,
        h,
    )
}

/// The G1 points are `[s tau^i]_1`, `h` is `[e]_2` and `t` is `[e tau]_2`:
/// each G1 point is `tau` times the one before it, and `t` is `tau` times
/// `h`, over the base points `[s]_1` and `[e]_2`.
pub open spec fn powers_with_base(g: Seq<Seq<u8>>, h: Seq<u8>, t: Seq<u8>, tau: nat, s: nat, e: nat) -> bool {
    &&& tau < modulus()
    &&& s < modulus()
    &&& e < modulus()
    &&& forall|i: int| 0 <= i < g.len() ==> #[trigger] g[i] == spec_g1_gen_mul(fmul(s, fpow(tau, i as nat)))
    &&& h == spec_g2_gen_mul(e)
    &&& t == spec_g2_gen_mul(fmul(e, tau))
}

/// The points are powers of one `tau` over some base points (`setup` takes
/// the curve's generators as the bases).
pub open spec fn tau_powers(g: Seq<Seq<u8>>, h: Seq<u8>, t: Seq<u8>) -> bool {
    exists|tau: nat, s: nat, e: nat| #[trigger] powers_with_base(g, h, t, tau, s, e)
}

/// `(s x)(e tau) - (s tau x) e = 0`: the two sides of the consistency
/// check agree on powers of `tau`.
proof fn lemma_shifted_terms_cancel(s: nat, x: nat, tau: nat, e: nat)
    ensures
        fadd(fmul(fmul(s, x), fmul(e, tau)), fmul(fneg(fmul(s, fmul(tau, x))), e)) == 0,
{
    let m = modulus() as int;
    lemma_modulus_pos();
    let si = s as int;
    let xi = x as int;
    let ti = tau as int;
    let ei = e as int;
    let a = fmul(s, x) as int;
    let b = fmul(e, tau) as int;
    let d = fmul(s, fmul(tau, x)) as int;
    let nd = fneg(fmul(s, fmul(tau, x))) as int;
    let k = si * xi * ei * ti;
    vstd::arithmetic::div_mod::lemma_mod_twice(si * xi, m);
    vstd::arithmetic::div_mod::lemma_mod_twice(ei * ti, m);
    crate::evaluation::lemma_cong_mul2(a, si * xi, b, ei * ti);
    assert((si * xi) * (ei * ti) == k) by (nonlinear_arith)
        requires
            k == si * xi * ei * ti,
    ;
    vstd::arithmetic::div_mod::lemma_mod_twice(ti * xi, m);
    crate::evaluation::lemma_cong_mul2(si, si, fmul(tau, x) as int, ti * xi);
    vstd::arithmetic::div_mod::lemma_mod_twice(si * fmul(tau, x), m);
    vstd::arithmetic::div_mod::lemma_sub_mod_noop(0, d, m);
    vstd::arithmetic::div_mod::lemma_sub_mod_noop(0, si * (ti * xi), m);
    vstd::arithmetic::div_mod::lemma_mod_twice(0 - d, m);
    lemma_cong_mul(nd, 0 - d, ei);
    lemma_cong_mul(0 - d, 0 - si * (ti * xi), ei);
    assert((0 - si * (ti * xi)) * ei == 0 - k) by (nonlinear_arith)
        requires
            k == si * xi * ei * ti,
    ;
    vstd::arithmetic::div_mod::lemma_mod_twice(a * b, m);
    vstd::arithmetic::div_mod::lemma_mod_twice(nd * ei, m);
    lemma_cong_add((a * b) % m, k, (nd * ei) % m, 0 - k);
    vstd::arithmetic::div_mod::lemma_small_mod(0, modulus());
}

/// The consistency check in the exponent, for G1 points `[xs_i]_1`,
/// `h = [e]_2`, `tau_h = [f]_2` and weights `w` (one per consecutive pair):
/// `(sum_i w_i x_i) f - (sum_i w_i x_{i+1}) e`.
pub open spec fn check_exponent(xs: Seq<nat>, w: Seq<nat>, e: nat, f: nat) -> nat {
    fadd(
        fmul(field_dot(w, xs.subrange(0, w.len() as int)), f),
        fmul(fneg(field_dot(w, xs.subrange(1, xs.len() as int))), e),
    )
}

/// The G1 points are `[xs_i]_1`, `h = [e]_2` and `tau_h = [e tau]_2` with `e`
/// invertible, and every consecutive pair but the `j`-th is `tau` apart:
/// `x_{i+1} = tau x_i`. Nothing is said of the `j`-th pair.
pub open spec fn powers_but_one(
    g: Seq<Seq<u8>>,
    h: Seq<u8>,
    t: Seq<u8>,
    xs: Seq<nat>,
    e: nat,
    tau: nat,
    j: int,
) -> bool {
    &&& g.len() >= 2
    &&& xs.len() == g.len()
    &&& 0 <= j < g.len() - 1
    &&& e < modulus()
    &&& tau < modulus()
    &&& crate::prover::invertible(e)
    &&& forall|i: int| 0 <= i < g.len() ==> xs[i] < modulus() && #[trigger] g[i] == spec_g1_gen_mul(xs[i])
    &&& h == spec_g2_gen_mul(e)
    &&& t == spec_g2_gen_mul(fmul(e, tau))
    &&& forall|i: int| 0 <= i < g.len() - 1 && i != j ==> #[trigger] xs[i + 1] == fmul(tau, xs[i])
}

/// Congruent minuends and subtrahends give congruent differences.
proof fn lemma_cong_sub(a: int, b: int, c: int, d: int)
    requires
        a % (modulus() as int) == b % (modulus() as int),
        c % (modulus() as int) == d % (modulus() as int),
    ensures
        (a - c) % (modulus() as int) == (b - d) % (modulus() as int),
{
    lemma_modulus_pos();
    let m = modulus() as int;
    vstd::arithmetic::div_mod::lemma_sub_mod_noop(a, c, m);
    vstd::arithmetic::div_mod::lemma_sub_mod_noop(b, d, m);
}

/// Two weighted sums whose factors agree but at `j` differ by the weight at
/// `j` times the difference there.
proof fn lemma_dot_one_differs(w: Seq<nat>, a: Seq<nat>, b: Seq<nat>, j: int)
    requires
        a.len() == w.len(),
        b.len() == w.len(),
        0 <= j < w.len(),
        forall|i: int| 0 <= i < w.len() && i != j ==> #[trigger] a[i] == b[i],
    ensures
        (field_dot(w, a) - field_dot(w, b)) % (modulus() as int) == (w[j] * (a[j] - b[j])) % (modulus() as int),
    decreases w.len(),
{
    lemma_modulus_pos();
    let m = modulus() as int;
    let (w1, a1, b1) = (w.drop_first(), a.drop_first(), b.drop_first());
    let (da, db) = (field_dot(w1, a1) as int, field_dot(w1, b1) as int);
    let (wa, wb) = ((w[0] * a[0]) as int, (w[0] * b[0]) as int);
    // each sum is congruent to its head product plus the rest
    vstd::arithmetic::div_mod::lemma_mod_twice(wa, m);
    vstd::arithmetic::div_mod::lemma_mod_twice(wb, m);
    lemma_cong_add(fmul(w[0], a[0]) as int, wa, da, da);
    lemma_cong_add(fmul(w[0], b[0]) as int, wb, db, db);
    vstd::arithmetic::div_mod::lemma_mod_twice(fmul(w[0], a[0]) + da, m);
    vstd::arithmetic::div_mod::lemma_mod_twice(fmul(w[0], b[0]) + db, m);
    lemma_cong_sub(field_dot(w, a) as int, wa + da, field_dot(w, b) as int, wb + db);
    if j == 0 {
        assert(a1 =~= b1);
        assert(wa + da - (wb + db) == w[0] * (a[0] - b[0])) by (nonlinear_arith)
            requires
                wa == w[0] * a[0],
                wb == w[0] * b[0],
                da == db,
        ;
    } else {
        assert forall|i: int| 0 <= i < w1.len() && i != j - 1 implies #[trigger] a1[i] == b1[i] by {
            assert(a[i + 1] == b[i + 1]);
        }
        lemma_dot_one_differs(w1, a1, b1, j - 1);
        assert(a[0] == b[0]);
        vstd::arithmetic::div_mod::lemma_mod_twice(da - db, m);
        lemma_cong_add(0, 0, da - db, w1[j - 1] * (a1[j - 1] - b1[j - 1]));
        assert(wa + da - (wb + db) == 0 + (da - db));
    }
}

/// The consistency check catches any one bad power: when every consecutive
/// pair but the `j`-th is `tau` apart, `tau_h`'s exponent is `tau` times
/// `h`'s, and `h`'s exponent and the `j`-th weight have inverses, the check
/// passes exactly when the `j`-th pair is `tau` apart too.
pub proof fn lemma_check_catches_bad_power(xs: Seq<nat>, w: Seq<nat>, e: nat, tau: nat, j: int)
    requires
        xs.len() >= 2,
        w.len() == xs.len() - 1,
        0 <= j < w.len(),
        forall|i: int| 0 <= i < xs.len() ==> #[trigger] xs[i] < modulus(),
        forall|i: int| 0 <= i < w.len() && i != j ==> #[trigger] xs[i + 1] == fmul(tau, xs[i]),
        crate::prover::invertible(e),
        crate::prover::invertible(w[j]),
    ensures
        check_exponent(xs, w, e, fmul(e, tau)) == 0 <==> xs[j + 1] == fmul(tau, xs[j]),
{
    lemma_modulus_pos();
    let m = modulus() as int;
    let n = xs.len();
    let lo = xs.subrange(0, w.len() as int);
    let hi = xs.subrange(1, n as int);
    let tlo = Seq::new(lo.len(), |i: int| fmul(tau, lo[i]));
    crate::evaluation::lemma_dot_scaled(w, lo, tau);
    assert forall|i: int| 0 <= i < w.len() && i != j implies #[trigger] tlo[i] == hi[i] by {
        assert(xs[i + 1] == fmul(tau, xs[i]));
    }
    lemma_dot_one_differs(w, tlo, hi, j);
    let d = field_dot(w, lo) as int;
    let u = field_dot(w, hi) as int;
    let ei = e as int;
    let ti = tau as int;
    let y = fmul(tau, xs[j]) - xs[j + 1];
    let wj = w[j] as int;
    // the check is e (tau d - u)
    let f = fmul(e, tau);
    vstd::arithmetic::div_mod::lemma_mod_twice(ei * ti, m);
    crate::evaluation::lemma_cong_mul2(d, d, f as int, ei * ti);
    vstd::arithmetic::div_mod::lemma_mod_twice(d * f, m);
    vstd::arithmetic::div_mod::lemma_mod_twice(0 - u, m);
    lemma_cong_mul(fneg(u as nat) as int, 0 - u, ei);
    vstd::arithmetic::div_mod::lemma_mod_twice(fneg(u as nat) * ei, m);
    lemma_cong_add(fmul(d as nat, f) as int, d * (ei * ti), fmul(fneg(u as nat), e) as int, (0 - u) * ei);
    let c = check_exponent(xs, w, e, f) as int;
    vstd::arithmetic::div_mod::lemma_mod_twice((fmul(d as nat, f) + fmul(fneg(u as nat), e)) as int, m);
    assert(d * (ei * ti) + (0 - u) * ei == ei * (ti * d - u)) by (nonlinear_arith);
    // tau d - u is congruent to w_j y
    vstd::arithmetic::div_mod::lemma_mod_twice(ti * d, m);
    lemma_cong_sub(fmul(tau, d as nat) as int, ti * d, u, u);
    crate::evaluation::lemma_cong_mul2(ei, ei, ti * d - u, fmul(tau, d as nat) - u);
    crate::evaluation::lemma_cong_mul2(ei, ei, fmul(tau, d as nat) - u, wj * y);
    assert(c % m == (ei * (wj * y)) % m);
    vstd::arithmetic::div_mod::lemma_mod_bound(c, m);
    vstd::arithmetic::div_mod::lemma_small_mod(c as nat, modulus());
    crate::kzg::lemma_reduced_mul(tau, xs[j]);
    if y == 0 {
        assert(ei * (wj * y) == 0) by (nonlinear_arith)
            requires
                y == 0,
        ;
        vstd::arithmetic::div_mod::lemma_small_mod(0, modulus());
    }
    if c == 0 {
        // multiply by the inverses of e and w_j
        let (eiv, wiv) = (crate::field::finv(e) as int, crate::field::finv(w[j]) as int);
        vstd::arithmetic::div_mod::lemma_small_mod(0, modulus());
        lemma_cong_mul(ei * (wj * y), 0, eiv * wiv);
        assert(0 * (eiv * wiv) == 0);
        assert(ei * (wj * y) * (eiv * wiv) == (ei * eiv) * ((wj * wiv) * y)) by (nonlinear_arith);
        vstd::arithmetic::div_mod::lemma_small_mod(1, modulus());
        crate::evaluation::lemma_cong_mul2(ei * eiv, 1, (wj * wiv) * y, (wj * wiv) * y);
        lemma_cong_mul(wj * wiv, 1, y);
        assert(1 * ((wj * wiv) * y) == (wj * wiv) * y && 1 * y == y) by (nonlinear_arith);
        assert(y % m == 0);
        if y > 0 {
            vstd::arithmetic::div_mod::lemma_small_mod(y as nat, modulus());
        } else if y < 0 {
            vstd::arithmetic::div_mod::lemma_mod_add_multiples_vanish(y, m);
            vstd::arithmetic::div_mod::lemma_small_mod((y + m) as nat, modulus());
        }
    }
}

impl Srs {
    /// The SRS for the secret `tau`: `[tau^i] G1` for `i <= max_degree`,
    /// the G2 generator and `[tau] G2`.
    pub fn setup_with_tau(max_degree: usize, tau: &Scalar) -> (r: Srs)
        requires
            max_degree < usize::MAX,
        ensures
            r.powers_of_g@.len() == max_degree + 1,
            forall|i: int| 0 <= i <= max_degree ==> (#[trigger] r.powers_of_g@[i])@ == spec_g1_gen_mul(fpow(tau@, i as nat)),
            r.h@ == spec_g2_gen_mul(1),
            r.tau_h@ == spec_g2_gen_mul(tau@),
    {
        let mut powers_of_g: Vec<G1> = Vec::new();
        let mut cur = Scalar::one();
        let mut i: usize = 0;
        while i <= max_degree
            invariant
                max_degree < usize::MAX,
                0 <= i <= max_degree + 1,
                powers_of_g@.len() == i,
                cur@ == fpow(tau@, i as nat),
                forall|j: int| 0 <= j < i ==> (#[trigger] powers_of_g@[j])@ == spec_g1_gen_mul(fpow(tau@, j as nat)),
            decreases max_degree + 1 - i,
        {
            powers_of_g.push(G1::generator_times(&cur));
            cur = cur.times(tau);
            i = i + 1;
        }
        Srs { powers_of_g, h: G2::generator_times(&Scalar::one()), tau_h: G2::generator_times(tau) }
    }

    /// Build from points produced elsewhere, checking them with the weights
    /// `rs` (one per consecutive pair of powers):
    /// `e(sum r_i g_i, tau h) == e(sum r_i g_{i+1}, h)` says every
    /// `g_{i+1} = tau g_i`, and `h, tau_h` match.
    #[verifier::spinoff_prover]
    #[verifier::rlimit(40)]
    pub fn from_powers_with(powers_of_g: Vec<G1>, h: G2, tau_h: G2, rs: &[Scalar]) -> (r: Result<Srs, SrsError>)
        requires
            powers_of_g@.len() >= 2 ==> rs@.len() == powers_of_g@.len() - 1,
        ensures
            r matches Err(SrsError::Parse(_)) <==> powers_of_g@.len() < 2,
            powers_of_g@.len() >= 2 ==> (r is Ok <==> powers_consistent(g1_views(powers_of_g@), h@, tau_h@, vals(rs@))),
            r matches Ok(s) ==> s.powers_of_g@ == powers_of_g@ && s.h == h && s.tau_h == tau_h,
            powers_of_g@.len() >= 2 && tau_powers(g1_views(powers_of_g@), h@, tau_h@) ==> r is Ok,
            forall|xs: Seq<nat>, e: nat, tau: nat, j: int|
                #[trigger] powers_but_one(g1_views(powers_of_g@), h@, tau_h@, xs, e, tau, j) && crate::prover::invertible(
                    vals(rs@)[j],
                ) ==> (r is Ok <==> xs[j + 1] == fmul(tau, xs[j])),
    {
        if powers_of_g.len() < 2 {
            return Err(SrsError::Parse("need at least two G1 powers".to_owned()));
        }
        let n = powers_of_g.len();
        let lo_bases = copy_range(powers_of_g.as_slice(), 0, rs.len());
        let hi_bases = copy_range(powers_of_g.as_slice(), 1, n);
        let lo = g1_msm(lo_bases.as_slice(), rs);
        let hi = g1_msm(hi_bases.as_slice(), rs);
        proof {
            assert(g1_views(lo_bases@) =~= g1_views(powers_of_g@).subrange(0, rs@.len() as int));
            assert(g1_views(hi_bases@) =~= g1_views(powers_of_g@).subrange(1, n as int));
        }
        let nhi = hi.negate();
        let ok = pairing_check(&lo, &nhi, &tau_h, &h);
        proof {
            let g = g1_views(powers_of_g@);
            let w = vals(rs@);
            assert forall|xs: Seq<nat>, e: nat, tau: nat, j: int|
                #[trigger] powers_but_one(g, h@, tau_h@, xs, e, tau, j) && crate::prover::invertible(w[j]) implies (ok
                <==> xs[j + 1] == fmul(tau, xs[j])) by {
                let e0 = xs.subrange(0, w.len() as int);
                let e1 = xs.subrange(1, n as int);
                assert forall|i: int| 0 <= i < e0.len() implies e0[i] < modulus() && lo_bases@[i]@ == spec_g1_gen_mul(e0[i]) by {
                    assert(g[i] == powers_of_g@[i]@);
                }
                assert forall|i: int| 0 <= i < e1.len() implies e1[i] < modulus() && hi_bases@[i]@ == spec_g1_gen_mul(e1[i]) by {
                    assert(g[i + 1] == powers_of_g@[i + 1]@);
                    assert(hi_bases@[i] == powers_of_g@[i + 1]);
                }
                let dv = field_dot(w, e0);
                let uv = field_dot(w, e1);
                assert(lo@ == spec_g1_gen_mul(dv));
                assert(hi@ == spec_g1_gen_mul(uv));
                lemma_modulus_pos();
                crate::evaluation::lemma_dot_reduced(w, e0);
                crate::evaluation::lemma_dot_reduced(w, e1);
                assert(nhi@ == spec_g1_gen_mul(fneg(uv)));
                lemma_reduced_neg(uv);
                lemma_reduced_mul(e, tau);
                assert(spec_g1_gen_mul(dv) == lo@ && spec_g1_gen_mul(fneg(uv)) == nhi@);
                assert(spec_g2_gen_mul(fmul(e, tau)) == tau_h@ && spec_g2_gen_mul(e) == h@);
                assert(ok <==> check_exponent(xs, w, e, fmul(e, tau)) == 0);
                assert forall|i: int| 0 <= i < xs.len() implies #[trigger] xs[i] < modulus() by {
                    assert(g[i] == spec_g1_gen_mul(xs[i]));
                }
                assert forall|i: int| 0 <= i < w.len() && i != j implies #[trigger] xs[i + 1] == fmul(tau, xs[i]) by {
                }
                lemma_check_catches_bad_power(xs, w, e, tau, j);
            }
        }
        proof {
            if tau_powers(g1_views(powers_of_g@), h@, tau_h@) {
                let g = g1_views(powers_of_g@);
                let (tau, s, e) = choose|tau: nat, s: nat, e: nat| #[trigger] powers_with_base(g, h@, tau_h@, tau, s, e);
                let w = vals(rs@);
                let p0 = Seq::new(w.len(), |i: int| fpow(tau, (i + 0) as nat));
                let p1 = Seq::new(w.len(), |i: int| fpow(tau, (i + 1) as nat));
                let e0 = Seq::new(p0.len(), |i: int| fmul(s, p0[i]));
                let e1 = Seq::new(p1.len(), |i: int| fmul(s, p1[i]));
                assert forall|i: int| 0 <= i < e0.len() implies e0[i] < modulus() && lo_bases@[i]@ == spec_g1_gen_mul(e0[i]) by {
                    assert(g[i] == powers_of_g@[i]@);
                    assert((i + 0) as nat == i as nat);
                    lemma_reduced_mul(s, p0[i]);
                }
                assert forall|i: int| 0 <= i < e1.len() implies e1[i] < modulus() && hi_bases@[i]@ == spec_g1_gen_mul(e1[i]) by {
                    assert(g[i + 1] == powers_of_g@[i + 1]@);
                    assert(hi_bases@[i] == powers_of_g@[i + 1]);
                    lemma_reduced_mul(s, p1[i]);
                }
                lemma_dot_powers(w, tau, 0);
                lemma_dot_powers(w, tau, 1);
                crate::evaluation::lemma_dot_scaled(w, p0, s);
                crate::evaluation::lemma_dot_scaled(w, p1, s);
                let ev = poly_eval(w, tau);
                lemma_modulus_pos();
                lemma_eval_reduced(w, tau);
                assert(1 * ev == ev && 1 * tau == tau) by (nonlinear_arith);
                vstd::arithmetic::div_mod::lemma_small_mod(ev, modulus());
                vstd::arithmetic::div_mod::lemma_small_mod(tau, modulus());
                assert(fpow(tau, 0) == 1);
                assert(fpow(tau, 1) == tau);
                let lv = fmul(s, ev);
                let hv = fmul(s, fmul(tau, ev));
                assert(field_dot(w, e0) == lv);
                assert(field_dot(w, e1) == hv);
                assert(lo@ == spec_g1_gen_mul(lv));
                assert(hi@ == spec_g1_gen_mul(hv));
                lemma_reduced_mul(s, ev);
                lemma_reduced_mul(s, fmul(tau, ev));
                lemma_reduced_mul(e, tau);
                lemma_reduced_neg(hv);
                assert(nhi@ == spec_g1_gen_mul(fneg(hv)));
                lemma_shifted_terms_cancel(s, ev, tau, e);
                assert(spec_g1_gen_mul(lv) == lo@ && spec_g1_gen_mul(fneg(hv)) == nhi@);
                assert(spec_g2_gen_mul(fmul(e, tau)) == tau_h@ && spec_g2_gen_mul(e) == h@);
            }
        }
        if !ok {
            return Err(SrsError::Inconsistent);
        }
        Ok(Srs { powers_of_g, h, tau_h })
    }

    /// Build from points produced elsewhere, checking them with weights
    /// drawn from `rng` (see [`Srs::from_powers_with`]).
    pub fn from_powers<R: RngCore>(powers_of_g: Vec<G1>, h: G2, tau_h: G2, rng: &mut R) -> (r: Result<Srs, SrsError>)
        ensures
            r matches Err(SrsError::Parse(_)) <==> powers_of_g@.len() < 2,
            powers_of_g@.len() >= 2 ==> exists|rs: Seq<nat>| {
                &&& rs.len() == powers_of_g@.len() - 1
                &&& (r is Ok <==> #[trigger] powers_consistent(g1_views(powers_of_g@), h@, tau_h@, rs))
            },
            r matches Ok(s) ==> s.powers_of_g@ == powers_of_g@ && s.h == h && s.tau_h == tau_h,
            powers_of_g@.len() >= 2 && tau_powers(g1_views(powers_of_g@), h@, tau_h@) ==> r is Ok,
            forall|xs: Seq<nat>, e: nat, tau: nat, j: int|
                #[trigger] powers_but_one(g1_views(powers_of_g@), h@, tau_h@, xs, e, tau, j) ==> (r is Ok <==> xs[j + 1]
                    == fmul(tau, xs[j])),
    {
        if powers_of_g.len() < 2 {
            return Err(SrsError::Parse("need at least two G1 powers".to_owned()));
        }
        // Every pair gets a weight with an inverse (a zero draw is replaced by
        // one), so no pair drops out of the check.
        let mut rs: Vec<Scalar> = Vec::new();
        for _i in 1..powers_of_g.len()
            invariant
                rs@.len() == _i - 1,
                forall|k: int| 0 <= k < rs@.len() ==> crate::prover::invertible(#[trigger] rs@[k]@),
        {
            let w = Scalar::random(rng);
            match w.inverse() {
                Some(_) => {
                    rs.push(w);
                },
                None => {
                    let one = Scalar::one();
                    proof {
                        lemma_modulus_pos();
                        assert(1 * 1 == 1);
                        vstd::arithmetic::div_mod::lemma_small_mod(1, modulus());
                        assert(fmul(1, 1) == 1);
                        assert(1 < modulus() && fmul(1, 1) == 1);
                        assert(fmul(1, crate::field::finv(1)) == 1);
                    }
                    rs.push(one);
                },
            }
        }
        proof {
            assert forall|k: int| 0 <= k < rs@.len() implies crate::prover::invertible(#[trigger] vals(rs@)[k]) by {
                assert(vals(rs@)[k] == rs@[k]@);
            }
        }
        let ghost w = vals(rs@);
        let r = Self::from_powers_with(powers_of_g, h, tau_h, rs.as_slice());
        proof {
            assert(r is Ok <==> powers_consistent(g1_views(powers_of_g@), h@, tau_h@, w));
        }
        r
    }

    /// Sample a fresh `tau` and compute powers up to `max_degree`, over the
    /// curve's standard generators so the result looks like a real ceremony's.
    pub fn setup<R: RngCore>(max_degree: usize, rng: &mut R) -> (r: Srs)
        requires
            max_degree < usize::MAX,
        ensures
            r.powers_of_g@.len() == max_degree + 1,
            exists|tau: nat| {
                &&& tau < modulus()
                &&& forall|i: int| 0 <= i <= max_degree ==> (#[trigger] r.powers_of_g@[i])@ == spec_g1_gen_mul(fpow(tau, i as nat))
                &&& r.h@ == spec_g2_gen_mul(1)
                &&& r.tau_h@ == #[trigger] spec_g2_gen_mul(tau)
            },
            tau_powers(g1_views(r.powers_of_g@), r.h@, r.tau_h@),
    {
        let tau = Scalar::random(rng);
        let r = Self::setup_with_tau(max_degree, &tau);
        tau.lemma_canonical();
        proof {
            assert(r.tau_h@ == spec_g2_gen_mul(tau@));
            lemma_modulus_pos();
            assert(1 * tau@ == tau@) by (nonlinear_arith);
            vstd::arithmetic::div_mod::lemma_small_mod(tau@, modulus());
            vstd::arithmetic::div_mod::lemma_small_mod(1, modulus());
            assert forall|i: int| 0 <= i < g1_views(r.powers_of_g@).len() implies #[trigger] g1_views(r.powers_of_g@)[i]
                == spec_g1_gen_mul(fmul(1, fpow(tau@, i as nat))) by {
                assert(g1_views(r.powers_of_g@)[i] == r.powers_of_g@[i]@);
                lemma_fpow_reduced(tau@, i as nat);
                assert(1 * fpow(tau@, i as nat) == fpow(tau@, i as nat)) by (nonlinear_arith);
                vstd::arithmetic::div_mod::lemma_small_mod(fpow(tau@, i as nat), modulus());
            }
            assert(powers_with_base(g1_views(r.powers_of_g@), r.h@, r.tau_h@, tau@, 1, 1));
        }
        r
    }

    pub fn max_degree(&self) -> (r: usize)
        requires
            self.powers_of_g@.len() >= 1,
        ensures
            r == self.powers_of_g@.len() - 1,
    {
        self.powers_of_g.len() - 1
    }

    pub fn verifier_key(&self) -> (r: VerifierKey)
        requires
            self.powers_of_g@.len() >= 1,
        ensures
            r.g == self.powers_of_g@[0],
            r.h == self.h,
            r.tau_h == self.tau_h,
    {
        VerifierKey { g: self.powers_of_g[0], h: self.h, tau_h: self.tau_h }
    }

    /// `sum_i p_i [tau^i]_1`. The polynomial must fit the SRS.
    pub fn commit(&self, p: &Poly) -> (r: Commitment)
        requires
            p@.len() <= self.powers_of_g@.len(),
        ensures
            r.0@ == commitment_of(self.powers_of_g@, p@),
            forall|tau: nat|
                #[trigger] powers_of_tau(self.powers_of_g@, tau, p@.len()) ==> r.0@ == spec_g1_gen_mul(poly_eval(p@, tau)),
            commitment_matches(self.powers_of_g@, r.0@, p@),
    {
        let c = p.coeffs();
        let bases = copy_range(self.powers_of_g.as_slice(), 0, c.len());
        let r = g1_msm(bases.as_slice(), c);
        proof {
            assert forall|tau: nat| #[trigger] powers_of_tau(self.powers_of_g@, tau, p@.len()) implies r@ == spec_g1_gen_mul(
                poly_eval(p@, tau),
            ) by {
                let e = Seq::new(p@.len(), |i: int| fpow(tau, (i + 0) as nat));
                lemma_modulus_pos();
                assert forall|i: int| 0 <= i < e.len() implies e[i] < modulus() && bases@[i]@ == spec_g1_gen_mul(e[i]) by {
                    assert((i + 0) as nat == i as nat);
                    lemma_fpow_reduced(tau, i as nat);
                }
                assert(vals(c@) == p@);
                lemma_dot_powers(p@, tau, 0);
                assert(field_dot(vals(c@), e) == fmul(fpow(tau, 0), poly_eval(p@, tau)));
                assert(r@ == spec_g1_gen_mul(field_dot(vals(c@), e)));
                assert(fpow(tau, 0) == 1);
                assert(1 * poly_eval(p@, tau) == poly_eval(p@, tau)) by (nonlinear_arith);
                assert(fmul(1, poly_eval(p@, tau)) == poly_eval(p@, tau) % modulus());
                lemma_eval_reduced(p@, tau);
                vstd::arithmetic::div_mod::lemma_small_mod(poly_eval(p@, tau), modulus());
            }
            assert forall|tau: nat| #[trigger] powers_of_tau(self.powers_of_g@, tau, self.powers_of_g@.len()) implies r@
                == spec_g1_gen_mul(poly_eval(p@, tau)) by {
                assert(powers_of_tau(self.powers_of_g@, tau, p@.len()));
            }
        }
        Commitment(r)
    }

    /// Evaluate `p` at `z` and produce the opening proof: the commitment to
    /// the quotient by `X - z`.
    pub fn open(&self, p: &Poly, z: &Scalar) -> (r: (Scalar, OpeningProof))
        requires
            p@.len() <= self.powers_of_g@.len(),
        ensures
            poly_is_zero(p@) ==> r.0@ == 0,
            !poly_is_zero(p@) ==> r.0@ == poly_eval(p@, z@),
            r.1.0@ == spec_g1_msm(
                g1_views(self.powers_of_g@.subrange(0, open_quotient(p@, z@).len() as int)),
                open_quotient(p@, z@),
            ),
            forall|tau: nat|
                #[trigger] powers_of_tau(self.powers_of_g@, tau, p@.len()) ==> r.1.0@ == spec_g1_gen_mul(
                    poly_eval(open_quotient(p@, z@), tau),
                ),
    {
        let (q, value) = divide_by_linear(p, z);
        proof {
            lemma_open_quotient_len(p@, z@);
        }
        let c = self.commit(&q);
        proof {
            assert forall|tau: nat| #[trigger] powers_of_tau(self.powers_of_g@, tau, p@.len()) implies c.0@
                == spec_g1_gen_mul(poly_eval(open_quotient(p@, z@), tau)) by {
                assert(powers_of_tau(self.powers_of_g@, tau, q@.len()));
            }
        }
        (value, OpeningProof(c.0))
    }

    /// Just the proof, when the caller already knows `p(z)`.
    pub fn open_at(&self, p: &Poly, z: &Scalar) -> (r: OpeningProof)
        requires
            p@.len() <= self.powers_of_g@.len(),
        ensures
            r.0@ == spec_g1_msm(
                g1_views(self.powers_of_g@.subrange(0, open_quotient(p@, z@).len() as int)),
                open_quotient(p@, z@),
            ),
            commitment_matches(self.powers_of_g@, r.0@, open_quotient(p@, z@)),
    {
        let r = self.open(p, z).1;
        proof {
            assert forall|tau: nat| #[trigger] powers_of_tau(self.powers_of_g@, tau, self.powers_of_g@.len()) implies r.0@
                == spec_g1_gen_mul(poly_eval(open_quotient(p@, z@), tau)) by {
                assert(powers_of_tau(self.powers_of_g@, tau, p@.len()));
            }
        }
        r
    }

    /// Open several polynomials at the same point with one proof.
    ///
    /// The verifier supplies a random `gamma`; the polynomials are folded into
    /// `sum_i gamma^i p_i` and that is opened once. The caller is expected to
    /// know (and send) the individual `p_i(z)`.
    pub fn open_batch(&self, polys: &[&Poly], z: &Scalar, gamma: &Scalar) -> (r: OpeningProof)
        requires
            forall|i: int| 0 <= i < polys@.len() ==> (#[trigger] polys@[i])@.len() <= self.powers_of_g@.len(),
        ensures
            r.0@ == spec_g1_msm(
                g1_views(self.powers_of_g@.subrange(
                    0,
                    open_quotient(fold_polys(poly_views(polys@), gamma@, polys@.len() as nat), z@).len() as int,
                )),
                open_quotient(fold_polys(poly_views(polys@), gamma@, polys@.len() as nat), z@),
            ),
            commitment_matches(
                self.powers_of_g@,
                r.0@,
                open_quotient(fold_polys(poly_views(polys@), gamma@, polys@.len() as nat), z@),
            ),
    {
        let f = fold(polys, gamma);
        proof {
            lemma_fold_len(poly_views(polys@), gamma@, polys@.len() as nat, self.powers_of_g@.len());
        }
        self.open_at(&f, z)
    }
}

/// The polynomial whose commitment opens `p` at `z`: the quotient of `p`
/// by `X - z` (zero for the zero polynomial).
pub open spec fn open_quotient(p: Seq<nat>, z: nat) -> Seq<nat> {
    if poly_is_zero(p) {
        Seq::empty()
    } else {
        trim(synth_quotient(p, z))
    }
}

proof fn lemma_trim_len(s: Seq<nat>)
    ensures
        trim(s).len() <= s.len(),
    decreases s.len(),
{
    if s.len() > 0 && s.last() == 0 {
        lemma_trim_len(s.drop_last());
    }
}

proof fn lemma_open_quotient_len(p: Seq<nat>, z: nat)
    ensures
        open_quotient(p, z).len() <= p.len(),
{
    if !poly_is_zero(p) {
        lemma_trim_len(synth_quotient(p, z));
    }
}

proof fn lemma_fold_len(polys: Seq<Seq<nat>>, gamma: nat, k: nat, bound: nat)
    requires
        forall|i: int| 0 <= i < polys.len() ==> (#[trigger] polys[i]).len() <= bound,
    ensures
        fold_polys(polys, gamma, k).len() <= bound,
    decreases k,
{
    if k > 0 && k <= polys.len() {
        lemma_fold_len(polys, gamma, (k - 1) as nat, bound);
        let a = fold_polys(polys, gamma, (k - 1) as nat);
        let b = polys[k - 1];
        lemma_trim_len(Seq::new(max_len(a, b), |i: int| fadd(coeff(a, i), fmul(fpow(gamma, (k - 1) as nat), coeff(b, i)))));
    }
}

/// Field operations give reduced values.
proof fn lemma_reduced(x: nat)
    ensures
        fmul(1, x) < modulus() && fmul(x, 1) < modulus(),
{
    lemma_modulus_pos();
    vstd::arithmetic::div_mod::lemma_mod_bound(x as int, modulus() as int);
}

pub(crate) proof fn lemma_reduced_mul(x: nat, y: nat)
    ensures
        fmul(x, y) < modulus(),
{
    lemma_modulus_pos();
    vstd::arithmetic::div_mod::lemma_mod_bound((x * y) as int, modulus() as int);
}

pub(crate) proof fn lemma_reduced_neg(x: nat)
    ensures
        fneg(x) < modulus(),
{
    lemma_modulus_pos();
    vstd::arithmetic::div_mod::lemma_mod_bound(0 - x, modulus() as int);
}

pub(crate) proof fn lemma_reduced_add(x: nat, y: nat)
    ensures
        fadd(x, y) < modulus(),
{
    lemma_modulus_pos();
    vstd::arithmetic::div_mod::lemma_mod_bound((x + y) as int, modulus() as int);
}

/// The pairing check of `verify`, in the exponent: with `L = c - v + w z`,
/// `L * 1 + (-w) * tau = 0` is the opening equation.
proof fn lemma_opening_in_exponent(c: nat, z: nat, v: nat, w: nat, tau: nat)
    ensures
        (fadd(fmul(fadd(fadd(c, fneg(fmul(1, v))), fmul(w, z)), 1), fmul(fneg(w), tau)) == 0) <==> opening_equation(
            c,
            z,
            v,
            w,
            tau,
        ),
{
    let m = modulus() as int;
    lemma_modulus_pos();
    let v1 = fmul(1, v) as int;
    let nv = fneg(fmul(1, v)) as int;
    let l1 = fadd(c, fneg(fmul(1, v))) as int;
    let wz = fmul(w, z) as int;
    let l = fadd(fadd(c, fneg(fmul(1, v))), fmul(w, z)) as int;
    let l_one = fmul(fadd(fadd(c, fneg(fmul(1, v))), fmul(w, z)), 1) as int;
    let nw = fneg(w) as int;
    let nwt = fmul(fneg(w), tau) as int;
    let x = fadd(fmul(fadd(fadd(c, fneg(fmul(1, v))), fmul(w, z)), 1), fmul(fneg(w), tau)) as int;
    let target = c - v + w * (z - tau);
    // each piece is congruent to its integer expression
    assert(1 * v == v && l * 1 == l) by (nonlinear_arith);
    vstd::arithmetic::div_mod::lemma_mod_twice(v as int, m);
    vstd::arithmetic::div_mod::lemma_mod_twice(0 - v1, m);
    vstd::arithmetic::div_mod::lemma_sub_mod_noop(0, v1, m);
    vstd::arithmetic::div_mod::lemma_sub_mod_noop(0, v as int, m);
    lemma_cong_add(c as int, c as int, nv, 0 - v);
    vstd::arithmetic::div_mod::lemma_mod_twice(c + nv, m);
    vstd::arithmetic::div_mod::lemma_mod_twice((w * z) as int, m);
    lemma_cong_add(l1, c - v, wz, (w * z) as int);
    vstd::arithmetic::div_mod::lemma_mod_twice(l1 + wz, m);
    vstd::arithmetic::div_mod::lemma_mod_twice(l, m);
    vstd::arithmetic::div_mod::lemma_mod_twice(0 - w, m);
    lemma_cong_mul(nw, 0 - w, tau as int);
    vstd::arithmetic::div_mod::lemma_mod_twice(nw * tau, m);
    lemma_cong_add(l_one, c - v + w * z, nwt, (0 - w) * tau);
    vstd::arithmetic::div_mod::lemma_mod_twice(l_one + nwt, m);
    assert(c - v + w * z + (0 - w) * tau == target) by (nonlinear_arith)
        requires
            target == c - v + w * (z - tau);
    vstd::arithmetic::div_mod::lemma_mod_bound(l_one + nwt, m);
    vstd::arithmetic::div_mod::lemma_small_mod(x as nat, modulus());
}

/// `sum_{j < k} gamma^j x_j` in the field.
pub open spec fn fold_nats(xs: Seq<nat>, gamma: nat, k: nat) -> nat
    decreases k,
{
    if k == 0 || k > xs.len() {
        0
    } else {
        fadd(fold_nats(xs, gamma, (k - 1) as nat), fmul(xs[k - 1], fpow(gamma, (k - 1) as nat)))
    }
}

/// The commitments are `[cs_j]_1`.
pub open spec fn commitments_in_exponent(comms: Seq<Commitment>, cs: Seq<nat>) -> bool {
    &&& cs.len() == comms.len()
    &&& forall|j: int| 0 <= j < comms.len() ==> cs[j] < modulus() && (#[trigger] comms[j]).0@ == spec_g1_gen_mul(cs[j])
}

/// Committing is linear. Over an SRS whose points are `[tau^i]_1`, the
/// commitments [`Srs::commit`] gives (`commitment_matches`) to `p` and `q`
/// are `[p(tau)]_1` and `[q(tau)]_1`; the commitment to `p + q` is the point
/// whose exponent is the sum of theirs, the commitment to `k p` the point
/// whose exponent is `k` times that of `p`, and the commitment to the zero
/// polynomial is `[0]_1`.
pub proof fn lemma_commit_linear(
    powers: Seq<G1>,
    tau: nat,
    p: Seq<nat>,
    q: Seq<nat>,
    k: nat,
    cp: Seq<u8>,
    cq: Seq<u8>,
    c_sum: Seq<u8>,
    c_scaled: Seq<u8>,
    c_zero: Seq<u8>,
)
    requires
        powers_of_tau(powers, tau, powers.len()),
        commitment_matches(powers, cp, p),
        commitment_matches(powers, cq, q),
        commitment_matches(powers, c_sum, crate::poly::poly_add(p, q)),
        commitment_matches(powers, c_scaled, crate::poly::poly_scale(p, k)),
        commitment_matches(powers, c_zero, Seq::<nat>::empty()),
    ensures
        cp == spec_g1_gen_mul(poly_eval(p, tau)),
        cq == spec_g1_gen_mul(poly_eval(q, tau)),
        c_sum == spec_g1_gen_mul(fadd(poly_eval(p, tau), poly_eval(q, tau))),
        c_scaled == spec_g1_gen_mul(fmul(poly_eval(p, tau), k)),
        c_zero == spec_g1_gen_mul(0),
{
    crate::evaluation::lemma_eval_add(p, q, tau);
    crate::evaluation::lemma_eval_scale(p, k, tau);
    assert(poly_eval(Seq::<nat>::empty(), tau) == 0);
}

/// The value of `a + f b` is `a(x) + f b(x)`.
pub proof fn lemma_eval_add_scaled(a: Seq<nat>, f: nat, b: Seq<nat>, x: nat)
    ensures
        poly_eval(poly_add_scaled(a, f, b), x) == fadd(poly_eval(a, x), fmul(poly_eval(b, x), f)),
{
    let m = modulus() as int;
    lemma_modulus_pos();
    let xi = x as int;
    let len = max_len(a, b);
    let raw = Seq::new(len, |i: int| fadd(coeff(a, i), fmul(f, coeff(b, i))));
    crate::evaluation::lemma_eval_trim(raw, x);
    lemma_eval_horner(raw, x);
    let fb = |i: int| f * coeffs_of(b)(i);
    let sum = |i: int| coeffs_of(a)(i) + fb(i);
    assert forall|i: int| 0 <= i < len implies #[trigger] coeffs_of(raw)(i) % m == sum(i) % m by {
        let (ai, bi) = (coeff(a, i) as int, coeff(b, i) as int);
        vstd::arithmetic::div_mod::lemma_mod_twice(f * bi, m);
        lemma_cong_add(ai, ai, fmul(f, coeff(b, i)) as int, f * bi);
        vstd::arithmetic::div_mod::lemma_mod_twice(ai + fmul(f, coeff(b, i)), m);
    }
    lemma_horner_cong(coeffs_of(raw), sum, len, xi);
    lemma_horner_add(coeffs_of(a), fb, len, xi);
    lemma_horner_scale(coeffs_of(b), f as int, len, xi);
    lemma_horner_pad(a, len, xi);
    lemma_horner_pad(b, len, xi);
    lemma_eval_horner(a, x);
    lemma_eval_horner(b, x);
    let (ha, hb) = (horner(coeffs_of(a), a.len(), xi), horner(coeffs_of(b), b.len(), xi));
    let (ea, eb) = (poly_eval(a, x) as int, poly_eval(b, x) as int);
    // a(x) + f b(x), reduced, against ha + f hb
    vstd::arithmetic::div_mod::lemma_mod_twice(ha, m);
    vstd::arithmetic::div_mod::lemma_mod_twice(hb, m);
    lemma_cong_mul(eb, hb, f as int);
    vstd::arithmetic::div_mod::lemma_mod_twice(eb * f, m);
    assert(hb * f == f * hb && eb * f == f * eb) by (nonlinear_arith);
    lemma_cong_add(ea, ha, fmul(poly_eval(b, x), f) as int, f * hb);
    vstd::arithmetic::div_mod::lemma_mod_twice(ea + fmul(poly_eval(b, x), f), m);
    vstd::arithmetic::div_mod::lemma_mod_bound(ea + fmul(poly_eval(b, x), f), m);
    lemma_eval_reduced(raw, x);
    vstd::arithmetic::div_mod::lemma_small_mod(poly_eval(raw, x), modulus());
    vstd::arithmetic::div_mod::lemma_small_mod(fadd(poly_eval(a, x), fmul(poly_eval(b, x), f)), modulus());
}

/// The value of the fold is the fold of the values.
pub proof fn lemma_eval_fold(ps: Seq<Seq<nat>>, gamma: nat, k: nat, x: nat)
    requires
        k <= ps.len(),
    ensures
        poly_eval(fold_polys(ps, gamma, k), x) == fold_nats(Seq::new(ps.len(), |i: int| poly_eval(ps[i], x)), gamma, k),
    decreases k,
{
    if k > 0 {
        let k1 = (k - 1) as nat;
        lemma_eval_fold(ps, gamma, k1, x);
        lemma_eval_add_scaled(fold_polys(ps, gamma, k1), fpow(gamma, k1), ps[k - 1], x);
    }
}

/// Folding scalars folds their values.
pub proof fn lemma_fold_values(values: Seq<Scalar>, gamma: nat, k: nat)
    ensures
        fold_values(values, gamma, k) == fold_nats(vals(values), gamma, k),
    decreases k,
{
    if k > 0 && k <= values.len() {
        lemma_fold_values(values, gamma, (k - 1) as nat);
    }
}

/// Batch opening is complete: the commitments to `p_0, ...` folded with
/// `gamma`, their values at `z` folded alike, and the proof `open_batch`
/// gives (the opening of the folded polynomial) satisfy the opening
/// equation.
pub proof fn lemma_batch_opening_is_complete(ps: Seq<Seq<nat>>, gamma: nat, z: nat, tau: nat)
    requires
        z < modulus(),
        tau < modulus(),
    ensures
        ({
            let k = ps.len();
            let folded = fold_polys(ps, gamma, k);
            opening_equation(
                fold_nats(Seq::new(k, |i: int| poly_eval(ps[i], tau)), gamma, k),
                z,
                fold_nats(Seq::new(k, |i: int| poly_eval(ps[i], z)), gamma, k),
                poly_eval(open_quotient(folded, z), tau),
                tau,
            )
        }),
{
    let k = ps.len();
    let folded = fold_polys(ps, gamma, k);
    lemma_eval_fold(ps, gamma, k, tau);
    lemma_eval_fold(ps, gamma, k, z);
    lemma_opening_is_complete(folded, z, tau);
    if poly_is_zero(folded) {
        lemma_zero_poly_eval(folded, z);
    }
}

/// `C - v G + z W` in the exponent, for `C = [c]_1`, `W = [w]_1`.
pub open spec fn term_exponent(c: nat, v: nat, z: nat, w: nat) -> nat {
    fadd(fadd(c, fneg(fmul(1, v))), fmul(w, z))
}

/// `sum_{j < k} u^j (C_j - v_j G + z_j W_j)` in the exponent.
pub open spec fn fold_terms_exponent(os: Seq<Opening>, cs: Seq<nat>, ws: Seq<nat>, u: nat, k: nat) -> nat
    decreases k,
{
    if k == 0 {
        0
    } else {
        fadd(
            fold_terms_exponent(os, cs, ws, u, (k - 1) as nat),
            fmul(
                term_exponent(cs[k - 1], os[k - 1].value@, os[k - 1].point@, ws[k - 1]),
                fpow(u, (k - 1) as nat),
            ),
        )
    }
}

/// `sum_{j < k} u^j W_j` in the exponent.
pub open spec fn fold_proofs_exponent(ws: Seq<nat>, u: nat, k: nat) -> nat
    decreases k,
{
    if k == 0 {
        0
    } else {
        fadd(fold_proofs_exponent(ws, u, (k - 1) as nat), fmul(ws[k - 1], fpow(u, (k - 1) as nat)))
    }
}

/// The batched opening equation in the exponent:
/// `sum_j u^j (c_j - v_j + w_j z_j) - tau sum_j u^j w_j = 0`, i.e.
/// `sum_j u^j (c_j - v_j - w_j (tau - z_j)) = 0` modulo the group order.
pub open spec fn batched_opening_equation(os: Seq<Opening>, cs: Seq<nat>, ws: Seq<nat>, u: nat, tau: nat) -> bool {
    (fold_terms_exponent(os, cs, ws, u, os.len() as nat) - fold_proofs_exponent(ws, u, os.len() as nat) * tau) % (
    modulus() as int) == 0
}

/// The openings hold `[cs_j]_1` and `[ws_j]_1` as commitments and proofs.
pub open spec fn openings_in_exponent(os: Seq<Opening>, cs: Seq<nat>, ws: Seq<nat>) -> bool {
    &&& cs.len() == os.len()
    &&& ws.len() == os.len()
    &&& forall|j: int|
        0 <= j < os.len() ==> {
            &&& cs[j] < modulus()
            &&& ws[j] < modulus()
            &&& (#[trigger] os[j]).comm.0@ == spec_g1_gen_mul(cs[j])
            &&& os[j].proof.0@ == spec_g1_gen_mul(ws[j])
        }
}

/// When every opening satisfies its equation, so does their combination
/// with any weights: `sum u^j (L_j - w_j tau) = 0`.
proof fn lemma_combined_equation(os: Seq<Opening>, cs: Seq<nat>, ws: Seq<nat>, u: nat, tau: nat, k: nat)
    requires
        k <= os.len(),
        openings_in_exponent(os, cs, ws),
        forall|j: int|
            0 <= j < os.len() ==> #[trigger] opening_equation(cs[j], os[j].point@, os[j].value@, ws[j], tau),
    ensures
        (fold_terms_exponent(os, cs, ws, u, k) - fold_proofs_exponent(ws, u, k) * tau) % (modulus() as int) == 0,
    decreases k,
{
    let m = modulus() as int;
    lemma_modulus_pos();
    if k == 0 {
        assert(0 * tau == 0) by (nonlinear_arith);
    } else {
        let k1 = (k - 1) as nat;
        let j = k1 as int;
        lemma_combined_equation(os, cs, ws, u, tau, k1);
        let (lp, wp) = (fold_terms_exponent(os, cs, ws, u, k1) as int, fold_proofs_exponent(ws, u, k1) as int);
        let (c, v, z, w) = (cs[j], os[j].value@, os[j].point@, ws[j]);
        let pu = fpow(u, k1) as int;
        let l = term_exponent(c, v, z, w) as int;
        assert(opening_equation(c, z, v, w, tau));
        lemma_opening_in_exponent(c, z, v, w, tau);
        // l - w tau = 0 modulo the order
        let x = fadd(fmul(term_exponent(c, v, z, w), 1), fmul(fneg(w), tau)) as int;
        assert(x == 0);
        assert(l * 1 == l) by (nonlinear_arith);
        vstd::arithmetic::div_mod::lemma_mod_twice(l, m);
        vstd::arithmetic::div_mod::lemma_mod_twice(0 - w, m);
        lemma_cong_mul(fneg(w) as int, 0 - w, tau as int);
        vstd::arithmetic::div_mod::lemma_mod_twice((fneg(w) * tau) as int, m);
        lemma_cong_add(fmul(l as nat, 1) as int, l, fmul(fneg(w), tau) as int, (0 - w) * tau);
        vstd::arithmetic::div_mod::lemma_mod_twice((fmul(l as nat, 1) + fmul(fneg(w), tau)) as int, m);
        assert((l + (0 - w) * tau) % m == 0);
        // the new sums, modulo the order
        let ln = fold_terms_exponent(os, cs, ws, u, k) as int;
        let wn = fold_proofs_exponent(ws, u, k) as int;
        vstd::arithmetic::div_mod::lemma_mod_twice(l * pu, m);
        lemma_cong_add(lp, lp, fmul(l as nat, pu as nat) as int, l * pu);
        vstd::arithmetic::div_mod::lemma_mod_twice(lp + fmul(l as nat, pu as nat), m);
        vstd::arithmetic::div_mod::lemma_mod_twice(w * pu, m);
        lemma_cong_add(wp, wp, fmul(w, pu as nat) as int, w * pu);
        vstd::arithmetic::div_mod::lemma_mod_twice(wp + fmul(w, pu as nat), m);
        lemma_cong_mul(wn, wp + w * pu, tau as int);
        lemma_cong_mul(l + (0 - w) * tau, 0, pu);
        assert(0 * pu == 0) by (nonlinear_arith);
        assert((lp + l * pu) - (wp + w * pu) * tau == (lp - wp * tau) + (l + (0 - w) * tau) * pu) by (nonlinear_arith);
        lemma_cong_add(lp - wp * tau, 0, (l + (0 - w) * tau) * pu, 0);
        vstd::arithmetic::div_mod::lemma_sub_mod_noop(ln, wn * tau, m);
        vstd::arithmetic::div_mod::lemma_sub_mod_noop(lp + l * pu, (wp + w * pu) * tau, m);
    }
}

/// An opening binds its claim: given one accepted claim `(z, v)` for a
/// commitment and proof, another claim `(z2, v2)` with the same commitment
/// and proof is accepted exactly when `v2 - v = w (z2 - z)`. So a wrong value
/// at the same point is always rejected, and so is the same value at another
/// point unless `w (z2 - z) = 0`.
pub proof fn lemma_opening_binds(c: nat, z: nat, v: nat, w: nat, tau: nat, z2: nat, v2: nat)
    requires
        opening_equation(c, z, v, w, tau),
    ensures
        opening_equation(c, z2, v2, w, tau) <==> (v2 - v - w * (z2 - z)) % (modulus() as int) == 0,
{
    let m = modulus() as int;
    lemma_modulus_pos();
    let e1 = c - v + w * (z - tau);
    let e2 = c - v2 + w * (z2 - tau);
    let d = v2 - v - w * (z2 - z);
    assert(e2 == e1 - d) by (nonlinear_arith)
        requires
            e1 == c - v + w * (z - tau),
            e2 == c - v2 + w * (z2 - tau),
            d == v2 - v - w * (z2 - z);
    vstd::arithmetic::div_mod::lemma_sub_mod_noop(e1, d, m);
    vstd::arithmetic::div_mod::lemma_mod_bound(d, m);
    vstd::arithmetic::div_mod::lemma_mod_bound(e2, m);
    if d % m == 0 {
        assert(e2 % m == (0 - 0) % m);
    } else {
        vstd::arithmetic::div_mod::lemma_small_mod((m - d % m) as nat, m as nat);
        assert((0 - d % m) % m == m - d % m) by {
            vstd::arithmetic::div_mod::lemma_mod_add_multiples_vanish(0 - d % m, m);
        }
    }
}

/// Opening is complete: over an SRS with powers `[tau^i]_1`, `[1]_2` and
/// `[tau]_2`, the commitment to `p`, the value `open` reports at `z` and its
/// proof satisfy the opening equation, so `verify` accepts them.
pub proof fn lemma_opening_is_complete(p: Seq<nat>, z: nat, tau: nat)
    requires
        z < modulus(),
        tau < modulus(),
    ensures
        opening_equation(
            poly_eval(p, tau),
            z,
            if poly_is_zero(p) { 0 } else { poly_eval(p, z) },
            poly_eval(open_quotient(p, z), tau),
            tau,
        ),
{
    let m = modulus() as int;
    lemma_modulus_pos();
    if poly_is_zero(p) {
        lemma_zero_poly_eval(p, tau);
        assert(poly_eval(open_quotient(p, z), tau) == 0);
        assert(0 * (z - tau) == 0) by (nonlinear_arith);
    } else {
        let q = synth_quotient(p, z);
        lemma_division_cong(p, z, tau);
        crate::evaluation::lemma_eval_trim(q, tau);
        let (c, v, w) = (poly_eval(p, tau) as int, poly_eval(p, z) as int, poly_eval(q, tau) as int);
        // c = w (tau - z) + v modulo the order
        assert(c - v + w * (z - tau) == (c - (w * (tau - z) + v))) by (nonlinear_arith);
        vstd::arithmetic::div_mod::lemma_sub_mod_noop(c, w * (tau - z) + v, m);
        vstd::arithmetic::div_mod::lemma_mod_twice(c, m);
        vstd::arithmetic::div_mod::lemma_mod_twice(w * (tau - z) + v, m);
    }
}

/// A claim `(z2, v2)` against an accepted one `(z, v)` with the same
/// commitment and proof, both values reduced: at the same point it is
/// accepted exactly when the value is the same, and with the same value at
/// another point exactly when `w (z2 - z) = 0`.
proof fn lemma_other_claims(c: nat, z: nat, v: nat, w: nat, tau: nat, z2: nat, v2: nat)
    requires
        opening_equation(c, z, v, w, tau),
        v < modulus(),
        v2 < modulus(),
    ensures
        opening_equation(c, z, v2, w, tau) <==> v2 == v,
        opening_equation(c, z2, v, w, tau) <==> (w * (z2 - z)) % (modulus() as int) == 0,
{
    let m = modulus() as int;
    lemma_modulus_pos();
    lemma_opening_binds(c, z, v, w, tau, z, v2);
    lemma_opening_binds(c, z, v, w, tau, z2, v);
    assert(w * (z - z) == 0) by (nonlinear_arith);
    if v2 >= v {
        vstd::arithmetic::div_mod::lemma_small_mod((v2 - v) as nat, modulus());
    } else {
        vstd::arithmetic::div_mod::lemma_mod_add_multiples_vanish(v2 - v, m);
        vstd::arithmetic::div_mod::lemma_small_mod((v2 - v + m) as nat, modulus());
    }
    let x = w * (z2 - z);
    vstd::arithmetic::div_mod::lemma_sub_mod_noop(0, x, m);
    vstd::arithmetic::div_mod::lemma_mod_bound(x, m);
    vstd::arithmetic::div_mod::lemma_small_mod(0, modulus());
    if x % m != 0 {
        vstd::arithmetic::div_mod::lemma_mod_add_multiples_vanish(0 - x % m, m);
        vstd::arithmetic::div_mod::lemma_small_mod((m - x % m) as nat, modulus());
    }
}

/// Commit, open, verify: over an SRS whose powers are `[tau^i]_1` (with
/// `[1]_2` and `[tau]_2` in the verifier key), [`Srs::commit`] gives
/// `[p(tau)]_1`, [`Srs::open`] at `z` gives the value `v` and the proof
/// `[w]_1` below, and these pass the opening equation that
/// [`VerifierKey::verify`] checks. Any other value at `z` fails it; the same
/// value at another point `z2` passes only when `w (z2 - z) = 0`, as for a
/// constant polynomial, whose proof is `[0]_1`.
pub proof fn lemma_open_then_verify(p: Seq<nat>, z: nat, tau: nat, v2: nat, z2: nat)
    requires
        z < modulus(),
        tau < modulus(),
        v2 < modulus(),
    ensures
        ({
            let c = poly_eval(p, tau);
            let v = if poly_is_zero(p) { 0 } else { poly_eval(p, z) };
            let w = poly_eval(open_quotient(p, z), tau);
            &&& opening_equation(c, z, v, w, tau)
            &&& (opening_equation(c, z, v2, w, tau) <==> v2 == v)
            &&& (opening_equation(c, z2, v, w, tau) <==> (w * (z2 - z)) % (modulus() as int) == 0)
        }),
{
    lemma_modulus_pos();
    lemma_opening_is_complete(p, z, tau);
    lemma_eval_reduced(p, z);
    let c = poly_eval(p, tau);
    let v = if poly_is_zero(p) { 0 } else { poly_eval(p, z) };
    let w = poly_eval(open_quotient(p, z), tau);
    lemma_other_claims(c, z, v, w, tau, z2, v2);
}

/// Batch opening, then batch verifying: the commitments `[p_j(tau)]_1`
/// folded with `gamma`, the values at `z` folded alike, and the proof
/// [`Srs::open_batch`] gives pass the opening equation that
/// [`VerifierKey::verify_batch`] checks; any other folded value fails it.
pub proof fn lemma_batch_then_verify(ps: Seq<Seq<nat>>, gamma: nat, z: nat, tau: nat, v2: nat)
    requires
        z < modulus(),
        tau < modulus(),
        v2 < modulus(),
    ensures
        ({
            let k = ps.len();
            let c = fold_nats(Seq::new(k, |i: int| poly_eval(ps[i], tau)), gamma, k);
            let v = fold_nats(Seq::new(k, |i: int| poly_eval(ps[i], z)), gamma, k);
            let w = poly_eval(open_quotient(fold_polys(ps, gamma, k), z), tau);
            &&& opening_equation(c, z, v, w, tau)
            &&& (opening_equation(c, z, v2, w, tau) <==> v2 == v)
        }),
{
    lemma_modulus_pos();
    lemma_batch_opening_is_complete(ps, gamma, z, tau);
    let k = ps.len();
    let c = fold_nats(Seq::new(k, |i: int| poly_eval(ps[i], tau)), gamma, k);
    let v = fold_nats(Seq::new(k, |i: int| poly_eval(ps[i], z)), gamma, k);
    let w = poly_eval(open_quotient(fold_polys(ps, gamma, k), z), tau);
    if k > 0 {
        lemma_reduced_add(
            fold_nats(Seq::new(k, |i: int| poly_eval(ps[i], z)), gamma, (k - 1) as nat),
            fmul(Seq::new(k, |i: int| poly_eval(ps[i], z))[k - 1], fpow(gamma, (k - 1) as nat)),
        );
    }
    lemma_other_claims(c, z, v, w, tau, z, v2);
}

/// The value [`Srs::open`] reports for `p` at `z`.
pub open spec fn open_value(p: Seq<nat>, z: nat) -> nat {
    if poly_is_zero(p) {
        0
    } else {
        poly_eval(p, z)
    }
}

/// Openings at several points: each polynomial's commitment `[p_j(tau)]_1`,
/// its value at `z_j` and the proof [`Srs::open`] gives pass their own
/// opening equation, so [`VerifierKey::verify_multi_point`] accepts them
/// together, whatever the weight `u`.
pub proof fn lemma_openings_then_verify(ps: Seq<Seq<nat>>, zs: Seq<nat>, tau: nat)
    requires
        zs.len() == ps.len(),
        tau < modulus(),
        forall|j: int| 0 <= j < zs.len() ==> zs[j] < modulus(),
    ensures
        forall|j: int|
            0 <= j < ps.len() ==> #[trigger] opening_equation(
                poly_eval(ps[j], tau),
                zs[j],
                open_value(ps[j], zs[j]),
                poly_eval(open_quotient(ps[j], zs[j]), tau),
                tau,
            ),
{
    assert forall|j: int| 0 <= j < ps.len() implies #[trigger] opening_equation(
        poly_eval(ps[j], tau),
        zs[j],
        open_value(ps[j], zs[j]),
        poly_eval(open_quotient(ps[j], zs[j]), tau),
        tau,
    ) by {
        lemma_opening_is_complete(ps[j], zs[j], tau);
    }
}

/// The zero polynomial is zero everywhere.
proof fn lemma_zero_poly_eval(p: Seq<nat>, x: nat)
    requires
        poly_is_zero(p),
    ensures
        poly_eval(p, x) == 0,
    decreases p.len(),
{
    lemma_modulus_pos();
    if p.len() > 0 {
        lemma_zero_poly_eval(p.drop_first(), x);
        assert(0 * x == 0) by (nonlinear_arith);
        vstd::arithmetic::div_mod::lemma_small_mod(0, modulus());
    }
}

impl VerifierKey {
    /// Check `e(C - [v]_1, [1]_2) == e(W, [tau - z]_2)`, as
    /// `e(C - v*G + z*W, H) * e(-W, tau*H) == 1`.
    pub fn verify(&self, comm: &Commitment, z: &Scalar, value: &Scalar, proof: &OpeningProof) -> (r: bool)
        ensures
            r == kzg_check(*self, comm.0@, z@, value@, proof.0@),
            forall|tau: nat, c: nat, w: nat|
                #![trigger spec_g2_gen_mul(tau), spec_g1_gen_mul(c), spec_g1_gen_mul(w)]
                tau < modulus() && c < modulus() && w < modulus() && self.g@ == spec_g1_gen_mul(1) && self.h@
                    == spec_g2_gen_mul(1) && self.tau_h@ == spec_g2_gen_mul(tau) && comm.0@ == spec_g1_gen_mul(c)
                    && proof.0@ == spec_g1_gen_mul(w) ==> (r <==> opening_equation(c, z@, value@, w, tau)),
    {
        let gv = self.g.scale(value);
        let ngv = gv.negate();
        let s1 = comm.0.plus(&ngv);
        let wz = proof.0.scale(z);
        let lhs = s1.plus(&wz);
        let rhs = proof.0.negate();
        let r = pairing_check(&lhs, &rhs, &self.h, &self.tau_h);
        proof {
            assert forall|tau: nat, c: nat, w: nat|
                #![trigger spec_g2_gen_mul(tau), spec_g1_gen_mul(c), spec_g1_gen_mul(w)]
                tau < modulus() && c < modulus() && w < modulus() && self.g@ == spec_g1_gen_mul(1) && self.h@
                    == spec_g2_gen_mul(1) && self.tau_h@ == spec_g2_gen_mul(tau) && comm.0@ == spec_g1_gen_mul(c)
                    && proof.0@ == spec_g1_gen_mul(w) implies (r <==> opening_equation(c, z@, value@, w, tau)) by {
                lemma_opening_in_exponent(c, z@, value@, w, tau);
                lemma_modulus_pos();
                let v1 = fmul(1, value@);
                let nv = fneg(v1);
                let l1 = fadd(c, nv);
                let wzv = fmul(w, z@);
                let l = fadd(l1, wzv);
                assert(gv@ == spec_g1_gen_mul(v1));
                lemma_reduced(v1);
                assert(ngv@ == spec_g1_gen_mul(nv));
                lemma_reduced_neg(v1);
                assert(s1@ == spec_g1_gen_mul(l1));
                assert(wz@ == spec_g1_gen_mul(wzv));
                lemma_reduced(wzv);
                lemma_reduced_add(c, nv);
                assert(lhs@ == spec_g1_gen_mul(l));
                assert(rhs@ == spec_g1_gen_mul(fneg(w)));
                lemma_reduced_add(l1, wzv);
                lemma_reduced_neg(w);
                assert(spec_g1_gen_mul(l) == lhs@ && spec_g1_gen_mul(fneg(w)) == rhs@);
            }
        }
        r
    }

    /// Counterpart of [`Srs::open_batch`]: fold commitments and values with
    /// the same `gamma` and check the single proof.
    pub fn verify_batch(
        &self,
        comms: &[Commitment],
        z: &Scalar,
        values: &[Scalar],
        gamma: &Scalar,
        proof: &OpeningProof,
    ) -> (r: bool)
        ensures
            comms@.len() != values@.len() ==> !r,
            comms@.len() == values@.len() ==> r == kzg_check(
                *self,
                fold_comms(comms@, gamma@, comms@.len() as nat),
                z@,
                fold_values(values@, gamma@, values@.len() as nat),
                proof.0@,
            ),
            forall|tau: nat, cs: Seq<nat>, w: nat|
                #![trigger spec_g2_gen_mul(tau), commitments_in_exponent(comms@, cs), spec_g1_gen_mul(w)]
                comms@.len() == values@.len() && tau < modulus() && w < modulus() && self.g@ == spec_g1_gen_mul(1)
                    && self.h@ == spec_g2_gen_mul(1) && self.tau_h@ == spec_g2_gen_mul(tau) && commitments_in_exponent(
                    comms@,
                    cs,
                ) && proof.0@ == spec_g1_gen_mul(w) ==> (r <==> opening_equation(
                    fold_nats(cs, gamma@, cs.len()),
                    z@,
                    fold_values(values@, gamma@, values@.len() as nat),
                    w,
                    tau,
                )),
    {
        if comms.len() != values.len() {
            return false;
        }
        let mut folded_comm = G1::identity();
        let mut folded_value = Scalar::zero();
        let mut coeff = Scalar::one();
        proof {
            lemma_modulus_pos();
            vstd::arithmetic::div_mod::lemma_small_mod(0, modulus());
        }
        for i in 0..comms.len()
            invariant
                comms@.len() == values@.len(),
                folded_comm@ == fold_comms(comms@, gamma@, i as nat),
                folded_value@ == fold_values(values@, gamma@, i as nat),
                coeff@ == fpow(gamma@, i as nat),
                i <= comms@.len(),
                forall|cs: Seq<nat>|
                    #[trigger] commitments_in_exponent(comms@, cs) ==> {
                        &&& folded_comm@ == spec_g1_gen_mul(fold_nats(cs, gamma@, i as nat))
                        &&& fold_nats(cs, gamma@, i as nat) < modulus()
                    },
        {
            let sc = comms[i].0.scale(&coeff);
            let next = folded_comm.plus(&sc);
            coeff.lemma_canonical();
            proof {
                assert forall|cs: Seq<nat>| #[trigger] commitments_in_exponent(comms@, cs) implies {
                    &&& next@ == spec_g1_gen_mul(fold_nats(cs, gamma@, (i + 1) as nat))
                    &&& fold_nats(cs, gamma@, (i + 1) as nat) < modulus()
                } by {
                    let j = i as int;
                    assert(comms@[j].0@ == spec_g1_gen_mul(cs[j]));
                    assert(sc@ == spec_g1_gen_mul(fmul(cs[j], coeff@)));
                    lemma_reduced_mul(cs[j], coeff@);
                    let prev = fold_nats(cs, gamma@, i as nat);
                    assert(next@ == spec_g1_gen_mul(fadd(prev, fmul(cs[j], coeff@))));
                    lemma_reduced_add(prev, fmul(cs[j], coeff@));
                }
            }
            folded_comm = next;
            folded_value = folded_value.plus(&values[i].times(&coeff));
            coeff = coeff.times(gamma);
        }
        folded_value.lemma_canonical();
        self.verify(&Commitment(folded_comm), z, &folded_value, proof)
    }

    /// Check several openings, possibly at different points, with one pairing
    /// equation. Each `(C_i, z_i, v_i, W_i)` satisfies
    /// `e(C_i - v_i G + z_i W_i, H) = e(W_i, tau H)`; a random `u` from the
    /// verifier combines them:
    ///
    /// ```text
    /// e(sum u^i (C_i - v_i G + z_i W_i), H) = e(sum u^i W_i, tau H)
    /// ```
    pub fn verify_multi_point(&self, openings: &[Opening], u: &Scalar) -> (r: bool)
        ensures
            r == spec_pairing_check(
                fold_opening_terms(*self, openings@, u@, openings@.len() as nat),
                spec_g1_neg(fold_opening_proofs(openings@, u@, openings@.len() as nat)),
                self.h@,
                self.tau_h@,
            ),
            forall|tau: nat, cs: Seq<nat>, ws: Seq<nat>|
                #![trigger spec_g2_gen_mul(tau), openings_in_exponent(openings@, cs, ws)]
                tau < modulus() && self.g@ == spec_g1_gen_mul(1) && self.h@ == spec_g2_gen_mul(1) && self.tau_h@
                    == spec_g2_gen_mul(tau) && openings_in_exponent(openings@, cs, ws) && (forall|j: int|
                    0 <= j < openings@.len() ==> #[trigger] opening_equation(
                        cs[j],
                        openings@[j].point@,
                        openings@[j].value@,
                        ws[j],
                        tau,
                    )) ==> r,
            forall|tau: nat, cs: Seq<nat>, ws: Seq<nat>|
                #![trigger spec_g2_gen_mul(tau), openings_in_exponent(openings@, cs, ws)]
                tau < modulus() && self.g@ == spec_g1_gen_mul(1) && self.h@ == spec_g2_gen_mul(1) && self.tau_h@
                    == spec_g2_gen_mul(tau) && openings_in_exponent(openings@, cs, ws) ==> (r <==> batched_opening_equation(
                    openings@,
                    cs,
                    ws,
                    u@,
                    tau,
                )),
    {
        let mut lhs = G1::identity();
        let mut ws = G1::identity();
        let mut coeff = Scalar::one();
        proof {
            lemma_modulus_pos();
            vstd::arithmetic::div_mod::lemma_small_mod(0, modulus());
        }
        for i in 0..openings.len()
            invariant
                lhs@ == fold_opening_terms(*self, openings@, u@, i as nat),
                ws@ == fold_opening_proofs(openings@, u@, i as nat),
                coeff@ == fpow(u@, i as nat),
                i <= openings@.len(),
                forall|cs: Seq<nat>, wv: Seq<nat>|
                    #[trigger] openings_in_exponent(openings@, cs, wv) && self.g@ == spec_g1_gen_mul(1) ==> {
                        &&& lhs@ == spec_g1_gen_mul(fold_terms_exponent(openings@, cs, wv, u@, i as nat))
                        &&& ws@ == spec_g1_gen_mul(fold_proofs_exponent(wv, u@, i as nat))
                        &&& fold_terms_exponent(openings@, cs, wv, u@, i as nat) < modulus()
                        &&& fold_proofs_exponent(wv, u@, i as nat) < modulus()
                    },
        {
            let o = &openings[i];
            let gv = self.g.scale(&o.value);
            let ngv = gv.negate();
            let s1 = o.comm.0.plus(&ngv);
            let wz = o.proof.0.scale(&o.point);
            let term = s1.plus(&wz);
            let ts = term.scale(&coeff);
            let lhs_next = lhs.plus(&ts);
            let wc = o.proof.0.scale(&coeff);
            let ws_next = ws.plus(&wc);
            coeff.lemma_canonical();
            o.value.lemma_canonical();
            o.point.lemma_canonical();
            proof {
                assert forall|cs: Seq<nat>, wv: Seq<nat>|
                    #[trigger] openings_in_exponent(openings@, cs, wv) && self.g@ == spec_g1_gen_mul(1) implies {
                        &&& lhs_next@ == spec_g1_gen_mul(fold_terms_exponent(openings@, cs, wv, u@, (i + 1) as nat))
                        &&& ws_next@ == spec_g1_gen_mul(fold_proofs_exponent(wv, u@, (i + 1) as nat))
                        &&& fold_terms_exponent(openings@, cs, wv, u@, (i + 1) as nat) < modulus()
                        &&& fold_proofs_exponent(wv, u@, (i + 1) as nat) < modulus()
                    } by {
                    let j = i as int;
                    assert(openings@[j] == *o);
                    let (c, w) = (cs[j], wv[j]);
                    let (v, z) = (o.value@, o.point@);
                    assert(o.comm.0@ == spec_g1_gen_mul(c) && o.proof.0@ == spec_g1_gen_mul(w));
                    let v1 = fmul(1, v);
                    lemma_reduced(v);
                    assert(gv@ == spec_g1_gen_mul(v1));
                    lemma_reduced_neg(v1);
                    assert(ngv@ == spec_g1_gen_mul(fneg(v1)));
                    assert(s1@ == spec_g1_gen_mul(fadd(c, fneg(v1))));
                    assert(wz@ == spec_g1_gen_mul(fmul(w, z)));
                    lemma_reduced_add(c, fneg(v1));
                    lemma_reduced(fmul(w, z));
                    lemma_reduced_mul(w, z);
                    let l = term_exponent(c, v, z, w);
                    assert(term@ == spec_g1_gen_mul(l));
                    lemma_reduced_add(fadd(c, fneg(v1)), fmul(w, z));
                    assert(ts@ == spec_g1_gen_mul(fmul(l, coeff@)));
                    lemma_reduced_mul(l, coeff@);
                    let prev = fold_terms_exponent(openings@, cs, wv, u@, i as nat);
                    assert(lhs@ == spec_g1_gen_mul(prev));
                    assert(lhs_next@ == spec_g1_gen_mul(fadd(prev, fmul(l, coeff@))));
                    lemma_reduced_add(prev, fmul(l, coeff@));
                    let wprev = fold_proofs_exponent(wv, u@, i as nat);
                    assert(wc@ == spec_g1_gen_mul(fmul(w, coeff@)));
                    lemma_reduced_mul(w, coeff@);
                    assert(ws_next@ == spec_g1_gen_mul(fadd(wprev, fmul(w, coeff@))));
                    lemma_reduced_add(wprev, fmul(w, coeff@));
                }
            }
            lhs = lhs_next;
            ws = ws_next;
            coeff = coeff.times(u);
        }
        let nws = ws.negate();
        let r = pairing_check(&lhs, &nws, &self.h, &self.tau_h);
        proof {
            let k = openings@.len() as nat;
            assert forall|tau: nat, cs: Seq<nat>, wv: Seq<nat>|
                #![trigger spec_g2_gen_mul(tau), openings_in_exponent(openings@, cs, wv)]
                tau < modulus() && self.g@ == spec_g1_gen_mul(1) && self.h@ == spec_g2_gen_mul(1) && self.tau_h@
                    == spec_g2_gen_mul(tau) && openings_in_exponent(openings@, cs, wv) && (forall|j: int|
                    0 <= j < openings@.len() ==> #[trigger] opening_equation(
                        cs[j],
                        openings@[j].point@,
                        openings@[j].value@,
                        wv[j],
                        tau,
                    )) implies r by {
                let m = modulus() as int;
                let lsum = fold_terms_exponent(openings@, cs, wv, u@, k);
                let wsum = fold_proofs_exponent(wv, u@, k);
                assert(lhs@ == spec_g1_gen_mul(lsum));
                lemma_reduced_neg(wsum);
                assert(nws@ == spec_g1_gen_mul(fneg(wsum)));
                assert(spec_g1_gen_mul(lsum) == lhs@ && spec_g1_gen_mul(fneg(wsum)) == nws@);
                lemma_combined_equation(openings@, cs, wv, u@, tau, k);
                // the pairing's exponent is lsum - wsum tau, which is zero
                assert(lsum * 1 == lsum) by (nonlinear_arith);
                vstd::arithmetic::div_mod::lemma_mod_twice(lsum as int, m);
                vstd::arithmetic::div_mod::lemma_mod_twice(0 - wsum, m);
                lemma_cong_mul(fneg(wsum) as int, 0 - wsum, tau as int);
                vstd::arithmetic::div_mod::lemma_mod_twice((fneg(wsum) * tau) as int, m);
                lemma_cong_add(fmul(lsum, 1) as int, lsum as int, fmul(fneg(wsum), tau) as int, (0 - wsum) * tau);
                vstd::arithmetic::div_mod::lemma_mod_twice((fmul(lsum, 1) + fmul(fneg(wsum), tau)) as int, m);
                assert(lsum + (0 - wsum) * tau == lsum - wsum * tau) by (nonlinear_arith);
                vstd::arithmetic::div_mod::lemma_mod_bound((fmul(lsum, 1) + fmul(fneg(wsum), tau)) as int, m);
                vstd::arithmetic::div_mod::lemma_small_mod(fadd(fmul(lsum, 1), fmul(fneg(wsum), tau)), modulus());
            }
            assert forall|tau: nat, cs: Seq<nat>, wv: Seq<nat>|
                #![trigger spec_g2_gen_mul(tau), openings_in_exponent(openings@, cs, wv)]
                tau < modulus() && self.g@ == spec_g1_gen_mul(1) && self.h@ == spec_g2_gen_mul(1) && self.tau_h@
                    == spec_g2_gen_mul(tau) && openings_in_exponent(openings@, cs, wv) implies (r
                    <==> batched_opening_equation(openings@, cs, wv, u@, tau)) by {
                let m = modulus() as int;
                let lsum = fold_terms_exponent(openings@, cs, wv, u@, k);
                let wsum = fold_proofs_exponent(wv, u@, k);
                assert(lhs@ == spec_g1_gen_mul(lsum));
                lemma_reduced_neg(wsum);
                assert(nws@ == spec_g1_gen_mul(fneg(wsum)));
                assert(spec_g1_gen_mul(lsum) == lhs@ && spec_g1_gen_mul(fneg(wsum)) == nws@);
                vstd::arithmetic::div_mod::lemma_small_mod(1, modulus());
                assert(lsum * 1 == lsum) by (nonlinear_arith);
                vstd::arithmetic::div_mod::lemma_mod_twice(lsum as int, m);
                vstd::arithmetic::div_mod::lemma_mod_twice(0 - wsum, m);
                lemma_cong_mul(fneg(wsum) as int, 0 - wsum, tau as int);
                vstd::arithmetic::div_mod::lemma_mod_twice((fneg(wsum) * tau) as int, m);
                lemma_cong_add(fmul(lsum, 1) as int, lsum as int, fmul(fneg(wsum), tau) as int, (0 - wsum) * tau);
                vstd::arithmetic::div_mod::lemma_mod_twice((fmul(lsum, 1) + fmul(fneg(wsum), tau)) as int, m);
                assert(lsum + (0 - wsum) * tau == lsum - wsum * tau) by (nonlinear_arith);
                assert(fadd(fmul(lsum, 1), fmul(fneg(wsum), tau)) as int == (lsum - wsum * tau) % m);
            }
        }
        r
    }
}

} // verus!
