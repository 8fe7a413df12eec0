//! The verifier: replay the transcript, then check one pairing equation.

use vstd::prelude::*;
use crate::curve::{G1, spec_g1_add, spec_g1_gen_mul, spec_g1_mul, spec_g1_neg, spec_pairing_check};
use crate::field::{Scalar, vals, fadd, fsub, fmul, fneg, fpow, finv, modulus};
use crate::kzg::{lemma_reduced_add, lemma_reduced_mul, lemma_reduced_neg};
use crate::kzg::{
    self, Commitment, Opening, batched_opening_equation, fold_opening_proofs, fold_opening_terms, fold_proofs_exponent,
    fold_terms_exponent, opening_term, openings_in_exponent, term_exponent,
};
use crate::curve::spec_g2_gen_mul;
use crate::prover::{lemma_fadd_cong, lemma_fmul_cong, lemma_fneg_cong, lemma_fsub_cong, linearisation_value};
use crate::proof_format::evaluation_values;
use crate::poly::{spec_l0, Domain, is_pow2, lagrange_at, lemma_pow2_below, max_domain_size, spec_root_of_unity, vanishing_at};
use crate::preprocess::VerifierKey;
use crate::proof_format::{Proof, spec_perm_f, spec_perm_g_partial};
use crate::rounds::{Rounds, proof_challenges};

verus! {

#[derive(Clone, Copy, Debug, PartialEq, Eq)]
pub enum VerifyError {
    PublicInputCount { expected: usize, got: usize },
    /// The key's domain size isn't one the field supports.
    BadDomain { size: usize },
    /// The evaluation point landed in the domain, which makes the identity
    /// vacuous. Probability n / |F| for an honest prover.
    ZetaInDomain,
    /// The pairing equation didn't hold. This is where a wrong witness, a
    /// tampered proof or wrong public inputs all end up.
    PairingCheckFailed,
}

/// `p` is the smallest power of two at least `n`.
pub open spec fn is_pow2_ceil(n: nat, p: nat) -> bool {
    is_pow2(p) && p >= n && (p == 1 || p / 2 < n)
}

/// The size of the domain arkworks builds for `n`.
pub open spec fn pow2_ceil(n: nat) -> nat {
    choose|p: nat| is_pow2_ceil(n, p)
}

pub(crate) proof fn lemma_pow2_ceil_unique(n: nat, a: nat, b: nat)
    requires
        is_pow2_ceil(n, a),
        is_pow2_ceil(n, b),
    ensures
        a == b,
{
    if a < b {
        lemma_pow2_below(a, b);
    } else if b < a {
        lemma_pow2_below(b, a);
    }
}

/// `L_i(zeta)` over the subgroup of size `size` generated by `omega`, as
/// `lagrange_at` computes it.
pub open spec fn lagrange_value(size: nat, omega: nat, zeta: nat, i: nat) -> nat {
    let e = fmul(fpow(omega, i), 1);
    let z_h = fsub(fpow(zeta, size), 1);
    let den = fsub(zeta, e);
    fmul(fmul(fmul(e, z_h), finv(size)), if den == 0 { 0 } else { finv(den) })
}

/// `sum_{i < k} x_i L_i(zeta)`.
pub open spec fn pi_sum(pi: Seq<nat>, size: nat, omega: nat, zeta: nat, k: nat) -> nat
    decreases k,
{
    if k == 0 {
        0
    } else {
        fadd(pi_sum(pi, size, omega, zeta, (k - 1) as nat), fmul(pi[k - 1], lagrange_value(size, omega, zeta, (k - 1) as nat)))
    }
}

/// `(a + b) + c = (a + c) + b` and `a + (b + c) = (a + b) + c` in the field.
proof fn lemma_fadd_regroup(a: nat, b: nat, c: nat)
    ensures
        fadd(fadd(a, b), c) == fadd(fadd(a, c), b),
        fadd(a, fadd(b, c)) == fadd(fadd(a, b), c),
{
    crate::field::lemma_fadd_mod(a + b, c);
    crate::field::lemma_fadd_mod(a + c, b);
    crate::field::lemma_fadd_mod(a, b + c);
    assert(a + b + c == a + c + b);
}

/// `(x + d) l = x l + d l` in the field.
proof fn lemma_fmul_distributes(x: nat, d: nat, l: nat)
    ensures
        fmul(fadd(x, d), l) == fadd(fmul(x, l), fmul(d, l)),
{
    crate::field::lemma_fmul_mod(x + d, l);
    crate::field::lemma_fadd_mod(x * l, d * l);
    crate::field::lemma_fadd_mod(fmul(x, l), d * l);
    assert((x + d) * l == x * l + d * l) by (nonlinear_arith);
}

/// The verifier's public-input sum weights each input by its own Lagrange
/// value: adding `d` to input `k` leaves `sum_{i < m} x_i L_i(zeta)` alone
/// for `m <= k` and adds `d L_k(zeta)` to it for every `m > k`.
pub proof fn lemma_pi_sum_weights(pi: Seq<nat>, size: nat, omega: nat, zeta: nat, k: int, d: nat, m: nat)
    requires
        0 <= k < pi.len(),
        m <= pi.len(),
    ensures
        m <= k ==> pi_sum(pi.update(k, fadd(pi[k], d)), size, omega, zeta, m) == pi_sum(pi, size, omega, zeta, m),
        m > k ==> pi_sum(pi.update(k, fadd(pi[k], d)), size, omega, zeta, m) == fadd(
            pi_sum(pi, size, omega, zeta, m),
            fmul(d, lagrange_value(size, omega, zeta, k as nat)),
        ),
    decreases m,
{
    let q = pi.update(k, fadd(pi[k], d));
    let lk = lagrange_value(size, omega, zeta, k as nat);
    if m > 0 {
        let m1 = (m - 1) as nat;
        lemma_pi_sum_weights(pi, size, omega, zeta, k, d, m1);
        let s = pi_sum(pi, size, omega, zeta, m1);
        let lm = lagrange_value(size, omega, zeta, m1);
        if m1 == k {
            lemma_fmul_distributes(pi[k], d, lk);
            crate::field::lemma_fmul_comm(d, lk);
            lemma_fadd_regroup(s, fmul(pi[k], lk), fmul(d, lk));
        } else if m > k {
            lemma_fadd_regroup(s, fmul(d, lk), fmul(pi[m1 as int], lm));
        }
    }
}

/// `L_i(zeta) = omega^i (zeta^n - 1) / (n (zeta - omega^i))`: multiplied by
/// `n` and by `zeta - omega^i` it is `omega^i (zeta^n - 1)`, when both have
/// inverses.
pub proof fn lemma_lagrange_value(size: nat, omega: nat, zeta: nat, i: nat)
    requires
        crate::prover::invertible(size),
        crate::prover::invertible(fsub(zeta, fpow(omega, i))),
    ensures
        fmul(fmul(lagrange_value(size, omega, zeta, i), size), fsub(zeta, fpow(omega, i))) == fmul(
            fpow(omega, i),
            fsub(fpow(zeta, size), 1),
        ),
{
    crate::field::lemma_modulus_pos();
    let w = fpow(omega, i);
    crate::evaluation::lemma_fpow_reduced(omega, i);
    assert(w * 1 == w) by (nonlinear_arith);
    vstd::arithmetic::div_mod::lemma_small_mod(w, modulus());
    let e = fmul(w, 1);
    assert(e == w);
    let zh = fsub(fpow(zeta, size), 1);
    let den = fsub(zeta, e);
    let (ni, di) = (finv(size), finv(den));
    let a = fmul(e, zh);
    let l = fmul(fmul(a, ni), di);
    assert(l == lagrange_value(size, omega, zeta, i));
    // l n den = a (ni n) (di den)
    crate::field::lemma_fmul_assoc(fmul(a, ni), di, size);
    crate::field::lemma_fmul_comm(di, size);
    crate::field::lemma_fmul_assoc(fmul(a, ni), size, di);
    crate::field::lemma_fmul_assoc(a, ni, size);
    crate::field::lemma_fmul_comm(ni, size);
    crate::field::lemma_fmul_assoc(fmul(a, fmul(size, ni)), di, den);
    crate::field::lemma_fmul_comm(di, den);
    assert(fmul(fmul(fmul(a, ni), di), size) == fmul(fmul(a, fmul(size, ni)), di));
    assert(fmul(a, fmul(size, ni)) == fmul(a, 1));
    assert(a * 1 == a) by (nonlinear_arith);
    crate::kzg::lemma_reduced_mul(e, zh);
    vstd::arithmetic::div_mod::lemma_small_mod(a, modulus());
    assert(fmul(fmul(a, di), den) == fmul(a, fmul(di, den)));
    assert(fmul(a, fmul(den, di)) == fmul(a, 1));
}


/// The constant part `r_0` of the linearisation polynomial, given
/// `PI(zeta)`.
pub open spec fn spec_r0(vk: VerifierKey, p: Proof, beta: nat, gamma: nat, alpha: nat, zeta: nat, pi_z: nat) -> nat {
    let l1 = spec_l0(vk.n as nat, zeta);
    let g_partial = spec_perm_g_partial(p.evals, beta, gamma);
    fsub(
        fsub(pi_z, fmul(fmul(l1, alpha), alpha)),
        fmul(fmul(fmul(alpha, g_partial), fadd(p.evals.c@, gamma)), p.evals.z_omega@),
    )
}

/// The commitment `[D]` to the rest of the linearisation polynomial.
pub open spec fn spec_d(vk: VerifierKey, p: Proof, beta: nat, gamma: nat, alpha: nat, zeta: nat) -> Seq<u8> {
    let ev = p.evals;
    let n = vk.n as nat;
    let zeta_n = fpow(zeta, n);
    let z_h = fsub(zeta_n, 1);
    let l1 = spec_l0(n, zeta);
    let f = spec_perm_f(ev, beta, gamma, zeta, vk.k1@, vk.k2@);
    let g_partial = spec_perm_g_partial(ev, beta, gamma);
    let alpha2 = fmul(alpha, alpha);
    let d1 = spec_g1_mul(vk.q_m.0@, fmul(ev.a@, ev.b@));
    let d2 = spec_g1_add(d1, spec_g1_mul(vk.q_l.0@, ev.a@));
    let d3 = spec_g1_add(d2, spec_g1_mul(vk.q_r.0@, ev.b@));
    let d4 = spec_g1_add(d3, spec_g1_mul(vk.q_o.0@, ev.c@));
    let d5 = spec_g1_add(d4, vk.q_c.0@);
    let d6 = spec_g1_add(d5, spec_g1_mul(p.z.0@, fadd(fmul(alpha, f), fmul(alpha2, l1))));
    let d7 = spec_g1_add(
        d6,
        spec_g1_neg(spec_g1_mul(vk.s_sigma[2].0@, fmul(fmul(fmul(alpha, g_partial), beta), ev.z_omega@))),
    );
    let t_sum = spec_g1_add(
        spec_g1_add(p.t_lo.0@, spec_g1_mul(p.t_mid.0@, zeta_n)),
        spec_g1_mul(p.t_hi.0@, fmul(zeta_n, zeta_n)),
    );
    spec_g1_add(d7, spec_g1_neg(spec_g1_mul(t_sum, z_h)))
}

/// `[D] + v[a] + v^2[b] + v^3[c] + v^4[S_sigma1] + v^5[S_sigma2]`.
pub open spec fn spec_folded_comm(vk: VerifierKey, p: Proof, d: Seq<u8>, v: nat) -> Seq<u8> {
    let v2 = fmul(v, v);
    let v3 = fmul(v2, v);
    let v4 = fmul(v3, v);
    let v5 = fmul(v4, v);
    spec_g1_add(
        spec_g1_add(
            spec_g1_add(
                spec_g1_add(spec_g1_add(d, spec_g1_mul(p.a.0@, v)), spec_g1_mul(p.b.0@, v2)),
                spec_g1_mul(p.c.0@, v3),
            ),
            spec_g1_mul(vk.s_sigma[0].0@, v4),
        ),
        spec_g1_mul(vk.s_sigma[1].0@, v5),
    )
}

/// `-r_0 + v a + v^2 b + v^3 c + v^4 S_sigma1 + v^5 S_sigma2` at `zeta`.
pub open spec fn spec_folded_value(p: Proof, r0: nat, v: nat) -> nat {
    let ev = p.evals;
    let v2 = fmul(v, v);
    let v3 = fmul(v2, v);
    let v4 = fmul(v3, v);
    let v5 = fmul(v4, v);
    fadd(
        fadd(
            fadd(fadd(fadd(fneg(r0), fmul(v, ev.a@)), fmul(v2, ev.b@)), fmul(v3, ev.c@)),
            fmul(v4, ev.s_sigma1@),
        ),
        fmul(v5, ev.s_sigma2@),
    )
}

/// The two openings, `(C, zeta, y, W_zeta)` and `([z], zeta omega,
/// z_omega, W_zeta_omega)`, checked together with `u`.
pub open spec fn spec_two_openings(vk: VerifierKey, p: Proof, c: Seq<u8>, y: nat, zeta: nat, omega: nat, u: nat) -> bool {
    let term1 = spec_g1_add(spec_g1_add(c, spec_g1_neg(spec_g1_mul(vk.kzg.g@, y))), spec_g1_mul(p.w_zeta.0@, zeta));
    let term2 = spec_g1_add(
        spec_g1_add(p.z.0@, spec_g1_neg(spec_g1_mul(vk.kzg.g@, p.evals.z_omega@))),
        spec_g1_mul(p.w_zeta_omega.0@, fmul(zeta, omega)),
    );
    let lhs = spec_g1_add(
        spec_g1_add(spec_g1_gen_mul(0), spec_g1_mul(term1, fpow(u, 0))),
        spec_g1_mul(term2, fpow(u, 1)),
    );
    let ws = spec_g1_add(
        spec_g1_add(spec_g1_gen_mul(0), spec_g1_mul(p.w_zeta.0@, fpow(u, 0))),
        spec_g1_mul(p.w_zeta_omega.0@, fpow(u, 1)),
    );
    spec_pairing_check(lhs, spec_g1_neg(ws), vk.kzg.h@, vk.kzg.tau_h@)
}

/// The pairing equation the verifier checks, for a domain of size `size`:
/// the batched opening of `[D] + v[a] + v^2[b] + v^3[c] + v^4[S_sigma1] +
/// v^5[S_sigma2]` at `zeta` to `-r_0 + ...`, and of `[z]` at `zeta omega`,
/// combined with `u`.
pub open spec fn verifier_equation(vk: VerifierKey, pi: Seq<nat>, p: Proof, size: nat) -> bool {
    let ch = proof_challenges(vk, pi, p);
    let omega = spec_root_of_unity(size);
    let pi_z = fneg(pi_sum(pi, size, omega, ch.3, pi.len()));
    let r0 = spec_r0(vk, p, ch.0, ch.1, ch.2, ch.3, pi_z);
    let d = spec_d(vk, p, ch.0, ch.1, ch.2, ch.3);
    spec_two_openings(vk, p, spec_folded_comm(vk, p, d, ch.4), spec_folded_value(p, r0, ch.4), ch.3, omega, ch.5)
}

/// The key's commitments are `[ke_j]_1` for `ke = [q_l, q_r, q_o, q_m, q_c,
/// S_sigma1, S_sigma2, S_sigma3]`, and its G1 point is the generator.
pub open spec fn vk_in_exponent(vk: VerifierKey, ke: Seq<nat>) -> bool {
    &&& ke.len() == 8
    &&& forall|j: int| 0 <= j < 8 ==> #[trigger] ke[j] < modulus()
    &&& vk.q_l.0@ == spec_g1_gen_mul(ke[0])
    &&& vk.q_r.0@ == spec_g1_gen_mul(ke[1])
    &&& vk.q_o.0@ == spec_g1_gen_mul(ke[2])
    &&& vk.q_m.0@ == spec_g1_gen_mul(ke[3])
    &&& vk.q_c.0@ == spec_g1_gen_mul(ke[4])
    &&& vk.s_sigma[0].0@ == spec_g1_gen_mul(ke[5])
    &&& vk.s_sigma[1].0@ == spec_g1_gen_mul(ke[6])
    &&& vk.s_sigma[2].0@ == spec_g1_gen_mul(ke[7])
    &&& vk.kzg.g@ == spec_g1_gen_mul(1)
}

/// The proof's points are `[pe_j]_1` for `pe = [a, b, c, z, t_lo, t_mid,
/// t_hi, W_zeta, W_zeta_omega]`.
pub open spec fn proof_in_exponent(p: Proof, pe: Seq<nat>) -> bool {
    &&& pe.len() == 9
    &&& forall|j: int| 0 <= j < 9 ==> #[trigger] pe[j] < modulus()
    &&& p.a.0@ == spec_g1_gen_mul(pe[0])
    &&& p.b.0@ == spec_g1_gen_mul(pe[1])
    &&& p.c.0@ == spec_g1_gen_mul(pe[2])
    &&& p.z.0@ == spec_g1_gen_mul(pe[3])
    &&& p.t_lo.0@ == spec_g1_gen_mul(pe[4])
    &&& p.t_mid.0@ == spec_g1_gen_mul(pe[5])
    &&& p.t_hi.0@ == spec_g1_gen_mul(pe[6])
    &&& p.w_zeta.0@ == spec_g1_gen_mul(pe[7])
    &&& p.w_zeta_omega.0@ == spec_g1_gen_mul(pe[8])
}

/// The exponent of `[D]` (see [`spec_d`]) for a key and proof in the
/// exponent.
pub open spec fn d_exponent(vk: VerifierKey, ke: Seq<nat>, p: Proof, pe: Seq<nat>, beta: nat, gamma: nat, alpha: nat, zeta: nat) -> nat {
    let ev = p.evals;
    let n = vk.n as nat;
    let zeta_n = fpow(zeta, n);
    let z_h = fsub(zeta_n, 1);
    let l1 = spec_l0(n, zeta);
    let f = spec_perm_f(ev, beta, gamma, zeta, vk.k1@, vk.k2@);
    let g_partial = spec_perm_g_partial(ev, beta, gamma);
    let alpha2 = fmul(alpha, alpha);
    let d1 = fmul(ke[3], fmul(ev.a@, ev.b@));
    let d2 = fadd(d1, fmul(ke[0], ev.a@));
    let d3 = fadd(d2, fmul(ke[1], ev.b@));
    let d4 = fadd(d3, fmul(ke[2], ev.c@));
    let d5 = fadd(d4, ke[4]);
    let d6 = fadd(d5, fmul(pe[3], fadd(fmul(alpha, f), fmul(alpha2, l1))));
    let d7 = fadd(d6, fneg(fmul(ke[7], fmul(fmul(fmul(alpha, g_partial), beta), ev.z_omega@))));
    let t_sum = fadd(fadd(pe[4], fmul(pe[5], zeta_n)), fmul(pe[6], fmul(zeta_n, zeta_n)));
    fadd(d7, fneg(fmul(t_sum, z_h)))
}

/// The exponent of `[D] + v[a] + v^2[b] + v^3[c] + v^4[S_sigma1] +
/// v^5[S_sigma2]`.
pub open spec fn folded_comm_exponent(ke: Seq<nat>, pe: Seq<nat>, d: nat, v: nat) -> nat {
    let v2 = fmul(v, v);
    let v3 = fmul(v2, v);
    let v4 = fmul(v3, v);
    let v5 = fmul(v4, v);
    fadd(fadd(fadd(fadd(fadd(d, fmul(pe[0], v)), fmul(pe[1], v2)), fmul(pe[2], v3)), fmul(ke[5], v4)), fmul(ke[6], v5))
}

/// Two KZG openings checked together with `u`, in the exponent: `[c1]`
/// opens to `y1` at `z1` with proof `[w1]`, and `[c2]` to `y2` at `z2` with
/// `[w2]`, when
/// `(c1 - y1 - w1 (tau - z1)) + u (c2 - y2 - w2 (tau - z2)) = 0`.
pub open spec fn two_openings_hold(c1: nat, y1: nat, z1: nat, w1: nat, c2: nat, y2: nat, z2: nat, w2: nat, u: nat, tau: nat) -> bool {
    ((c1 - y1 - w1 * (tau - z1)) + u * (c2 - y2 - w2 * (tau - z2))) % (modulus() as int) == 0
}

/// The pairing equation the verifier checks, stated in the exponent for a
/// key and proof whose points are `[ke]_1`, `[pe]_1` and an SRS with secret
/// `tau`: `[D] + v[a] + ... + v^5[S_sigma2]` opens at `zeta` to
/// `-r_0 + v a + ... + v^5 S_sigma2` with proof `W_zeta`, and `[z]` opens at
/// `zeta omega` to `z_omega` with proof `W_zeta_omega`, batched with `u`.
pub open spec fn verifier_equation_in_exponent(
    vk: VerifierKey,
    ke: Seq<nat>,
    pi: Seq<nat>,
    p: Proof,
    pe: Seq<nat>,
    size: nat,
    tau: nat,
) -> bool {
    let ch = proof_challenges(vk, pi, p);
    let omega = spec_root_of_unity(size);
    let pi_z = fneg(pi_sum(pi, size, omega, ch.3, pi.len()));
    let r0 = spec_r0(vk, p, ch.0, ch.1, ch.2, ch.3, pi_z);
    let d = d_exponent(vk, ke, p, pe, ch.0, ch.1, ch.2, ch.3);
    two_openings_hold(
        folded_comm_exponent(ke, pe, d, ch.4),
        spec_folded_value(p, r0, ch.4),
        ch.3,
        pe[7],
        pe[3],
        p.evals.z_omega@,
        fmul(ch.3, omega),
        pe[8],
        ch.5,
        tau,
    )
}

/// `[D]` and `r_0` make up the linearisation polynomial: when the key's and
/// the proof's points are the selectors, `S_sigma3`, `z` and the quotient
/// pieces at `tau`, the exponent of `[D]` plus `r_0` is the linearisation
/// polynomial's value at `tau`.
#[verifier::rlimit(100)]
#[verifier::spinoff_prover]
pub proof fn lemma_d_is_linearisation(
    vk: VerifierKey,
    ke: Seq<nat>,
    p: Proof,
    pe: Seq<nat>,
    beta: nat,
    gamma: nat,
    alpha: nat,
    zeta: nat,
    pi_z: nat,
    q: Seq<nat>,
    s3: nat,
    zx: nat,
    t: Seq<nat>,
)
    requires
        ke.len() == 8,
        pe.len() == 9,
        q.len() == 5,
        t.len() == 3,
        ke[0] == q[0] && ke[1] == q[1] && ke[2] == q[2] && ke[3] == q[3] && ke[4] == q[4],
        ke[7] == s3,
        pe[3] == zx,
        pe[4] == t[0] && pe[5] == t[1] && pe[6] == t[2],
    ensures
        fadd(d_exponent(vk, ke, p, pe, beta, gamma, alpha, zeta), spec_r0(vk, p, beta, gamma, alpha, zeta, pi_z))
            == linearisation_value(
            q,
            s3,
            zx,
            t,
            evaluation_values(p.evals),
            pi_z,
            beta,
            gamma,
            alpha,
            zeta,
            (vk.k1@, vk.k2@),
            vk.n as nat,
        ),
{
    let m = modulus() as int;
    crate::field::lemma_modulus_pos();
    let ev = p.evals;
    let e = evaluation_values(ev);
    let n = vk.n as nat;
    let zeta_n = fpow(zeta, n);
    let z_h = fsub(zeta_n, 1);
    let l1 = spec_l0(n, zeta);
    let f = spec_perm_f(ev, beta, gamma, zeta, vk.k1@, vk.k2@);
    let gp = spec_perm_g_partial(ev, beta, gamma);
    let alpha2 = fmul(alpha, alpha);
    let (a, b, c, zw) = (ev.a@, ev.b@, ev.c@, ev.z_omega@);
    assert(e[0] == a && e[1] == b && e[2] == c && e[5] == zw);
    // integer atoms
    let (ai, bi, ci, zwi) = (a as int, b as int, c as int, zw as int);
    let (q0, q1, q2, q3, q4) = (q[0] as int, q[1] as int, q[2] as int, q[3] as int, q[4] as int);
    let (s3i, zxi, t0, t1, t2) = (s3 as int, zx as int, t[0] as int, t[1] as int, t[2] as int);
    let (fi, gpi, be, ga, al, l1i, zn, zh, pii) = (
        f as int,
        gp as int,
        beta as int,
        gamma as int,
        alpha as int,
        l1 as int,
        zeta_n as int,
        z_h as int,
        pi_z as int,
    );
    // the exponent of [D]
    lemma_fmul_cong(a, b, ai, bi);
    lemma_fmul_cong(ke[3], fmul(a, b), q3, ai * bi);
    let d1 = fmul(ke[3], fmul(a, b));
    lemma_fmul_cong(ke[0], a, q0, ai);
    lemma_fadd_cong(d1, fmul(ke[0], a), q3 * (ai * bi), q0 * ai);
    let d2 = fadd(d1, fmul(ke[0], a));
    let i2 = q3 * (ai * bi) + q0 * ai;
    lemma_fmul_cong(ke[1], b, q1, bi);
    lemma_fadd_cong(d2, fmul(ke[1], b), i2, q1 * bi);
    let d3 = fadd(d2, fmul(ke[1], b));
    let i3 = i2 + q1 * bi;
    lemma_fmul_cong(ke[2], c, q2, ci);
    lemma_fadd_cong(d3, fmul(ke[2], c), i3, q2 * ci);
    let d4 = fadd(d3, fmul(ke[2], c));
    let i4 = i3 + q2 * ci;
    lemma_fadd_cong(d4, ke[4], i4, q4);
    let d5 = fadd(d4, ke[4]);
    let i5 = i4 + q4;
    lemma_fmul_cong(alpha, f, al, fi);
    lemma_fmul_cong(alpha, alpha, al, al);
    lemma_fmul_cong(alpha2, l1, al * al, l1i);
    lemma_fadd_cong(fmul(alpha, f), fmul(alpha2, l1), al * fi, (al * al) * l1i);
    let k6 = fadd(fmul(alpha, f), fmul(alpha2, l1));
    lemma_fmul_cong(pe[3], k6, zxi, al * fi + (al * al) * l1i);
    lemma_fadd_cong(d5, fmul(pe[3], k6), i5, zxi * (al * fi + (al * al) * l1i));
    let d6 = fadd(d5, fmul(pe[3], k6));
    let i6 = i5 + zxi * (al * fi + (al * al) * l1i);
    lemma_fmul_cong(alpha, gp, al, gpi);
    lemma_fmul_cong(fmul(alpha, gp), beta, al * gpi, be);
    lemma_fmul_cong(fmul(fmul(alpha, gp), beta), zw, (al * gpi) * be, zwi);
    let k7 = fmul(fmul(fmul(alpha, gp), beta), zw);
    let i7k = ((al * gpi) * be) * zwi;
    lemma_fmul_cong(ke[7], k7, s3i, i7k);
    lemma_fneg_cong(fmul(ke[7], k7), s3i * i7k);
    lemma_fadd_cong(d6, fneg(fmul(ke[7], k7)), i6, 0 - s3i * i7k);
    let d7 = fadd(d6, fneg(fmul(ke[7], k7)));
    let i7 = i6 + (0 - s3i * i7k);
    lemma_fmul_cong(pe[5], zeta_n, t1, zn);
    lemma_fadd_cong(pe[4], fmul(pe[5], zeta_n), t0, t1 * zn);
    lemma_fmul_cong(zeta_n, zeta_n, zn, zn);
    lemma_fmul_cong(pe[6], fmul(zeta_n, zeta_n), t2, zn * zn);
    let ts = fadd(fadd(pe[4], fmul(pe[5], zeta_n)), fmul(pe[6], fmul(zeta_n, zeta_n)));
    lemma_fadd_cong(fadd(pe[4], fmul(pe[5], zeta_n)), fmul(pe[6], fmul(zeta_n, zeta_n)), t0 + t1 * zn, t2 * (zn * zn));
    let tsi = t0 + t1 * zn + t2 * (zn * zn);
    lemma_fmul_cong(ts, z_h, tsi, zh);
    lemma_fneg_cong(fmul(ts, z_h), tsi * zh);
    let dd = fadd(d7, fneg(fmul(ts, z_h)));
    lemma_fadd_cong(d7, fneg(fmul(ts, z_h)), i7, 0 - tsi * zh);
    let di = i7 + (0 - tsi * zh);
    assert(dd == d_exponent(vk, ke, p, pe, beta, gamma, alpha, zeta));
    // r_0
    lemma_fmul_cong(l1, alpha, l1i, al);
    lemma_fmul_cong(fmul(l1, alpha), alpha, l1i * al, al);
    lemma_fsub_cong(pi_z, fmul(fmul(l1, alpha), alpha), pii, (l1i * al) * al);
    lemma_fadd_cong(c, gamma, ci, ga);
    lemma_fmul_cong(fmul(alpha, gp), fadd(c, gamma), al * gpi, ci + ga);
    lemma_fmul_cong(fmul(fmul(alpha, gp), fadd(c, gamma)), zw, (al * gpi) * (ci + ga), zwi);
    let r0 = spec_r0(vk, p, beta, gamma, alpha, zeta, pi_z);
    lemma_fsub_cong(
        fsub(pi_z, fmul(fmul(l1, alpha), alpha)),
        fmul(fmul(fmul(alpha, gp), fadd(c, gamma)), zw),
        pii - (l1i * al) * al,
        ((al * gpi) * (ci + ga)) * zwi,
    );
    let r0i = (pii - (l1i * al) * al) - ((al * gpi) * (ci + ga)) * zwi;
    lemma_fadd_cong(dd, r0, di, r0i);
    // the linearisation value
    let gate = fadd(fadd(fadd(fadd(fmul(q[3], fmul(a, b)), fmul(q[0], a)), fmul(q[1], b)), fmul(q[2], c)), fadd(q[4], pi_z));
    lemma_fadd_cong(q[4], pi_z, q4, pii);
    lemma_fadd_cong(d4, fadd(q[4], pi_z), i4, q4 + pii);
    let gi = i4 + (q4 + pii);
    assert(gate == fadd(d4, fadd(q[4], pi_z)));
    lemma_fmul_cong(gp, beta, gpi, be);
    lemma_fmul_cong(s3, fmul(gp, beta), s3i, gpi * be);
    lemma_fmul_cong(gp, fadd(c, gamma), gpi, ci + ga);
    let g = fadd(fmul(s3, fmul(gp, beta)), fmul(gp, fadd(c, gamma)));
    lemma_fadd_cong(fmul(s3, fmul(gp, beta)), fmul(gp, fadd(c, gamma)), s3i * (gpi * be), gpi * (ci + ga));
    let ggi = s3i * (gpi * be) + gpi * (ci + ga);
    lemma_fmul_cong(zx, f, zxi, fi);
    lemma_fmul_cong(g, zw, ggi, zwi);
    let perm = fsub(fmul(zx, f), fmul(g, zw));
    lemma_fsub_cong(fmul(zx, f), fmul(g, zw), zxi * fi, ggi * zwi);
    let pmi = zxi * fi - ggi * zwi;
    lemma_fsub_cong(zx, 1, zxi, 1);
    let start = fmul(fsub(zx, 1), l1);
    lemma_fmul_cong(fsub(zx, 1), l1, zxi - 1, l1i);
    let sti = (zxi - 1) * l1i;
    lemma_fmul_cong(perm, alpha, pmi, al);
    lemma_fadd_cong(gate, fmul(perm, alpha), gi, pmi * al);
    lemma_fmul_cong(start, alpha2, sti, al * al);
    lemma_fadd_cong(fadd(gate, fmul(perm, alpha)), fmul(start, alpha2), gi + pmi * al, sti * (al * al));
    lemma_fmul_cong(t[1], zeta_n, t1, zn);
    lemma_fadd_cong(t[0], fmul(t[1], zeta_n), t0, t1 * zn);
    lemma_fmul_cong(t[2], fmul(zeta_n, zeta_n), t2, zn * zn);
    let quot = fadd(fadd(t[0], fmul(t[1], zeta_n)), fmul(t[2], fmul(zeta_n, zeta_n)));
    lemma_fadd_cong(fadd(t[0], fmul(t[1], zeta_n)), fmul(t[2], fmul(zeta_n, zeta_n)), t0 + t1 * zn, t2 * (zn * zn));
    lemma_fmul_cong(quot, z_h, tsi, zh);
    let whole = fadd(fadd(gate, fmul(perm, alpha)), fmul(start, alpha2));
    lemma_fsub_cong(whole, fmul(quot, z_h), gi + pmi * al + sti * (al * al), tsi * zh);
    let li = gi + pmi * al + sti * (al * al) - tsi * zh;
    assert(linearisation_value(q, s3, zx, t, e, pi_z, beta, gamma, alpha, zeta, (vk.k1@, vk.k2@), n) == fsub(
        whole,
        fmul(quot, z_h),
    ));
    // the products, distributed
    let zf = zxi * fi;
    let zl = zxi * l1i;
    let a2 = al * al;
    assert(zxi * (al * fi + a2 * l1i) == zf * al + zl * a2) by (nonlinear_arith)
        requires
            zf == zxi * fi,
            zl == zxi * l1i,
    ;
    assert(pmi * al == zf * al - ggi * zwi * al) by (nonlinear_arith)
        requires
            pmi == zxi * fi - ggi * zwi,
            zf == zxi * fi,
    ;
    let sgz = s3i * (gpi * be) * zwi * al;
    let gcz = gpi * (ci + ga) * zwi * al;
    assert(ggi * zwi * al == sgz + gcz) by (nonlinear_arith)
        requires
            ggi == s3i * (gpi * be) + gpi * (ci + ga),
            sgz == s3i * (gpi * be) * zwi * al,
            gcz == gpi * (ci + ga) * zwi * al,
    ;
    assert(s3i * i7k == sgz) by (nonlinear_arith)
        requires
            i7k == ((al * gpi) * be) * zwi,
            sgz == s3i * (gpi * be) * zwi * al,
    ;
    assert(((al * gpi) * (ci + ga)) * zwi == gcz) by (nonlinear_arith)
        requires
            gcz == gpi * (ci + ga) * zwi * al,
    ;
    assert(sti * a2 == zl * a2 - (l1i * al) * al) by (nonlinear_arith)
        requires
            sti == (zxi - 1) * l1i,
            zl == zxi * l1i,
            a2 == al * al,
    ;
    assert(i6 == i5 + zf * al + zl * a2);
    assert(di + r0i == li);
    let lv = fsub(whole, fmul(quot, z_h));
    let lhs = fadd(dd, r0);
    vstd::arithmetic::div_mod::lemma_mod_bound((dd + r0) as int, m);
    vstd::arithmetic::div_mod::lemma_mod_bound(whole as int - fmul(quot, z_h) as int, m);
    vstd::arithmetic::div_mod::lemma_small_mod(lhs, modulus());
    vstd::arithmetic::div_mod::lemma_small_mod(lv, modulus());
}

fn compute_d(vk: &VerifierKey, proof: &Proof, beta: &Scalar, gamma: &Scalar, alpha: &Scalar, zeta: &Scalar) -> (r: G1)
    ensures
        r@ == spec_d(*vk, *proof, beta@, gamma@, alpha@, zeta@),
        forall|ke: Seq<nat>, pe: Seq<nat>|
            #[trigger] vk_in_exponent(*vk, ke) && #[trigger] proof_in_exponent(*proof, pe) ==> r@ == spec_g1_gen_mul(
                d_exponent(*vk, ke, *proof, pe, beta@, gamma@, alpha@, zeta@),
            ) && d_exponent(*vk, ke, *proof, pe, beta@, gamma@, alpha@, zeta@) < modulus(),
{
    let ev = &proof.evals;
    let (zeta_n, z_h, l1) = vanishing_at(vk.n, zeta);
    let (f, g_partial) = ev.permutation_factors(beta, gamma, zeta, &vk.k1, &vk.k2);
    let alpha2 = alpha.times(alpha);
    let ab = ev.a.times(&ev.b);
    let d1 = vk.q_m.0.scale(&ab);
    let e2 = vk.q_l.0.scale(&ev.a);
    let d2 = d1.plus(&e2);
    let e3 = vk.q_r.0.scale(&ev.b);
    let d3 = d2.plus(&e3);
    let e4 = vk.q_o.0.scale(&ev.c);
    let d4 = d3.plus(&e4);
    let d5 = d4.plus(&vk.q_c.0);
    let k6 = alpha.times(&f).plus(&alpha2.times(&l1));
    let e6 = proof.z.0.scale(&k6);
    let d6 = d5.plus(&e6);
    let k7 = alpha.times(&g_partial).times(beta).times(&ev.z_omega);
    let e7 = vk.s_sigma[2].0.scale(&k7);
    let n7 = e7.negate();
    let d7 = d6.plus(&n7);
    let tm = proof.t_mid.0.scale(&zeta_n);
    let zn2 = zeta_n.times(&zeta_n);
    let th = proof.t_hi.0.scale(&zn2);
    let t1 = proof.t_lo.0.plus(&tm);
    let t_sum = t1.plus(&th);
    let ts = t_sum.scale(&z_h);
    let nts = ts.negate();
    let r = d7.plus(&nts);
    proof {
        assert forall|ke: Seq<nat>, pe: Seq<nat>|
            #[trigger] vk_in_exponent(*vk, ke) && #[trigger] proof_in_exponent(*proof, pe) implies r@ == spec_g1_gen_mul(
                d_exponent(*vk, ke, *proof, pe, beta@, gamma@, alpha@, zeta@),
            ) && d_exponent(*vk, ke, *proof, pe, beta@, gamma@, alpha@, zeta@) < modulus() by {
            assert(ke[3] < modulus() && ke[0] < modulus() && ke[1] < modulus() && ke[2] < modulus() && ke[4] < modulus());
            assert(ke[7] < modulus() && pe[3] < modulus() && pe[4] < modulus() && pe[5] < modulus() && pe[6] < modulus());
            let x1 = fmul(ke[3], ab@);
            lemma_reduced_mul(ke[3], ab@);
            assert(d1@ == spec_g1_gen_mul(x1));
            let y2 = fmul(ke[0], ev.a@);
            lemma_reduced_mul(ke[0], ev.a@);
            assert(e2@ == spec_g1_gen_mul(y2));
            let x2 = fadd(x1, y2);
            lemma_reduced_add(x1, y2);
            assert(d2@ == spec_g1_gen_mul(x2));
            let y3 = fmul(ke[1], ev.b@);
            lemma_reduced_mul(ke[1], ev.b@);
            assert(e3@ == spec_g1_gen_mul(y3));
            let x3 = fadd(x2, y3);
            lemma_reduced_add(x2, y3);
            assert(d3@ == spec_g1_gen_mul(x3));
            let y4 = fmul(ke[2], ev.c@);
            lemma_reduced_mul(ke[2], ev.c@);
            assert(e4@ == spec_g1_gen_mul(y4));
            let x4 = fadd(x3, y4);
            lemma_reduced_add(x3, y4);
            assert(d4@ == spec_g1_gen_mul(x4));
            let x5 = fadd(x4, ke[4]);
            lemma_reduced_add(x4, ke[4]);
            assert(d5@ == spec_g1_gen_mul(x5));
            let y6 = fmul(pe[3], k6@);
            lemma_reduced_mul(pe[3], k6@);
            assert(e6@ == spec_g1_gen_mul(y6));
            let x6 = fadd(x5, y6);
            lemma_reduced_add(x5, y6);
            assert(d6@ == spec_g1_gen_mul(x6));
            let y7 = fmul(ke[7], k7@);
            lemma_reduced_mul(ke[7], k7@);
            assert(e7@ == spec_g1_gen_mul(y7));
            lemma_reduced_neg(y7);
            assert(n7@ == spec_g1_gen_mul(fneg(y7)));
            let x7 = fadd(x6, fneg(y7));
            lemma_reduced_add(x6, fneg(y7));
            assert(d7@ == spec_g1_gen_mul(x7));
            let ym = fmul(pe[5], zeta_n@);
            lemma_reduced_mul(pe[5], zeta_n@);
            assert(tm@ == spec_g1_gen_mul(ym));
            let yh = fmul(pe[6], zn2@);
            lemma_reduced_mul(pe[6], zn2@);
            assert(th@ == spec_g1_gen_mul(yh));
            let s1 = fadd(pe[4], ym);
            lemma_reduced_add(pe[4], ym);
            assert(t1@ == spec_g1_gen_mul(s1));
            let s2 = fadd(s1, yh);
            lemma_reduced_add(s1, yh);
            assert(t_sum@ == spec_g1_gen_mul(s2));
            let ys = fmul(s2, z_h@);
            lemma_reduced_mul(s2, z_h@);
            assert(ts@ == spec_g1_gen_mul(ys));
            lemma_reduced_neg(ys);
            assert(nts@ == spec_g1_gen_mul(fneg(ys)));
            lemma_reduced_add(x7, fneg(ys));
            assert(r@ == spec_g1_gen_mul(fadd(x7, fneg(ys))));
        }
    }
    r
}

fn check_openings(
    vk: &VerifierKey,
    proof: &Proof,
    c: G1,
    y: Scalar,
    zeta: &Scalar,
    omega: &Scalar,
    u: &Scalar,
) -> (r: bool)
    ensures
        r == spec_two_openings(*vk, *proof, c@, y@, zeta@, omega@, u@),
        forall|tau: nat, ce: nat, pe: Seq<nat>|
            #![trigger spec_g2_gen_mul(tau), proof_in_exponent(*proof, pe), spec_g1_gen_mul(ce)]
            tau < modulus() && ce < modulus() && c@ == spec_g1_gen_mul(ce) && proof_in_exponent(*proof, pe) && vk.kzg.g@
                == spec_g1_gen_mul(1) && vk.kzg.h@ == spec_g2_gen_mul(1) && vk.kzg.tau_h@ == spec_g2_gen_mul(tau) ==> (r
                <==> two_openings_hold(
                ce,
                y@,
                zeta@,
                pe[7],
                pe[3],
                proof.evals.z_omega@,
                fmul(zeta@, omega@),
                pe[8],
                u@,
                tau,
            )),
{
    let openings = [
        Opening { comm: Commitment(c), point: *zeta, value: y, proof: proof.w_zeta },
        Opening { comm: proof.z, point: zeta.times(omega), value: proof.evals.z_omega, proof: proof.w_zeta_omega },
    ];
    let ok = vk.kzg.verify_multi_point(&openings, u);
    proof {
        let os = openings@;
        assert(os.len() == 2);
        assert(fold_opening_terms(vk.kzg, os, u@, 0) == spec_g1_gen_mul(0));
        assert(fold_opening_proofs(os, u@, 0) == spec_g1_gen_mul(0));
        let t0 = opening_term(vk.kzg, os[0]);
        let t1 = opening_term(vk.kzg, os[1]);
        assert(fold_opening_terms(vk.kzg, os, u@, 1) == spec_g1_add(spec_g1_gen_mul(0), spec_g1_mul(t0, fpow(u@, 0))));
        assert(fold_opening_terms(vk.kzg, os, u@, 2) == spec_g1_add(
            fold_opening_terms(vk.kzg, os, u@, 1),
            spec_g1_mul(t1, fpow(u@, 1)),
        ));
        assert(fold_opening_proofs(os, u@, 1) == spec_g1_add(spec_g1_gen_mul(0), spec_g1_mul(proof.w_zeta.0@, fpow(u@, 0))));
        assert(fold_opening_proofs(os, u@, 2) == spec_g1_add(
            fold_opening_proofs(os, u@, 1),
            spec_g1_mul(proof.w_zeta_omega.0@, fpow(u@, 1)),
        ));
        assert forall|tau: nat, ce: nat, pe: Seq<nat>|
            #![trigger spec_g2_gen_mul(tau), proof_in_exponent(*proof, pe), spec_g1_gen_mul(ce)]
            tau < modulus() && ce < modulus() && c@ == spec_g1_gen_mul(ce) && proof_in_exponent(*proof, pe) && vk.kzg.g@
                == spec_g1_gen_mul(1) && vk.kzg.h@ == spec_g2_gen_mul(1) && vk.kzg.tau_h@ == spec_g2_gen_mul(tau) implies (ok
                <==> two_openings_hold(
                ce,
                y@,
                zeta@,
                pe[7],
                pe[3],
                proof.evals.z_omega@,
                fmul(zeta@, omega@),
                pe[8],
                u@,
                tau,
            )) by {
            let cs = seq![ce, pe[3]];
            let ws = seq![pe[7], pe[8]];
            assert(pe[3] < modulus() && pe[7] < modulus() && pe[8] < modulus());
            assert(os[0].comm.0@ == c@ && os[1].comm.0@ == proof.z.0@);
            assert(openings_in_exponent(os, cs, ws));
            assert(ok <==> batched_opening_equation(os, cs, ws, u@, tau));
            lemma_two_batched(os, cs, ws, u@, tau);
        }
    }
    ok
}

/// Two batched openings in the exponent, written out.
proof fn lemma_two_batched(os: Seq<Opening>, cs: Seq<nat>, ws: Seq<nat>, u: nat, tau: nat)
    requires
        os.len() == 2,
        cs.len() == 2,
        ws.len() == 2,
    ensures
        batched_opening_equation(os, cs, ws, u, tau) <==> two_openings_hold(
            cs[0],
            os[0].value@,
            os[0].point@,
            ws[0],
            cs[1],
            os[1].value@,
            os[1].point@,
            ws[1],
            u,
            tau,
        ),
{
    let m = modulus() as int;
    crate::field::lemma_modulus_pos();
    let (c0, v0, z0, w0) = (cs[0] as int, os[0].value@ as int, os[0].point@ as int, ws[0] as int);
    let (c1, v1, z1, w1) = (cs[1] as int, os[1].value@ as int, os[1].point@ as int, ws[1] as int);
    let ui = u as int;
    // the two terms
    assert forall|c: nat, v: nat, z: nat, w: nat| #[trigger] term_exponent(c, v, z, w) as int % m == (c - v + w * z) % m by {
        vstd::arithmetic::div_mod::lemma_mod_twice(c as int, m);
        vstd::arithmetic::div_mod::lemma_mod_twice(v as int, m);
        vstd::arithmetic::div_mod::lemma_mod_twice(w as int, m);
        vstd::arithmetic::div_mod::lemma_mod_twice(z as int, m);
        vstd::arithmetic::div_mod::lemma_mod_twice(1, m);
        lemma_fmul_cong(1, v, 1, v as int);
        assert(1 * (v as int) == v);
        vstd::arithmetic::div_mod::lemma_mod_twice(0 - fmul(1, v), m);
        vstd::arithmetic::div_mod::lemma_sub_mod_noop(0, fmul(1, v) as int, m);
        vstd::arithmetic::div_mod::lemma_sub_mod_noop(0, v as int, m);
        assert(fneg(fmul(1, v)) as int % m == (0 - v) % m);
        lemma_fadd_cong(c, fneg(fmul(1, v)), c as int, 0 - v);
        lemma_fmul_cong(w, z, w as int, z as int);
        lemma_fadd_cong(fadd(c, fneg(fmul(1, v))), fmul(w, z), c + (0 - v), (w * z) as int);
        assert(c + (0 - v) + w * z == c - v + w * z);
    }
    let t0 = term_exponent(cs[0], os[0].value@, os[0].point@, ws[0]);
    let t1 = term_exponent(cs[1], os[1].value@, os[1].point@, ws[1]);
    assert(t0 as int % m == (c0 - v0 + w0 * z0) % m);
    assert(t1 as int % m == (c1 - v1 + w1 * z1) % m);
    // u^0 and u^1
    assert(fpow(u, 0) == 1);
    assert(fpow(u, 1) == fmul(1, u));
    lemma_fmul_cong(1, u, 1, ui);
    assert(1 * ui == ui);
    vstd::arithmetic::div_mod::lemma_mod_twice(ui, m);
    vstd::arithmetic::div_mod::lemma_mod_twice(1, m);
    // the folds
    let l1 = fold_terms_exponent(os, cs, ws, u, 1);
    let l2 = fold_terms_exponent(os, cs, ws, u, 2);
    assert(fold_terms_exponent(os, cs, ws, u, 0) == 0);
    assert(l1 == fadd(0, fmul(t0, fpow(u, 0))));
    assert(l2 == fadd(l1, fmul(t1, fpow(u, 1))));
    vstd::arithmetic::div_mod::lemma_mod_twice(0, m);
    lemma_fmul_cong(t0, fpow(u, 0), c0 - v0 + w0 * z0, 1);
    lemma_fadd_cong(0, fmul(t0, fpow(u, 0)), 0, (c0 - v0 + w0 * z0) * 1);
    lemma_fmul_cong(t1, fpow(u, 1), c1 - v1 + w1 * z1, ui);
    lemma_fadd_cong(l1, fmul(t1, fpow(u, 1)), 0 + (c0 - v0 + w0 * z0) * 1, (c1 - v1 + w1 * z1) * ui);
    let ll = 0 + (c0 - v0 + w0 * z0) * 1 + (c1 - v1 + w1 * z1) * ui;
    let p1 = fold_proofs_exponent(ws, u, 1);
    let p2 = fold_proofs_exponent(ws, u, 2);
    assert(fold_proofs_exponent(ws, u, 0) == 0);
    assert(p1 == fadd(0, fmul(ws[0], fpow(u, 0))));
    assert(p2 == fadd(p1, fmul(ws[1], fpow(u, 1))));
    vstd::arithmetic::div_mod::lemma_mod_twice(w0, m);
    vstd::arithmetic::div_mod::lemma_mod_twice(w1, m);
    lemma_fmul_cong(ws[0], fpow(u, 0), w0, 1);
    lemma_fadd_cong(0, fmul(ws[0], fpow(u, 0)), 0, w0 * 1);
    lemma_fmul_cong(ws[1], fpow(u, 1), w1, ui);
    lemma_fadd_cong(p1, fmul(ws[1], fpow(u, 1)), 0 + w0 * 1, w1 * ui);
    let ww = 0 + w0 * 1 + w1 * ui;
    // l2 - p2 tau against ll - ww tau
    crate::evaluation::lemma_cong_mul(p2 as int, ww, tau as int);
    vstd::arithmetic::div_mod::lemma_sub_mod_noop(l2 as int, (p2 * tau) as int, m);
    vstd::arithmetic::div_mod::lemma_sub_mod_noop(ll, ww * tau, m);
    assert((l2 - p2 * tau) % m == (ll - ww * tau) % m);
    let e = (c0 - v0 - w0 * (tau - z0)) + ui * (c1 - v1 - w1 * (tau - z1));
    assert(ll - ww * tau == e) by (nonlinear_arith)
        requires
            ll == 0 + (c0 - v0 + w0 * z0) * 1 + (c1 - v1 + w1 * z1) * ui,
            ww == 0 + w0 * 1 + w1 * ui,
            e == (c0 - v0 - w0 * (tau - z0)) + ui * (c1 - v1 - w1 * (tau - z1)),
    ;
}

/// `Z_H` at the proof's `zeta` is zero.
pub open spec fn zeta_in_domain(vk: VerifierKey, pi: Seq<nat>, p: Proof) -> bool {
    fsub(fpow(proof_challenges(vk, pi, p).3, vk.n as nat), 1) == 0
}

/// `PI(zeta) = -sum_i x_i L_i(zeta)`.
fn public_input_at(domain: &Domain, zeta: &Scalar, public_inputs: &[Scalar]) -> (r: Scalar)
    requires
        domain.spec_offset() == 1,
    ensures
        r@ == fneg(pi_sum(vals(public_inputs@), domain.spec_size(), domain.spec_group_gen(), zeta@, public_inputs@.len() as nat)),
{
    domain.lemma_wf();
    let omega = domain.group_gen();
    let lagrange = lagrange_at(domain, zeta, public_inputs.len());
    let mut sum = Scalar::zero();
    for i in 0..public_inputs.len()
        invariant
            lagrange@.len() == public_inputs@.len(),
            domain.spec_offset() == 1,
            omega@ == domain.spec_group_gen(),
            forall|j: int| 0 <= j < public_inputs@.len() ==> (#[trigger] lagrange@[j])@ == fmul(
                fmul(fmul(domain.spec_element(j as nat), fsub(fpow(zeta@, domain.spec_size()), 1)), finv(domain.spec_size())),
                if fsub(zeta@, domain.spec_element(j as nat)) == 0 { 0 } else { finv(fsub(zeta@, domain.spec_element(j as nat))) },
            ),
            sum@ == pi_sum(vals(public_inputs@), domain.spec_size(), omega@, zeta@, i as nat),
    {
        proof {
            assert(vals(public_inputs@)[i as int] == public_inputs@[i as int]@);
            assert(lagrange@[i as int]@ == lagrange_value(domain.spec_size(), omega@, zeta@, i as nat));
        }
        sum = sum.plus(&public_inputs[i].times(&lagrange[i]));
    }
    sum.negate()
}

fn compute_r0(vk: &VerifierKey, proof: &Proof, beta: &Scalar, gamma: &Scalar, alpha: &Scalar, zeta: &Scalar, pi: &Scalar) -> (r: Scalar)
    ensures
        r@ == spec_r0(*vk, *proof, beta@, gamma@, alpha@, zeta@, pi@),
{
    let ev = &proof.evals;
    let (_zeta_n, _z_h, l1) = vanishing_at(vk.n, zeta);
    let (_f, g_partial) = ev.permutation_factors(beta, gamma, zeta, &vk.k1, &vk.k2);
    pi.minus(&l1.times(alpha).times(alpha)).minus(&alpha.times(&g_partial).times(&ev.c.plus(gamma)).times(&ev.z_omega))
}

fn fold_commitments(vk: &VerifierKey, proof: &Proof, d: G1, v: &Scalar) -> (r: G1)
    ensures
        r@ == spec_folded_comm(*vk, *proof, d@, v@),
        forall|ke: Seq<nat>, pe: Seq<nat>, de: nat|
            #![trigger vk_in_exponent(*vk, ke), proof_in_exponent(*proof, pe), spec_g1_gen_mul(de)]
            vk_in_exponent(*vk, ke) && proof_in_exponent(*proof, pe) && de < modulus() && d@ == spec_g1_gen_mul(de) ==> r@
                == spec_g1_gen_mul(folded_comm_exponent(ke, pe, de, v@)) && folded_comm_exponent(ke, pe, de, v@) < modulus(),
{
    let v2 = v.times(v);
    let v3 = v2.times(v);
    let v4 = v3.times(v);
    let v5 = v4.times(v);
    let e1 = proof.a.0.scale(v);
    let f1 = d.plus(&e1);
    let e2 = proof.b.0.scale(&v2);
    let f2 = f1.plus(&e2);
    let e3 = proof.c.0.scale(&v3);
    let f3 = f2.plus(&e3);
    let e4 = vk.s_sigma[0].0.scale(&v4);
    let f4 = f3.plus(&e4);
    let e5 = vk.s_sigma[1].0.scale(&v5);
    let r = f4.plus(&e5);
    proof {
        assert forall|ke: Seq<nat>, pe: Seq<nat>, de: nat|
            #![trigger vk_in_exponent(*vk, ke), proof_in_exponent(*proof, pe), spec_g1_gen_mul(de)]
            vk_in_exponent(*vk, ke) && proof_in_exponent(*proof, pe) && de < modulus() && d@ == spec_g1_gen_mul(de) implies r@
                == spec_g1_gen_mul(folded_comm_exponent(ke, pe, de, v@)) && folded_comm_exponent(ke, pe, de, v@) < modulus() by {
            assert(pe[0] < modulus() && pe[1] < modulus() && pe[2] < modulus() && ke[5] < modulus() && ke[6] < modulus());
            let y1 = fmul(pe[0], v@);
            lemma_reduced_mul(pe[0], v@);
            assert(e1@ == spec_g1_gen_mul(y1));
            let x1 = fadd(de, y1);
            lemma_reduced_add(de, y1);
            assert(f1@ == spec_g1_gen_mul(x1));
            let y2 = fmul(pe[1], v2@);
            lemma_reduced_mul(pe[1], v2@);
            assert(e2@ == spec_g1_gen_mul(y2));
            let x2 = fadd(x1, y2);
            lemma_reduced_add(x1, y2);
            assert(f2@ == spec_g1_gen_mul(x2));
            let y3 = fmul(pe[2], v3@);
            lemma_reduced_mul(pe[2], v3@);
            assert(e3@ == spec_g1_gen_mul(y3));
            let x3 = fadd(x2, y3);
            lemma_reduced_add(x2, y3);
            assert(f3@ == spec_g1_gen_mul(x3));
            let y4 = fmul(ke[5], v4@);
            lemma_reduced_mul(ke[5], v4@);
            assert(e4@ == spec_g1_gen_mul(y4));
            let x4 = fadd(x3, y4);
            lemma_reduced_add(x3, y4);
            assert(f4@ == spec_g1_gen_mul(x4));
            let y5 = fmul(ke[6], v5@);
            lemma_reduced_mul(ke[6], v5@);
            assert(e5@ == spec_g1_gen_mul(y5));
            lemma_reduced_add(x4, y5);
        }
    }
    r
}

fn fold_values(proof: &Proof, r0: &Scalar, v: &Scalar) -> (r: Scalar)
    ensures
        r@ == spec_folded_value(*proof, r0@, v@),
{
    let ev = &proof.evals;
    let v2 = v.times(v);
    let v3 = v2.times(v);
    let v4 = v3.times(v);
    let v5 = v4.times(v);
    r0.negate().plus(&v.times(&ev.a)).plus(&v2.times(&ev.b)).plus(&v3.times(&ev.c)).plus(&v4.times(&ev.s_sigma1)).plus(
        &v5.times(&ev.s_sigma2),
    )
}

/// Check a proof against the key and public inputs.
#[verifier::rlimit(100)]
pub fn verify(vk: &VerifierKey, public_inputs: &[Scalar], proof: &Proof) -> (r: Result<(), VerifyError>)
    ensures
        ({
            let pi = vals(public_inputs@);
            let count_ok = public_inputs@.len() == vk.num_public_inputs;
            let domain_ok = vk.n <= max_domain_size() && vk.n <= usize::MAX / 2 + 1;
            &&& (r matches Err(VerifyError::PublicInputCount { expected, got }) <==> !count_ok)
            &&& (r matches Err(VerifyError::PublicInputCount { expected, got }) ==> expected == vk.num_public_inputs
                && got == public_inputs@.len())
            &&& (r matches Err(VerifyError::BadDomain { size }) <==> count_ok && !domain_ok)
            &&& (r matches Err(VerifyError::BadDomain { size }) ==> size == vk.n)
            &&& (r matches Err(VerifyError::ZetaInDomain) <==> count_ok && domain_ok && zeta_in_domain(*vk, pi, *proof))
            &&& (r is Ok <==> count_ok && domain_ok && !zeta_in_domain(*vk, pi, *proof) && verifier_equation(
                *vk,
                pi,
                *proof,
                pow2_ceil(vk.n as nat),
            ))
            &&& forall|ke: Seq<nat>, pe: Seq<nat>, tau: nat|
                #![trigger vk_in_exponent(*vk, ke), proof_in_exponent(*proof, pe), spec_g2_gen_mul(tau)]
                count_ok && domain_ok && !zeta_in_domain(*vk, pi, *proof) && vk_in_exponent(*vk, ke) && proof_in_exponent(
                    *proof,
                    pe,
                ) && tau < modulus() && vk.kzg.h@ == spec_g2_gen_mul(1) && vk.kzg.tau_h@ == spec_g2_gen_mul(tau) ==> (r is Ok
                    <==> verifier_equation_in_exponent(*vk, ke, pi, *proof, pe, pow2_ceil(vk.n as nat), tau))
        }),
{
    if public_inputs.len() != vk.num_public_inputs {
        return Err(VerifyError::PublicInputCount { expected: vk.num_public_inputs, got: public_inputs.len() });
    }
    let n = vk.n;
    let domain = match Domain::new(n) {
        Some(d) => d,
        None => {
            return Err(VerifyError::BadDomain { size: n });
        },
    };
    proof {
        let c = pow2_ceil(n as nat);
        assert(is_pow2_ceil(n as nat, domain.spec_size()));
        lemma_pow2_ceil_unique(n as nat, domain.spec_size(), c);
    }
    let omega = domain.group_gen();
    let ev = &proof.evals;

    // replay the transcript
    let mut rounds = Rounds::start(vk, public_inputs);
    let (beta, gamma) = rounds.wires([&proof.a, &proof.b, &proof.c]);
    let alpha = rounds.accumulator(&proof.z);
    let zeta = rounds.quotient([&proof.t_lo, &proof.t_mid, &proof.t_hi]);
    let v = rounds.evaluations(ev);
    let u = rounds.openings(&proof.w_zeta, &proof.w_zeta_omega);

    // zeta in H would make Z_H(zeta) = 0 and the identity vacuous
    let (_zeta_n, z_h, _l1) = vanishing_at(n, &zeta);
    if z_h.is_zero() {
        return Err(VerifyError::ZetaInDomain);
    }
    // L_i(zeta) only for the first l rows, so the verifier stays O(l).
    let pi = public_input_at(&domain, &zeta, public_inputs);
    let r0 = compute_r0(vk, proof, &beta, &gamma, &alpha, &zeta, &pi);
    let d = compute_d(vk, proof, &beta, &gamma, &alpha, &zeta);
    let folded_comm = fold_commitments(vk, proof, d, &v);
    let folded_value = fold_values(proof, &r0, &v);
    let ok = check_openings(vk, proof, folded_comm, folded_value, &zeta, &omega, &u);
    proof {
        let pi_v = vals(public_inputs@);
        assert forall|ke: Seq<nat>, pe: Seq<nat>, tau: nat|
            #![trigger vk_in_exponent(*vk, ke), proof_in_exponent(*proof, pe), spec_g2_gen_mul(tau)]
            vk_in_exponent(*vk, ke) && proof_in_exponent(*proof, pe) && tau < modulus() && vk.kzg.h@ == spec_g2_gen_mul(1)
                && vk.kzg.tau_h@ == spec_g2_gen_mul(tau) implies (ok <==> verifier_equation_in_exponent(
                *vk,
                ke,
                pi_v,
                *proof,
                pe,
                pow2_ceil(n as nat),
                tau,
            )) by {
            let de = d_exponent(*vk, ke, *proof, pe, beta@, gamma@, alpha@, zeta@);
            assert(d@ == spec_g1_gen_mul(de) && de < modulus());
            let ce = folded_comm_exponent(ke, pe, de, v@);
            assert(folded_comm@ == spec_g1_gen_mul(ce) && ce < modulus());
            assert(ok <==> two_openings_hold(
                ce,
                folded_value@,
                zeta@,
                pe[7],
                pe[3],
                proof.evals.z_omega@,
                fmul(zeta@, omega@),
                pe[8],
                u@,
                tau,
            ));
        }
    }
    if ok {
        Ok(())
    } else {
        Err(VerifyError::PairingCheckFailed)
    }
}

} // verus!
