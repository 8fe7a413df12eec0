//! A proof the prover emits passes the verifier's pairing equation, in the
//! exponent: a successful run has the linearisation polynomial vanish at
//! `zeta`, and the verifier's `PI(zeta)` is taken to be the prover's.

use vstd::prelude::*;
use crate::field::{fadd, fmul, fneg, fpow, modulus};
use crate::proof_check::spec_folded_value;
use crate::proof_check::folded_comm_exponent;
use crate::proof_format::{Proof, evaluation_values};
use crate::prover::{lemma_fadd_cong, lemma_fmul_cong, lemma_fneg_cong};
use crate::kzg::{fold_nats, fold_polys, lemma_batch_opening_is_complete, lemma_opening_is_complete, open_quotient};
use crate::poly::{poly_eval, poly_is_zero, spec_root_of_unity};
use crate::preprocess::ProverKey;
use crate::proof_check::{d_exponent, lemma_d_is_linearisation, pi_sum, pow2_ceil, spec_r0, two_openings_hold, verifier_equation_in_exponent};
use crate::prover::{ProverTrace, lemma_linearisation_eval, linearisation_spec, prover_trace, proof_of_trace, public_values};
use crate::preprocess::is_prover_key;
use crate::kzg::Srs;
use crate::circuit::Circuit;
use crate::rounds::proof_challenges;

verus! {

/// `1, v, v^2, ..., v^5`, each power one field product of the one before.
pub open spec fn v_powers(v: nat) -> Seq<nat> {
    let v2 = fmul(v, v);
    let v3 = fmul(v2, v);
    let v4 = fmul(v3, v);
    let v5 = fmul(v4, v);
    seq![1, v, v2, v3, v4, v5]
}

/// `sum_i xs_i vs_i` over six terms, over the integers.
pub open spec fn weighted6(xs: Seq<nat>, vs: Seq<nat>) -> int {
    (xs[0] * vs[0] + xs[1] * vs[1] + xs[2] * vs[2] + xs[3] * vs[3] + xs[4] * vs[4] + xs[5] * vs[5]) as int
}

/// Folding six values with the powers of a reduced `v` is their weighted
/// sum, modulo the order.
proof fn lemma_fold6(xs: Seq<nat>, v: nat)
    requires
        xs.len() == 6,
        v < modulus(),
    ensures
        fold_nats(xs, v, 6) as int % (modulus() as int) == weighted6(xs, v_powers(v)) % (modulus() as int),
{
    let m = modulus() as int;
    crate::field::lemma_modulus_pos();
    let vs = v_powers(v);
    vstd::arithmetic::div_mod::lemma_small_mod(v, modulus());
    vstd::arithmetic::div_mod::lemma_small_mod(1, modulus());
    assert(fpow(v, 0) == 1);
    assert(fpow(v, 1) == fmul(1, v));
    assert(fpow(v, 1) == v);
    assert(fpow(v, 2) == vs[2]);
    assert(fpow(v, 3) == vs[3]);
    assert(fpow(v, 4) == vs[4]);
    assert(fpow(v, 5) == vs[5]);
    let f0 = fold_nats(xs, v, 0);
    let f1 = fold_nats(xs, v, 1);
    let f2 = fold_nats(xs, v, 2);
    let f3 = fold_nats(xs, v, 3);
    let f4 = fold_nats(xs, v, 4);
    let f5 = fold_nats(xs, v, 5);
    let f6 = fold_nats(xs, v, 6);
    assert(f0 == 0);
    assert(f1 == fadd(f0, fmul(xs[0], vs[0])));
    assert(f2 == fadd(f1, fmul(xs[1], vs[1])));
    assert(f3 == fadd(f2, fmul(xs[2], vs[2])));
    assert(f4 == fadd(f3, fmul(xs[3], vs[3])));
    assert(f5 == fadd(f4, fmul(xs[4], vs[4])));
    assert(f6 == fadd(f5, fmul(xs[5], vs[5])));
    let (x0, x1, x2, x3, x4, x5) = (xs[0] as int, xs[1] as int, xs[2] as int, xs[3] as int, xs[4] as int, xs[5] as int);
    let (w0, w1, w2, w3, w4, w5) = (vs[0] as int, vs[1] as int, vs[2] as int, vs[3] as int, vs[4] as int, vs[5] as int);
    lemma_fmul_cong(xs[0], vs[0], x0, w0);
    lemma_fadd_cong(f0, fmul(xs[0], vs[0]), 0, x0 * w0);
    lemma_fmul_cong(xs[1], vs[1], x1, w1);
    lemma_fadd_cong(f1, fmul(xs[1], vs[1]), 0 + x0 * w0, x1 * w1);
    lemma_fmul_cong(xs[2], vs[2], x2, w2);
    lemma_fadd_cong(f2, fmul(xs[2], vs[2]), 0 + x0 * w0 + x1 * w1, x2 * w2);
    lemma_fmul_cong(xs[3], vs[3], x3, w3);
    lemma_fadd_cong(f3, fmul(xs[3], vs[3]), 0 + x0 * w0 + x1 * w1 + x2 * w2, x3 * w3);
    lemma_fmul_cong(xs[4], vs[4], x4, w4);
    lemma_fadd_cong(f4, fmul(xs[4], vs[4]), 0 + x0 * w0 + x1 * w1 + x2 * w2 + x3 * w3, x4 * w4);
    lemma_fmul_cong(xs[5], vs[5], x5, w5);
    lemma_fadd_cong(f5, fmul(xs[5], vs[5]), 0 + x0 * w0 + x1 * w1 + x2 * w2 + x3 * w3 + x4 * w4, x5 * w5);
}

/// The folded commitment's exponent is `d` plus the weighted exponents.
proof fn lemma_folded_comm(ke: Seq<nat>, pe: Seq<nat>, d: nat, v: nat)
    requires
        ke.len() == 8,
        pe.len() == 9,
    ensures
        folded_comm_exponent(ke, pe, d, v) as int % (modulus() as int) == (d + weighted6(
            seq![0, pe[0], pe[1], pe[2], ke[5], ke[6]],
            v_powers(v),
        )) % (modulus() as int),
{
    let vs = v_powers(v);
    let (v1, v2, v3, v4, v5) = (vs[1], vs[2], vs[3], vs[4], vs[5]);
    let (a, b, c, s1, s2) = (pe[0] as int, pe[1] as int, pe[2] as int, ke[5] as int, ke[6] as int);
    lemma_fmul_cong(pe[0], v1, a, v1 as int);
    lemma_fadd_cong(d, fmul(pe[0], v1), d as int, a * v1);
    let g1 = fadd(d, fmul(pe[0], v1));
    lemma_fmul_cong(pe[1], v2, b, v2 as int);
    lemma_fadd_cong(g1, fmul(pe[1], v2), d + a * v1, b * v2);
    let g2 = fadd(g1, fmul(pe[1], v2));
    lemma_fmul_cong(pe[2], v3, c, v3 as int);
    lemma_fadd_cong(g2, fmul(pe[2], v3), d + a * v1 + b * v2, c * v3);
    let g3 = fadd(g2, fmul(pe[2], v3));
    lemma_fmul_cong(ke[5], v4, s1, v4 as int);
    lemma_fadd_cong(g3, fmul(ke[5], v4), d + a * v1 + b * v2 + c * v3, s1 * v4);
    let g4 = fadd(g3, fmul(ke[5], v4));
    lemma_fmul_cong(ke[6], v5, s2, v5 as int);
    lemma_fadd_cong(g4, fmul(ke[6], v5), d + a * v1 + b * v2 + c * v3 + s1 * v4, s2 * v5);
    assert(0 * vs[0] == 0);
}

/// The folded value is `-r_0` plus the weighted evaluations.
proof fn lemma_folded_value(p: Proof, r0: nat, v: nat)
    ensures
        spec_folded_value(p, r0, v) as int % (modulus() as int) == ((0 - r0) + weighted6(
            seq![0, p.evals.a@, p.evals.b@, p.evals.c@, p.evals.s_sigma1@, p.evals.s_sigma2@],
            v_powers(v),
        )) % (modulus() as int),
{
    let ev = p.evals;
    let vs = v_powers(v);
    let (v1, v2, v3, v4, v5) = (vs[1], vs[2], vs[3], vs[4], vs[5]);
    let (a, b, c, s1, s2) = (ev.a@ as int, ev.b@ as int, ev.c@ as int, ev.s_sigma1@ as int, ev.s_sigma2@ as int);
    lemma_fneg_cong(r0, r0 as int);
    lemma_fmul_cong(v1, ev.a@, v1 as int, a);
    lemma_fadd_cong(fneg(r0), fmul(v1, ev.a@), 0 - r0, v1 * a);
    let g1 = fadd(fneg(r0), fmul(v1, ev.a@));
    lemma_fmul_cong(v2, ev.b@, v2 as int, b);
    lemma_fadd_cong(g1, fmul(v2, ev.b@), (0 - r0) + v1 * a, v2 * b);
    let g2 = fadd(g1, fmul(v2, ev.b@));
    lemma_fmul_cong(v3, ev.c@, v3 as int, c);
    lemma_fadd_cong(g2, fmul(v3, ev.c@), (0 - r0) + v1 * a + v2 * b, v3 * c);
    let g3 = fadd(g2, fmul(v3, ev.c@));
    lemma_fmul_cong(v4, ev.s_sigma1@, v4 as int, s1);
    lemma_fadd_cong(g3, fmul(v4, ev.s_sigma1@), (0 - r0) + v1 * a + v2 * b + v3 * c, v4 * s1);
    let g4 = fadd(g3, fmul(v4, ev.s_sigma1@));
    lemma_fmul_cong(v5, ev.s_sigma2@, v5 as int, s2);
    lemma_fadd_cong(g4, fmul(v5, ev.s_sigma2@), (0 - r0) + v1 * a + v2 * b + v3 * c + v4 * s1, v5 * s2);
    assert(v1 * a == a * v1 && v2 * b == b * v2 && v3 * c == c * v3) by (nonlinear_arith);
    assert(v4 * s1 == s1 * v4 && v5 * s2 == s2 * v5) by (nonlinear_arith);
    assert(0 * vs[0] == 0);
}

/// The exponents of the key's commitments over an SRS of powers of `tau`:
/// the selectors and permutation polynomials at `tau`.
pub open spec fn key_exponents(pk: ProverKey, tau: nat) -> Seq<nat> {
    seq![
        poly_eval(pk.selectors[0].poly@, tau),
        poly_eval(pk.selectors[1].poly@, tau),
        poly_eval(pk.selectors[2].poly@, tau),
        poly_eval(pk.selectors[3].poly@, tau),
        poly_eval(pk.selectors[4].poly@, tau),
        poly_eval(pk.s_sigma[0].poly@, tau),
        poly_eval(pk.s_sigma[1].poly@, tau),
        poly_eval(pk.s_sigma[2].poly@, tau),
    ]
}

/// The polynomial the prover opens at `zeta`: `r + v a + v^2 b + v^3 c +
/// v^4 S_sigma1 + v^5 S_sigma2`.
pub open spec fn opened_at_zeta(pk: ProverKey, tr: ProverTrace) -> Seq<nat> {
    fold_polys(
        seq![tr.r, tr.wires[0], tr.wires[1], tr.wires[2], pk.s_sigma[0].poly@, pk.s_sigma[1].poly@],
        tr.v,
        6,
    )
}

/// The exponents of a run's commitments over an SRS of powers of `tau`: the
/// wires, `z`, the quotient pieces and the two opening quotients at `tau`.
pub open spec fn trace_exponents(pk: ProverKey, tr: ProverTrace, tau: nat) -> Seq<nat> {
    seq![
        poly_eval(tr.wires[0], tau),
        poly_eval(tr.wires[1], tau),
        poly_eval(tr.wires[2], tau),
        poly_eval(tr.z, tau),
        poly_eval(tr.t[0], tau),
        poly_eval(tr.t[1], tau),
        poly_eval(tr.t[2], tau),
        poly_eval(open_quotient(opened_at_zeta(pk, tr), tr.zeta), tau),
        poly_eval(open_quotient(tr.z, fmul(tr.zeta, pk.domain.spec_group_gen())), tau),
    ]
}

/// Integers congruent modulo the order differ by a multiple of it.
proof fn lemma_cong_diff(x: int, y: int)
    requires
        x % (modulus() as int) == y % (modulus() as int),
    ensures
        (x - y) % (modulus() as int) == 0,
{
    let m = modulus() as int;
    crate::field::lemma_modulus_pos();
    vstd::arithmetic::div_mod::lemma_sub_mod_noop(x, y, m);
    vstd::arithmetic::div_mod::lemma_mod_self_0(m);
}

/// A sum of multiples of the order is a multiple of it.
proof fn lemma_zero_sum(a: int, b: int)
    requires
        a % (modulus() as int) == 0,
        b % (modulus() as int) == 0,
    ensures
        (a + b) % (modulus() as int) == 0,
{
    let m = modulus() as int;
    crate::field::lemma_modulus_pos();
    vstd::arithmetic::div_mod::lemma_add_mod_noop(a, b, m);
    vstd::arithmetic::div_mod::lemma_small_mod(0, modulus());
}

/// What the run `tr` and the proof `p` share, and the two facts the
/// completeness argument takes as given: the linearisation polynomial
/// vanishes at `zeta`, and the verifier's `PI(zeta)` is the value of the
/// prover's `PI` there.
pub open spec fn run_matches_proof(pk: ProverKey, pi: Seq<nat>, p: Proof, tr: ProverTrace, tau: nat) -> bool {
    let ch = proof_challenges(pk.vk, pi, p);
    let size = pow2_ceil(pk.vk.n as nat);
    &&& tau < modulus()
    &&& pk.vk.n == pk.domain.spec_size()
    &&& pk.vk.k1 == pk.k1
    &&& pk.vk.k2 == pk.k2
    &&& spec_root_of_unity(size) == pk.domain.spec_group_gen()
    &&& tr.wires.len() == 3
    &&& tr.t.len() == 3
    &&& tr.evals == seq![
        poly_eval(tr.wires[0], tr.zeta),
        poly_eval(tr.wires[1], tr.zeta),
        poly_eval(tr.wires[2], tr.zeta),
        poly_eval(pk.s_sigma[0].poly@, tr.zeta),
        poly_eval(pk.s_sigma[1].poly@, tr.zeta),
        poly_eval(tr.z, fmul(tr.zeta, pk.domain.spec_group_gen())),
    ]
    &&& tr.r == linearisation_spec(
        pk,
        tr.z,
        tr.t,
        tr.evals,
        poly_eval(tr.pi_poly, tr.zeta),
        tr.beta,
        tr.gamma,
        tr.alpha,
        tr.zeta,
    )
    &&& evaluation_values(p.evals) == tr.evals
    &&& ch.0 == tr.beta
    &&& ch.1 == tr.gamma
    &&& ch.2 == tr.alpha
    &&& ch.3 == tr.zeta
    &&& ch.4 == tr.v
    &&& tr.zeta < modulus()
    &&& tr.v < modulus()
    &&& poly_eval(tr.r, tr.zeta) == 0
    &&& fneg(pi_sum(pi, size, spec_root_of_unity(size), tr.zeta, pi.len())) == poly_eval(tr.pi_poly, tr.zeta)
}

/// The verifier's `PI(zeta)`.
pub open spec fn verifier_pi(pk: ProverKey, pi: Seq<nat>, zeta: nat) -> nat {
    let size = pow2_ceil(pk.vk.n as nat);
    fneg(pi_sum(pi, size, spec_root_of_unity(size), zeta, pi.len()))
}

/// `[D]`'s exponent plus `r_0` is `r(tau)`.
#[verifier::rlimit(100)]
#[verifier::spinoff_prover]
proof fn lemma_run_linearisation(pk: ProverKey, pi: Seq<nat>, p: Proof, tr: ProverTrace, tau: nat)
    requires
        run_matches_proof(pk, pi, p, tr, tau),
    ensures
        fadd(
            d_exponent(pk.vk, key_exponents(pk, tau), p, trace_exponents(pk, tr, tau), tr.beta, tr.gamma, tr.alpha, tr.zeta),
            spec_r0(pk.vk, p, tr.beta, tr.gamma, tr.alpha, tr.zeta, verifier_pi(pk, pi, tr.zeta)),
        ) == poly_eval(tr.r, tau),
{
    let vk = pk.vk;
    let ke = key_exponents(pk, tau);
    let pe = trace_exponents(pk, tr, tau);
    let (beta, gamma, alpha, zeta) = (tr.beta, tr.gamma, tr.alpha, tr.zeta);
    let pi_z = verifier_pi(pk, pi, zeta);
    let q = Seq::new(5, |j: int| poly_eval(pk.selectors[j].poly@, tau));
    let tt = seq![poly_eval(tr.t[0], tau), poly_eval(tr.t[1], tau), poly_eval(tr.t[2], tau)];
    lemma_d_is_linearisation(vk, ke, p, pe, beta, gamma, alpha, zeta, pi_z, q, poly_eval(pk.s_sigma[2].poly@, tau), poly_eval(tr.z, tau), tt);
    crate::evaluation::lemma_eval_reduced(tr.pi_poly, zeta);
    lemma_linearisation_eval(pk, tr.z, tr.t, tr.evals, poly_eval(tr.pi_poly, zeta), beta, gamma, alpha, zeta, tau);
}

/// The batched opening at `zeta` holds in the exponent.
#[verifier::rlimit(100)]
#[verifier::spinoff_prover]
proof fn lemma_run_first_opening(pk: ProverKey, pi: Seq<nat>, p: Proof, tr: ProverTrace, tau: nat)
    requires
        run_matches_proof(pk, pi, p, tr, tau),
    ensures
        ({
            let ke = key_exponents(pk, tau);
            let pe = trace_exponents(pk, tr, tau);
            let r0 = spec_r0(pk.vk, p, tr.beta, tr.gamma, tr.alpha, tr.zeta, verifier_pi(pk, pi, tr.zeta));
            let d = d_exponent(pk.vk, ke, p, pe, tr.beta, tr.gamma, tr.alpha, tr.zeta);
            let big_f = folded_comm_exponent(ke, pe, d, tr.v);
            let y = spec_folded_value(p, r0, tr.v);
            (big_f - y - pe[7] * (tau - tr.zeta)) % (modulus() as int) == 0
        }),
{
    let m = modulus() as int;
    crate::field::lemma_modulus_pos();
    let ke = key_exponents(pk, tau);
    let pe = trace_exponents(pk, tr, tau);
    let (zeta, v) = (tr.zeta, tr.v);
    let r0 = spec_r0(pk.vk, p, tr.beta, tr.gamma, tr.alpha, zeta, verifier_pi(pk, pi, zeta));
    let d = d_exponent(pk.vk, ke, p, pe, tr.beta, tr.gamma, tr.alpha, zeta);
    let big_f = folded_comm_exponent(ke, pe, d, v);
    let y = spec_folded_value(p, r0, v);
    let ev = p.evals;
    lemma_run_linearisation(pk, pi, p, tr, tau);
    let rt = poly_eval(tr.r, tau);
    let ps = seq![tr.r, tr.wires[0], tr.wires[1], tr.wires[2], pk.s_sigma[0].poly@, pk.s_sigma[1].poly@];
    assert(fold_polys(ps, v, 6) == opened_at_zeta(pk, tr));
    lemma_fold_side(ps, v, zeta, tau);
    lemma_folded_comm(ke, pe, d, v);
    lemma_folded_value(p, r0, v);
    let vs = v_powers(v);
    assert(seq![0, poly_eval(ps[1], tau), poly_eval(ps[2], tau), poly_eval(ps[3], tau), poly_eval(ps[4], tau), poly_eval(ps[5], tau)]
        =~= seq![0, pe[0], pe[1], pe[2], ke[5], ke[6]]);
    assert(evaluation_values(ev) == tr.evals);
    assert(seq![0, poly_eval(ps[1], zeta), poly_eval(ps[2], zeta), poly_eval(ps[3], zeta), poly_eval(ps[4], zeta), poly_eval(ps[5], zeta)]
        =~= seq![0, ev.a@, ev.b@, ev.c@, ev.s_sigma1@, ev.s_sigma2@]);
    let wsum = weighted6(seq![0, pe[0], pe[1], pe[2], ke[5], ke[6]], vs);
    let ysum = weighted6(seq![0, ev.a@, ev.b@, ev.c@, ev.s_sigma1@, ev.s_sigma2@], vs);
    vstd::arithmetic::div_mod::lemma_mod_bound((d + r0) as int, m);
    vstd::arithmetic::div_mod::lemma_small_mod(fadd(d, r0), modulus());
    crate::evaluation::lemma_eval_reduced(tr.r, tau);
    vstd::arithmetic::div_mod::lemma_small_mod(rt, modulus());
    let ft = fold_nats(Seq::new(6, |i: int| poly_eval(ps[i], tau)), v, 6);
    let fz = fold_nats(Seq::new(6, |i: int| poly_eval(ps[i], zeta)), v, 6);
    lemma_combine_first(big_f as int, y as int, d as int, r0 as int, rt as int, wsum, ysum, ft as int, fz as int, pe[7] as int, tau as int, zeta as int);
}

/// The KZG side of the batched opening: the folded values at `tau` and at
/// `zeta` are their weighted sums, and they satisfy the opening equation
/// with the opening quotient, when the first polynomial vanishes at `zeta`.
#[verifier::rlimit(100)]
#[verifier::spinoff_prover]
proof fn lemma_fold_side(ps: Seq<Seq<nat>>, v: nat, zeta: nat, tau: nat)
    requires
        ps.len() == 6,
        v < modulus(),
        zeta < modulus(),
        tau < modulus(),
        poly_eval(ps[0], zeta) == 0,
    ensures
        ({
            let xt = Seq::new(6, |i: int| poly_eval(ps[i], tau));
            let xz = Seq::new(6, |i: int| poly_eval(ps[i], zeta));
            let ft = fold_nats(xt, v, 6);
            let fz = fold_nats(xz, v, 6);
            let vs = v_powers(v);
            &&& ft as int % (modulus() as int) == (poly_eval(ps[0], tau) + weighted6(
                seq![0, xt[1], xt[2], xt[3], xt[4], xt[5]],
                vs,
            )) % (modulus() as int)
            &&& fz as int % (modulus() as int) == weighted6(seq![0, xz[1], xz[2], xz[3], xz[4], xz[5]], vs) % (
            modulus() as int)
            &&& (ft - fz + poly_eval(open_quotient(fold_polys(ps, v, 6), zeta), tau) * (zeta - tau)) % (modulus() as int)
                == 0
        }),
{
    lemma_batch_opening_is_complete(ps, v, zeta, tau);
    let xt = Seq::new(6, |i: int| poly_eval(ps[i], tau));
    let xz = Seq::new(6, |i: int| poly_eval(ps[i], zeta));
    lemma_fold6(xt, v);
    lemma_fold6(xz, v);
    let vs = v_powers(v);
    assert(vs[0] == 1);
    let a = weighted6(xt, vs);
    let b = weighted6(seq![0, xt[1], xt[2], xt[3], xt[4], xt[5]], vs);
    assert(a == xt[0] + b) by (nonlinear_arith)
        requires
            a == weighted6(xt, vs),
            b == weighted6(seq![0, xt[1], xt[2], xt[3], xt[4], xt[5]], vs),
            vs[0] == 1,
    ;
    assert(xz =~= seq![0, xz[1], xz[2], xz[3], xz[4], xz[5]]);
}

/// The first opening's term is congruent to the KZG equation's.
proof fn lemma_combine_first(
    big_f: int,
    y: int,
    d: int,
    r0: int,
    rt: int,
    wsum: int,
    ysum: int,
    ft: int,
    fz: int,
    w1: int,
    tau: int,
    zeta: int,
)
    requires
        big_f % (modulus() as int) == (d + wsum) % (modulus() as int),
        y % (modulus() as int) == ((0 - r0) + ysum) % (modulus() as int),
        (d + r0) % (modulus() as int) == rt % (modulus() as int),
        ft % (modulus() as int) == (rt + wsum) % (modulus() as int),
        fz % (modulus() as int) == ysum % (modulus() as int),
        (ft - fz + w1 * (zeta - tau)) % (modulus() as int) == 0,
    ensures
        (big_f - y - w1 * (tau - zeta)) % (modulus() as int) == 0,
{
    lemma_cong_diff(big_f, d + wsum);
    lemma_cong_diff((0 - r0) + ysum, y);
    lemma_cong_diff(d + r0, rt);
    lemma_cong_diff(rt + wsum, ft);
    lemma_cong_diff(fz, ysum);
    let e1 = big_f - y - w1 * (tau - zeta);
    let k1 = ft - fz + w1 * (zeta - tau);
    let t1 = big_f - (d + wsum);
    let t2 = ((0 - r0) + ysum) - y;
    let t3 = (d + r0) - rt;
    let t4 = (rt + wsum) - ft;
    let t5 = fz - ysum;
    assert(e1 - k1 == t1 + t2 + t3 + t4 + t5) by (nonlinear_arith)
        requires
            e1 == big_f - y - w1 * (tau - zeta),
            k1 == ft - fz + w1 * (zeta - tau),
            t1 == big_f - (d + wsum),
            t2 == ((0 - r0) + ysum) - y,
            t3 == (d + r0) - rt,
            t4 == (rt + wsum) - ft,
            t5 == fz - ysum,
    ;
    lemma_zero_sum(t1, t2);
    lemma_zero_sum(t1 + t2, t3);
    lemma_zero_sum(t1 + t2 + t3, t4);
    lemma_zero_sum(t1 + t2 + t3 + t4, t5);
    lemma_zero_sum(t1 + t2 + t3 + t4 + t5, k1);
}

/// The opening of `z` at `zeta omega` holds in the exponent.
proof fn lemma_run_second_opening(pk: ProverKey, pi: Seq<nat>, p: Proof, tr: ProverTrace, tau: nat)
    requires
        run_matches_proof(pk, pi, p, tr, tau),
    ensures
        ({
            let pe = trace_exponents(pk, tr, tau);
            let zw = fmul(tr.zeta, pk.domain.spec_group_gen());
            (pe[3] - p.evals.z_omega@ - pe[8] * (tau - zw)) % (modulus() as int) == 0
        }),
{
    let m = modulus() as int;
    let pe = trace_exponents(pk, tr, tau);
    let zw = fmul(tr.zeta, pk.domain.spec_group_gen());
    crate::kzg::lemma_reduced_mul(tr.zeta, pk.domain.spec_group_gen());
    lemma_opening_is_complete(tr.z, zw, tau);
    if poly_is_zero(tr.z) {
        crate::evaluation::lemma_eval_zero(tr.z, zw);
    }
    assert(evaluation_values(p.evals)[5] == p.evals.z_omega@);
    let e2 = pe[3] - p.evals.z_omega@ - pe[8] * (tau - zw);
    let k2 = pe[3] - p.evals.z_omega@ + pe[8] * (zw - tau);
    assert(k2 % m == 0);
    assert(e2 == k2) by (nonlinear_arith)
        requires
            e2 == pe[3] - p.evals.z_omega@ - pe[8] * (tau - zw),
            k2 == pe[3] - p.evals.z_omega@ + pe[8] * (zw - tau),
    ;
}

/// The run's two openings hold together in the exponent.
proof fn lemma_run_openings_hold(pk: ProverKey, pi: Seq<nat>, p: Proof, tr: ProverTrace, tau: nat)
    requires
        run_matches_proof(pk, pi, p, tr, tau),
    ensures
        verifier_equation_in_exponent(
            pk.vk,
            key_exponents(pk, tau),
            pi,
            p,
            trace_exponents(pk, tr, tau),
            pow2_ceil(pk.vk.n as nat),
            tau,
        ),
{
    let m = modulus() as int;
    crate::field::lemma_modulus_pos();
    lemma_run_first_opening(pk, pi, p, tr, tau);
    lemma_run_second_opening(pk, pi, p, tr, tau);
    let pe = trace_exponents(pk, tr, tau);
    let ke = key_exponents(pk, tau);
    let zw = fmul(tr.zeta, pk.domain.spec_group_gen());
    let u = proof_challenges(pk.vk, pi, p).5;
    let r0 = spec_r0(pk.vk, p, tr.beta, tr.gamma, tr.alpha, tr.zeta, verifier_pi(pk, pi, tr.zeta));
    let d = d_exponent(pk.vk, ke, p, pe, tr.beta, tr.gamma, tr.alpha, tr.zeta);
    let big_f = folded_comm_exponent(ke, pe, d, tr.v);
    let y = spec_folded_value(p, r0, tr.v);
    let e1 = big_f - y - pe[7] * (tau - tr.zeta);
    let e2 = pe[3] - p.evals.z_omega@ - pe[8] * (tau - zw);
    vstd::arithmetic::div_mod::lemma_mul_mod_noop_right(u as int, e2, m);
    vstd::arithmetic::div_mod::lemma_small_mod(0, modulus());
    assert(((u as int) * 0) % m == 0);
    lemma_zero_sum(e1, u * e2);
    assert(two_openings_hold(big_f, y, tr.zeta, pe[7], pe[3], p.evals.z_omega@, zw, pe[8], u, tau));
}

/// A proof the prover emits passes the verifier's pairing equation.
///
/// For the key of a circuit and the proof of a run with blinders `bl` whose
/// linearisation `r` vanishes at `zeta` (as in every run for which `prove`
/// returns `Ok`: `trace_succeeds` and `proof_of_trace`; neither the
/// accumulator closing nor the quotient's tail is needed beyond that), over
/// an SRS whose points are the powers of `tau`, the
/// key's and the proof's points are `[key_exponents]_1` and
/// `[trace_exponents]_1` (the contracts of `preprocess` and `prove` say
/// so), and in those exponents the verifier's equation holds. By `verify`'s
/// contract it then accepts, `zeta` being off `H`. One fact is taken as
/// given: the verifier's `PI(zeta)`, summed from the Lagrange values at
/// `zeta`, is the value there of the prover's `PI` polynomial.
#[verifier::rlimit(100)]
#[verifier::spinoff_prover]
pub proof fn lemma_honest_proof_verifies(srs: Srs, pk: ProverKey, c: Circuit, bl: Seq<nat>, p: Proof, tau: nat)
    requires
        is_prover_key(pk, c, srs),
        tau < modulus(),
        poly_eval(prover_trace(srs, pk, c, bl).r, prover_trace(srs, pk, c, bl).zeta) == 0,
        proof_of_trace(p, prover_trace(srs, pk, c, bl)),
        verifier_pi(pk, public_values(c), prover_trace(srs, pk, c, bl).zeta) == poly_eval(
            prover_trace(srs, pk, c, bl).pi_poly,
            prover_trace(srs, pk, c, bl).zeta,
        ),
    ensures
        verifier_equation_in_exponent(
            pk.vk,
            key_exponents(pk, tau),
            public_values(c),
            p,
            trace_exponents(pk, prover_trace(srs, pk, c, bl), tau),
            pow2_ceil(pk.vk.n as nat),
            tau,
        ),
{
    reveal(prover_trace);
    let tr = prover_trace(srs, pk, c, bl);
    let n = pk.domain.spec_size();
    assert(crate::proof_check::is_pow2_ceil(n, n));
    crate::proof_check::lemma_pow2_ceil_unique(n, n, pow2_ceil(n));
    assert(pk.vk.n == n);
    assert(tr.t.len() == 3);
    assert(tr.wires.len() == 3);
    crate::field::lemma_modulus_pos();
    assert(run_matches_proof(pk, public_values(c), p, tr, tau));
    lemma_run_openings_hold(pk, public_values(c), p, tr, tau);
}

} // verus!
