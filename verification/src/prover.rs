//! The prover: the five rounds of the PLONK protocol.

use vstd::prelude::*;
use crate::circuit::{Circuit, Gate, Variable, gate_eval};
use crate::field::{Scalar, vals, fadd, fsub, fmul, fneg, fpow, finv, modulus, batch_inversion, lemma_fmul_assoc, lemma_fmul_comm, lemma_fmul_mod};
use crate::poly::{
    Domain, Poly, coeff, interpolate, lemma_trim_props, max_len, poly_add, poly_mul_vanishing, poly_scale, poly_sub,
    spec_fft, spec_ifft, spec_l0, trim, vanishing_at, is_pow2, max_domain_size, spec_root_of_unity, lemma_root_fourth_power,
};
use crate::preprocess::{ProverKey, coset_tables, is_prover_key, lemma_fixed_polys_on_domain, on_coset_evals, pad, pk_shapes, vk_transcript_state, z_h_at};
use crate::permutation::{Permutation, is_cycle_map, lemma_grand_product, permuted_labels, slot_terms, wire_slots};
use crate::field::{field_product, lemma_product_concat, lemma_product_pointwise};
use crate::kzg::{Commitment, OpeningProof, Srs, commitment_matches, commitment_of, fold_polys, open_quotient, poly_views, powers_of_tau};
use crate::curve::G1;
use crate::proof_check::proof_in_exponent;
use crate::completeness::{opened_at_zeta, trace_exponents};
use crate::proof_format::Proof;
use crate::rounds::{Rounds, round_accumulator, round_evaluations, round_quotient, round_wires};
use crate::poly::poly_eval;
use crate::evaluation::{
    coeffs_of, horner, lemma_cong_add, lemma_cong_mul, lemma_cong_mul2, lemma_element_is_root, lemma_eval_add, lemma_eval_cong,
    lemma_eval_horner, lemma_eval_mul_vanishing, lemma_eval_reduced, lemma_horner_ext, lemma_horner_first, lemma_horner_split,
    lemma_horner_zeros, lemma_pow_mod, lemma_eval_scale, lemma_eval_sub,
};
use vstd::arithmetic::power::pow;
use crate::field::copy_range;
use crate::proof_format::{Evaluations, evaluation_values, perm_f_vals, perm_g_partial_vals, perm_term};
use ark_std::rand::RngCore;

verus! {

#[derive(Clone, Copy, Debug, PartialEq, Eq)]
pub enum ProveError {
    /// The witness doesn't satisfy the circuit.
    Unsatisfied,
    /// The circuit declares a different number of public inputs than the key.
    PublicInputCount { expected: usize, got: usize },
    /// More gates than the key's domain has rows.
    TooManyGates { max: usize, got: usize },
}

/// Wire `j` of a gate: `a, b, c` for `j = 0, 1, 2`.
pub open spec fn wire_of(g: Gate, j: int) -> Variable {
    if j == 0 {
        g.a
    } else if j == 1 {
        g.b
    } else {
        g.c
    }
}

/// The values on wire `j`, row by row, padded with zeros to `n` rows.
pub open spec fn witness_column(c: Circuit, n: nat, j: int) -> Seq<nat> {
    Seq::new(n, |i: int| if i < c.spec_gates().len() { c.spec_value(wire_of(c.spec_gates()[i], j)) } else { 0 })
}

/// Wire values laid out column by column, padded to the domain size.
pub struct Witness {
    pub a: Vec<Scalar>,
    pub b: Vec<Scalar>,
    pub c: Vec<Scalar>,
}

impl Witness {
    /// Column `j`: `a, b, c` for `j = 0, 1, 2`.
    pub open spec fn column(self, j: int) -> Seq<nat> {
        if j == 0 {
            vals(self.a@)
        } else if j == 1 {
            vals(self.b@)
        } else {
            vals(self.c@)
        }
    }

    pub fn from_circuit(circuit: &Circuit, n: usize) -> (w: Witness)
        requires
            circuit.wf(),
            circuit.spec_gates().len() <= n,
        ensures
            forall|j: int| 0 <= j < 3 ==> #[trigger] w.column(j) == witness_column(*circuit, n as nat, j),
    {
        let gates = circuit.gates();
        let mut a: Vec<Scalar> = Vec::new();
        let mut b: Vec<Scalar> = Vec::new();
        let mut c: Vec<Scalar> = Vec::new();
        proof {
            circuit.lemma_wires_ok();
        }
        for i in 0..n
            invariant
                circuit.wf(),
                gates@ == circuit.spec_gates(),
                gates@.len() <= n,
                forall|r: int| 0 <= r < gates@.len() ==> {
                    &&& circuit.var_ok(#[trigger] gates@[r].a)
                    &&& circuit.var_ok(gates@[r].b)
                    &&& circuit.var_ok(gates@[r].c)
                },
                a@.len() == i && b@.len() == i && c@.len() == i,
                forall|r: int| 0 <= r < i ==> (#[trigger] a@[r])@ == witness_column(*circuit, n as nat, 0)[r],
                forall|r: int| 0 <= r < i ==> (#[trigger] b@[r])@ == witness_column(*circuit, n as nat, 1)[r],
                forall|r: int| 0 <= r < i ==> (#[trigger] c@[r])@ == witness_column(*circuit, n as nat, 2)[r],
        {
            if i < gates.len() {
                let g = gates[i];
                a.push(circuit.value(g.a));
                b.push(circuit.value(g.b));
                c.push(circuit.value(g.c));
            } else {
                a.push(Scalar::zero());
                b.push(Scalar::zero());
                c.push(Scalar::zero());
            }
        }
        let w = Witness { a, b, c };
        proof {
            assert(w.column(0) =~= witness_column(*circuit, n as nat, 0));
            assert(w.column(1) =~= witness_column(*circuit, n as nat, 1));
            assert(w.column(2) =~= witness_column(*circuit, n as nat, 2));
        }
        w
    }
}

/// The public input values on `H`: `-x_i` on the first rows, zero after.
pub open spec fn public_input_values(n: nat, inputs: Seq<nat>) -> Seq<nat> {
    Seq::new(n, |i: int| if i < inputs.len() { fneg(inputs[i]) } else { 0 })
}

/// `PI(X) = -sum_i x_i L_i(X)`
pub fn public_input_poly(domain: &Domain, inputs: &[Scalar]) -> (r: Poly)
    ensures
        r@ == trim(spec_ifft(domain.spec_size(), domain.spec_offset(), public_input_values(domain.spec_size(), vals(inputs@)))),
        r@.len() <= domain.spec_size(),
        forall|i: int|
            0 <= i < domain.spec_size() ==> #[trigger] poly_eval(r@, domain.spec_element(i as nat)) == public_input_values(
                domain.spec_size(),
                vals(inputs@),
            )[i],
{
    let n = domain.size();
    let mut evals: Vec<Scalar> = Vec::new();
    for i in 0..n
        invariant
            n == domain.spec_size(),
            evals@.len() == i,
            forall|j: int| 0 <= j < i ==> (#[trigger] evals@[j])@ == public_input_values(n as nat, vals(inputs@))[j],
    {
        if i < inputs.len() {
            evals.push(inputs[i].negate());
        } else {
            evals.push(Scalar::zero());
        }
    }
    proof {
        assert(vals(evals@) =~= public_input_values(n as nat, vals(inputs@)));
    }
    interpolate(domain, evals.as_slice())
}

/// `p + mask(X) * (X^n - 1)`.
pub open spec fn blind_spec(n: nat, p: Seq<nat>, mask: Seq<nat>) -> Seq<nat> {
    poly_add(p, poly_mul_vanishing(trim(mask), n))
}

/// Blinding with a degree-1 mask `m0 + m1 X`, `m1 != 0`, lifts a polynomial
/// of fewer than `n` coefficients to degree `n + 1`: the coefficients at `n`
/// and `n + 1` are `m0` and `m1`, so the blinded polynomial is never the one
/// it hides.
pub proof fn lemma_blind_lifts_degree(n: nat, p: Seq<nat>, mask: Seq<nat>)
    requires
        n >= 2,
        p.len() <= n,
        mask.len() == 2,
        mask[0] < modulus(),
        mask[1] < modulus(),
        mask[1] != 0,
    ensures
        blind_spec(n, p, mask).len() == n + 2,
        blind_spec(n, p, mask)[n as int] == mask[0],
        blind_spec(n, p, mask)[n as int + 1] == mask[1],
        blind_spec(n, p, mask) != p,
{
    crate::field::lemma_modulus_pos();
    assert(trim(mask) == mask);
    let raw = Seq::new(n + mask.len(), |i: int| fsub(coeff(mask, i - n), coeff(mask, i)));
    vstd::arithmetic::div_mod::lemma_small_mod(mask[0], modulus());
    vstd::arithmetic::div_mod::lemma_small_mod(mask[1], modulus());
    assert(raw[n as int + 1] == mask[1]);
    assert(raw[n as int] == mask[0]);
    assert(trim(raw) == raw);
    let v = poly_mul_vanishing(trim(mask), n);
    assert(v == raw);
    let sum = Seq::new(max_len(p, v), |i: int| fadd(coeff(p, i), coeff(v, i)));
    assert(sum[n as int + 1] == mask[1]);
    assert(sum[n as int] == mask[0]);
    assert(trim(sum) == sum);
}

/// Blinding leaves the values on the domain alone: adding `mask * (X^n - 1)`
/// changes nothing at any `x` with `x^n = 1`, whatever the mask.
pub proof fn lemma_blind_keeps_domain_values(n: nat, p: Seq<nat>, mask: Seq<nat>, x: nat)
    requires
        fpow(x, n) == 1,
    ensures
        poly_eval(blind_spec(n, p, mask), x) == poly_eval(p, x),
{
    lemma_eval_add(p, poly_mul_vanishing(trim(mask), n), x);
    lemma_eval_mul_vanishing(trim(mask), n, x);
    lemma_eval_reduced(p, x);
    vstd::arithmetic::div_mod::lemma_small_mod(poly_eval(p, x), modulus());
}

pub proof fn lemma_trim_len(s: Seq<nat>)
    ensures
        trim(s).len() <= s.len(),
{
    lemma_trim_props(s);
}

/// The blinded polynomial is no longer than `p` and `n` more than the mask.
pub proof fn lemma_blind_len(n: nat, p: Seq<nat>, mask: Seq<nat>)
    ensures
        blind_spec(n, p, mask).len() <= if p.len() >= n + mask.len() { p.len() } else { n + mask.len() },
{
    let m = trim(mask);
    lemma_trim_len(mask);
    let v = Seq::new(n + m.len(), |i: int| fsub(coeff(m, i - n), coeff(m, i)));
    lemma_trim_len(v);
    let w = poly_mul_vanishing(m, n);
    lemma_trim_len(Seq::new(max_len(p, w), |i: int| fadd(coeff(p, i), coeff(w, i))));
}

/// Add `(b_k X^k + ... + b_0) * Z_H(X)` with the given `b_i`. Leaves the
/// values on the domain alone but hides the polynomial at the opening point.
pub fn blind_with(domain: &Domain, p: Poly, mask: &[Scalar]) -> (r: Poly)
    requires
        domain.spec_size() + mask@.len() <= usize::MAX,
    ensures
        r@ == blind_spec(domain.spec_size(), p@, vals(mask@)),
{
    domain.lemma_wf();
    let m = Poly::from_coefficients_slice(mask);
    proof {
        lemma_trim_len(vals(mask@));
    }
    p.plus(&m.mul_by_vanishing_poly(domain.size()))
}

/// Add `(b_k X^k + ... + b_0) * Z_H(X)` with random `b_i`, `k = degree`.
pub fn blind<R: RngCore>(domain: &Domain, p: Poly, degree: usize, rng: &mut R) -> (r: Poly)
    requires
        domain.spec_size() + degree + 1 <= usize::MAX,
    ensures
        exists|mask: Seq<nat>|
            mask.len() == degree + 1 && (forall|k: int| 0 <= k < mask.len() ==> mask[k] != 0) && #[trigger] blind_spec(
                domain.spec_size(),
                p@,
                mask,
            ) == r@,
        domain.spec_offset() == 1 ==> forall|i: int|
            0 <= i < domain.spec_size() ==> #[trigger] poly_eval(r@, domain.spec_element(i as nat)) == poly_eval(
                p@,
                domain.spec_element(i as nat),
            ),
{
    // Every mask coefficient is nonzero (a zero draw is replaced by one).
    let mut mask: Vec<Scalar> = Vec::new();
    for _i in 0..degree + 1
        invariant
            mask@.len() == _i,
            forall|k: int| 0 <= k < mask@.len() ==> (#[trigger] mask@[k])@ != 0,
    {
        let x = Scalar::random(rng);
        if x.is_zero() {
            mask.push(Scalar::one());
        } else {
            mask.push(x);
        }
    }
    let ghost pv = p@;
    let r = blind_with(domain, p, mask.as_slice());
    domain.lemma_wf();
    proof {
        assert(blind_spec(domain.spec_size(), pv, vals(mask@)) == r@);
        assert forall|k: int| 0 <= k < vals(mask@).len() implies vals(mask@)[k] != 0 by {
            assert(vals(mask@)[k] == mask@[k]@);
        }
        if domain.spec_offset() == 1 {
            assert forall|i: int| 0 <= i < domain.spec_size() implies #[trigger] poly_eval(r@, domain.spec_element(i as nat))
                == poly_eval(pv, domain.spec_element(i as nat)) by {
                lemma_element_is_root(domain.spec_group_gen(), domain.spec_size(), i as nat);
                lemma_blind_keeps_domain_values(domain.spec_size(), pv, vals(mask@), domain.spec_element(i as nat));
            }
        }
    }
    r
}

/// A wire polynomial: the column interpolated over `H`, blinded with a
/// degree-1 mask.
pub open spec fn wire_poly_spec(domain: Domain, column: Seq<nat>, mask: Seq<nat>) -> Seq<nat> {
    blind_spec(domain.spec_size(), trim(spec_ifft(domain.spec_size(), domain.spec_offset(), column)), mask)
}

/// Round 1: wire polynomials, each blinded with a degree-1 mask because they
/// are opened at one point. Degree n+1.
pub fn wire_polys<R: RngCore>(pk: &ProverKey, w: &Witness, rng: &mut R) -> (r: [Poly; 3])
    ensures
        forall|j: int|
            #![trigger r[j]]
            0 <= j < 3 ==> exists|mask: Seq<nat>|
                mask.len() == 2 && mask[0] != 0 && mask[1] != 0 && #[trigger] wire_poly_spec(pk.domain, w.column(j), mask)
                    == r[j]@,
        forall|j: int, i: int|
            0 <= j < 3 && 0 <= i < pk.domain.spec_size() && pk.domain.spec_offset() == 1 && w.column(j).len()
                <= pk.domain.spec_size() ==> #[trigger] poly_eval(r[j]@, pk.domain.spec_element(i as nat)) == coeff(
                w.column(j),
                i,
            ),
{
    let ia = interpolate(&pk.domain, w.a.as_slice());
    let ib = interpolate(&pk.domain, w.b.as_slice());
    let ic = interpolate(&pk.domain, w.c.as_slice());
    let ghost (va, vb, vc) = (ia@, ib@, ic@);
    pk.domain.lemma_wf();
    let pa = blind(&pk.domain, ia, 1, rng);
    let pb = blind(&pk.domain, ib, 1, rng);
    let pc = blind(&pk.domain, ic, 1, rng);
    let r = [pa, pb, pc];
    proof {
        assert forall|j: int, i: int|
            0 <= j < 3 && 0 <= i < pk.domain.spec_size() && pk.domain.spec_offset() == 1 && w.column(j).len()
                <= pk.domain.spec_size() implies #[trigger] poly_eval(r[j]@, pk.domain.spec_element(i as nat)) == coeff(
                w.column(j),
                i,
            ) by {
            if j == 0 {
                assert(poly_eval(pa@, pk.domain.spec_element(i as nat)) == poly_eval(va, pk.domain.spec_element(i as nat)));
            } else if j == 1 {
                assert(poly_eval(pb@, pk.domain.spec_element(i as nat)) == poly_eval(vb, pk.domain.spec_element(i as nat)));
            } else {
                assert(poly_eval(pc@, pk.domain.spec_element(i as nat)) == poly_eval(vc, pk.domain.spec_element(i as nat)));
            }
        }
        assert forall|j: int| #![trigger r[j]] 0 <= j < 3 implies exists|mask: Seq<nat>| mask.len() == 2 && mask[0] != 0 && mask[1] != 0 && #[trigger] wire_poly_spec(pk.domain, w.column(j), mask) == r[j]@ by {
            if j == 0 {
                let mask = choose|mask: Seq<nat>| mask.len() == 2 && (forall|k: int| 0 <= k < mask.len() ==> mask[k] != 0) && #[trigger] blind_spec(pk.domain.spec_size(), trim(spec_ifft(pk.domain.spec_size(), pk.domain.spec_offset(), vals(w.a@))), mask) == pa@;
                assert(mask[0] != 0 && mask[1] != 0);
                assert(wire_poly_spec(pk.domain, w.column(j), mask) == r[j]@);
            } else if j == 1 {
                let mask = choose|mask: Seq<nat>| mask.len() == 2 && (forall|k: int| 0 <= k < mask.len() ==> mask[k] != 0) && #[trigger] blind_spec(pk.domain.spec_size(), trim(spec_ifft(pk.domain.spec_size(), pk.domain.spec_offset(), vals(w.b@))), mask) == pb@;
                assert(mask[0] != 0 && mask[1] != 0);
                assert(wire_poly_spec(pk.domain, w.column(j), mask) == r[j]@);
            } else {
                let mask = choose|mask: Seq<nat>| mask.len() == 2 && (forall|k: int| 0 <= k < mask.len() ==> mask[k] != 0) && #[trigger] blind_spec(pk.domain.spec_size(), trim(spec_ifft(pk.domain.spec_size(), pk.domain.spec_offset(), vals(w.c@))), mask) == pc@;
                assert(mask[0] != 0 && mask[1] != 0);
                assert(wire_poly_spec(pk.domain, w.column(j), mask) == r[j]@);
            }
        }
    }
    r
}

/// Row `i`'s factor on the identity side of the grand product:
/// `(a + beta id_a + gamma)(b + beta id_b + gamma)(c + beta id_c + gamma)`.
pub open spec fn acc_num(pk: ProverKey, a: Seq<nat>, b: Seq<nat>, c: Seq<nat>, beta: nat, gamma: nat, i: int) -> nat {
    let n = pk.domain.spec_size() as int;
    fmul(
        fmul(perm_term(a[i], beta, pk.id_labels@[i]@, gamma), perm_term(b[i], beta, pk.id_labels@[n + i]@, gamma)),
        perm_term(c[i], beta, pk.id_labels@[2 * n + i]@, gamma),
    )
}

/// Row `i`'s factor on the permuted side, with the `S_sigma` values on `H`.
pub open spec fn acc_den(pk: ProverKey, a: Seq<nat>, b: Seq<nat>, c: Seq<nat>, beta: nat, gamma: nat, i: int) -> nat {
    fmul(
        fmul(
            perm_term(a[i], beta, pk.s_sigma[0].on_h@[i]@, gamma),
            perm_term(b[i], beta, pk.s_sigma[1].on_h@[i]@, gamma),
        ),
        perm_term(c[i], beta, pk.s_sigma[2].on_h@[i]@, gamma),
    )
}

/// The running product over the first `k` rows of `num_i / den_i`.
pub open spec fn acc_prefix(pk: ProverKey, a: Seq<nat>, b: Seq<nat>, c: Seq<nat>, beta: nat, gamma: nat, k: nat) -> nat
    decreases k,
{
    if k == 0 {
        1
    } else {
        fmul(
            acc_prefix(pk, a, b, c, beta, gamma, (k - 1) as nat),
            fmul(acc_num(pk, a, b, c, beta, gamma, k - 1), finv(acc_den(pk, a, b, c, beta, gamma, k - 1))),
        )
    }
}

/// No permuted factor vanishes and the product over all rows is 1.
#[verifier::opaque]
pub open spec fn acc_closes(pk: ProverKey, a: Seq<nat>, b: Seq<nat>, c: Seq<nat>, beta: nat, gamma: nat) -> bool {
    &&& forall|i: int| 0 <= i < pk.domain.spec_size() ==> #[trigger] acc_den(pk, a, b, c, beta, gamma, i) != 0
    &&& acc_prefix(pk, a, b, c, beta, gamma, pk.domain.spec_size()) == 1
}

/// The accumulator's values on `H`: `z(omega^i)` is the product over the
/// rows before `i`.
#[verifier::opaque]
pub open spec fn acc_values(pk: ProverKey, a: Seq<nat>, b: Seq<nat>, c: Seq<nat>, beta: nat, gamma: nat) -> Seq<nat> {
    Seq::new(pk.domain.spec_size(), |i: int| acc_prefix(pk, a, b, c, beta, gamma, i as nat))
}

/// One step of the running product: `z_{i+1} den_i = z_i num_i` when
/// `den_i` is invertible.
proof fn lemma_acc_step(pk: ProverKey, a: Seq<nat>, b: Seq<nat>, c: Seq<nat>, beta: nat, gamma: nat, i: nat)
    requires
        fmul(acc_den(pk, a, b, c, beta, gamma, i as int), finv(acc_den(pk, a, b, c, beta, gamma, i as int))) == 1,
    ensures
        fmul(acc_prefix(pk, a, b, c, beta, gamma, i + 1), acc_den(pk, a, b, c, beta, gamma, i as int)) == fmul(
            acc_prefix(pk, a, b, c, beta, gamma, i),
            acc_num(pk, a, b, c, beta, gamma, i as int),
        ),
{
    let p = acc_prefix(pk, a, b, c, beta, gamma, i);
    let nu = acc_num(pk, a, b, c, beta, gamma, i as int);
    let d = acc_den(pk, a, b, c, beta, gamma, i as int);
    let inv = finv(d);
    assert(acc_prefix(pk, a, b, c, beta, gamma, i + 1) == fmul(p, fmul(nu, inv)));
    lemma_fmul_assoc(p, fmul(nu, inv), d);
    lemma_fmul_assoc(nu, inv, d);
    lemma_fmul_comm(inv, d);
    lemma_fmul_mod(p, nu);
    crate::field::lemma_modulus_pos();
    assert(fmul(nu, 1) == nu % modulus());
}

/// The running product is the product of the numerators times the product
/// of the inverted denominators.
proof fn lemma_acc_prefix_split(pk: ProverKey, a: Seq<nat>, b: Seq<nat>, c: Seq<nat>, beta: nat, gamma: nat, k: nat)
    ensures
        acc_prefix(pk, a, b, c, beta, gamma, k) == fmul(
            field_product(Seq::new(k, |i: int| acc_num(pk, a, b, c, beta, gamma, i))),
            field_product(Seq::new(k, |i: int| finv(acc_den(pk, a, b, c, beta, gamma, i)))),
        ),
    decreases k,
{
    let nums = Seq::new(k, |i: int| acc_num(pk, a, b, c, beta, gamma, i));
    let invs = Seq::new(k, |i: int| finv(acc_den(pk, a, b, c, beta, gamma, i)));
    if k == 0 {
        crate::field::lemma_modulus_pos();
        vstd::arithmetic::div_mod::lemma_small_mod(1, modulus());
        assert(field_product(nums) == 1 && field_product(invs) == 1);
        assert(fmul(1, 1) == 1);
    } else {
        let k1 = (k - 1) as nat;
        lemma_acc_prefix_split(pk, a, b, c, beta, gamma, k1);
        assert(nums.drop_last() =~= Seq::new(k1, |i: int| acc_num(pk, a, b, c, beta, gamma, i)));
        assert(invs.drop_last() =~= Seq::new(k1, |i: int| finv(acc_den(pk, a, b, c, beta, gamma, i))));
        let (pn, pi) = (field_product(nums.drop_last()), field_product(invs.drop_last()));
        let (x, y) = (nums.last(), invs.last());
        // (pn pi)(x y) = (pn x)(pi y)
        lemma_fmul_assoc(fmul(pn, pi), x, y);
        lemma_fmul_assoc(pn, pi, x);
        lemma_fmul_comm(pi, x);
        lemma_fmul_assoc(pn, x, pi);
        lemma_fmul_assoc(fmul(pn, x), pi, y);
        assert(acc_prefix(pk, a, b, c, beta, gamma, k) == fmul(fmul(pn, pi), fmul(x, y)));
        assert(field_product(nums) == fmul(pn, x));
        assert(field_product(invs) == fmul(pi, y));
        assert(fmul(pn, fmul(pi, x)) == fmul(pn, fmul(x, pi)));
        assert(fmul(fmul(pn, pi), fmul(x, y)) == fmul(fmul(pn, x), fmul(pi, y)));
    }
}

/// `x` is nonzero and has an inverse.
pub open spec fn invertible(x: nat) -> bool {
    x != 0 && fmul(x, finv(x)) == 1
}

/// A product of ones is one.
proof fn lemma_product_of_ones(s: Seq<nat>)
    requires
        forall|i: int| 0 <= i < s.len() ==> #[trigger] s[i] == 1,
    ensures
        field_product(s) == 1,
    decreases s.len(),
{
    crate::field::lemma_modulus_pos();
    vstd::arithmetic::div_mod::lemma_small_mod(1, modulus());
    if s.len() > 0 {
        lemma_product_of_ones(s.drop_last());
    }
}

/// The accumulator of the prover's own witness closes: for the key of a
/// circuit and the witness read from it, when no permuted factor vanishes
/// and each has an inverse, the running product returns to one after the
/// last row, for every `beta` and `gamma`.
pub proof fn lemma_witness_accumulator_closes(pk: ProverKey, circuit: Circuit, srs: Srs, beta: nat, gamma: nat)
    requires
        circuit.wf(),
        is_prover_key(pk, circuit, srs),
        forall|i: int|
            0 <= i < pk.domain.spec_size() ==> invertible(
                #[trigger] acc_den(
                    pk,
                    witness_column(circuit, pk.domain.spec_size(), 0),
                    witness_column(circuit, pk.domain.spec_size(), 1),
                    witness_column(circuit, pk.domain.spec_size(), 2),
                    beta,
                    gamma,
                    i,
                ),
            ),
    ensures
        acc_closes(
            pk,
            witness_column(circuit, pk.domain.spec_size(), 0),
            witness_column(circuit, pk.domain.spec_size(), 1),
            witness_column(circuit, pk.domain.spec_size(), 2),
            beta,
            gamma,
        ),
{
    reveal(acc_closes);
    let n = pk.domain.spec_size();
    let (a, b, c) = (witness_column(circuit, n, 0), witness_column(circuit, n, 1), witness_column(circuit, n, 2));
    let nums = Seq::new(n, |i: int| acc_num(pk, a, b, c, beta, gamma, i));
    let dens = Seq::new(n, |i: int| acc_den(pk, a, b, c, beta, gamma, i));
    let invs = Seq::new(n, |i: int| finv(acc_den(pk, a, b, c, beta, gamma, i)));
    lemma_witness_grand_product(pk, circuit, srs, beta, gamma);
    lemma_acc_prefix_split(pk, a, b, c, beta, gamma, n);
    lemma_product_pointwise(dens, invs);
    lemma_product_of_ones(Seq::new(n, |i: int| fmul(dens[i], invs[i])));
}

/// The values of the accumulator on `H`, or `None` when it does not close.
pub fn accumulator_evals(pk: &ProverKey, w: &Witness, beta: &Scalar, gamma: &Scalar) -> (r: Option<Vec<Scalar>>)
    requires
        pk_shapes(*pk),
        w.a@.len() >= pk.domain.spec_size(),
        w.b@.len() >= pk.domain.spec_size(),
        w.c@.len() >= pk.domain.spec_size(),
    ensures
        r is Some <==> acc_closes(*pk, w.column(0), w.column(1), w.column(2), beta@, gamma@),
        r matches Some(v) ==> vals(v@) == acc_values(*pk, w.column(0), w.column(1), w.column(2), beta@, gamma@),
        r is Some ==> forall|i: int|
            0 <= i < pk.domain.spec_size() ==> #[trigger] fmul(
                acc_den(*pk, w.column(0), w.column(1), w.column(2), beta@, gamma@, i),
                finv(acc_den(*pk, w.column(0), w.column(1), w.column(2), beta@, gamma@, i)),
            ) == 1,
{
    proof {
        reveal(acc_closes);
        reveal(acc_values);
    }
    let n = pk.domain.size();
    let ghost (ca, cb, cc) = (w.column(0), w.column(1), w.column(2));
    let id = &pk.id_labels;
    let s1 = &pk.s_sigma[0].on_h;
    let s2 = &pk.s_sigma[1].on_h;
    let s3 = &pk.s_sigma[2].on_h;
    let id_len = id.len();
    proof {
        assert(pk.s_sigma[0].on_h@.len() == n && pk.s_sigma[1].on_h@.len() == n && pk.s_sigma[2].on_h@.len() == n);
    }
    let mut nums: Vec<Scalar> = Vec::new();
    let mut dens: Vec<Scalar> = Vec::new();
    for i in 0..n
        invariant
            pk_shapes(*pk),
            n == pk.domain.spec_size(),
            id@ == pk.id_labels@,
            id_len == id@.len(),
            id@.len() == 3 * n,
            s1@ == pk.s_sigma[0].on_h@,
            s2@ == pk.s_sigma[1].on_h@,
            s3@ == pk.s_sigma[2].on_h@,
            s1@.len() == n && s2@.len() == n && s3@.len() == n,
            ca == vals(w.a@) && cb == vals(w.b@) && cc == vals(w.c@),
            ca == w.column(0) && cb == w.column(1) && cc == w.column(2),
            w.a@.len() >= n && w.b@.len() >= n && w.c@.len() >= n,
            nums@.len() == i && dens@.len() == i,
            forall|j: int| 0 <= j < i ==> (#[trigger] nums@[j])@ == acc_num(*pk, ca, cb, cc, beta@, gamma@, j),
            forall|j: int| 0 <= j < i ==> (#[trigger] dens@[j])@ == acc_den(*pk, ca, cb, cc, beta@, gamma@, j),
    {
        proof {
            assert(ca[i as int] == w.a@[i as int]@ && cb[i as int] == w.b@[i as int]@ && cc[i as int] == w.c@[i as int]@);
        }
        let fa = w.a[i].plus(&beta.times(&id[i])).plus(gamma);
        let fb = w.b[i].plus(&beta.times(&id[n + i])).plus(gamma);
        let fc = w.c[i].plus(&beta.times(&id[2 * n + i])).plus(gamma);
        nums.push(fa.times(&fb).times(&fc));
        let ga = w.a[i].plus(&beta.times(&s1[i])).plus(gamma);
        let gb = w.b[i].plus(&beta.times(&s2[i])).plus(gamma);
        let gc = w.c[i].plus(&beta.times(&s3[i])).plus(gamma);
        dens.push(ga.times(&gb).times(&gc));
    }
    for i in 0..n
        invariant
            n == pk.domain.spec_size(),
            dens@.len() == n,
            ca == w.column(0) && cb == w.column(1) && cc == w.column(2),
            forall|j: int| 0 <= j < n ==> (#[trigger] dens@[j])@ == acc_den(*pk, ca, cb, cc, beta@, gamma@, j),
            forall|j: int| 0 <= j < i ==> (#[trigger] dens@[j])@ != 0,
    {
        if dens[i].is_zero() {
            // gamma happened to cancel a wire value; astronomically unlikely
            proof {
                reveal(acc_closes);
                assert(acc_den(*pk, ca, cb, cc, beta@, gamma@, i as int) == 0);
            }
            return None;
        }
    }
    let ghost before = dens@;
    proof {
        assert forall|j: int| 0 <= j < n implies #[trigger] acc_den(*pk, ca, cb, cc, beta@, gamma@, j) != 0 by {
            assert(before[j]@ != 0);
        }
    }
    batch_inversion(&mut dens);
    proof {
        assert forall|j: int| 0 <= j < n implies #[trigger] fmul(
            acc_den(*pk, ca, cb, cc, beta@, gamma@, j),
            finv(acc_den(*pk, ca, cb, cc, beta@, gamma@, j)),
        ) == 1 by {
            assert(before[j]@ != 0);
        }
    }
    let mut evals: Vec<Scalar> = Vec::new();
    let mut acc = Scalar::one();
    for i in 0..n
        invariant
            n == pk.domain.spec_size(),
            nums@.len() == n && dens@.len() == n,
            ca == w.column(0) && cb == w.column(1) && cc == w.column(2),
            forall|j: int| 0 <= j < n ==> #[trigger] acc_den(*pk, ca, cb, cc, beta@, gamma@, j) != 0,
            forall|j: int| 0 <= j < n ==> (#[trigger] nums@[j])@ == acc_num(*pk, ca, cb, cc, beta@, gamma@, j),
            forall|j: int| 0 <= j < n ==> (#[trigger] dens@[j])@ == finv(acc_den(*pk, ca, cb, cc, beta@, gamma@, j)),
            evals@.len() == i,
            forall|j: int| 0 <= j < i ==> (#[trigger] evals@[j])@ == acc_prefix(*pk, ca, cb, cc, beta@, gamma@, j as nat),
            acc@ == acc_prefix(*pk, ca, cb, cc, beta@, gamma@, i as nat),
    {
        evals.push(acc);
        acc = acc.times(&nums[i].times(&dens[i]));
    }
    // The product over all rows is 1 exactly when the wires respect the
    // copy constraints (up to a gamma collision).
    if !acc.is_one() {
        return None;
    }
    proof {
        assert(vals(evals@) =~= acc_values(*pk, ca, cb, cc, beta@, gamma@));
    }
    Some(evals)
}

/// Wire slot `pos` of the witness read from `circuit` holds the value of
/// the variable in that slot.
proof fn lemma_witness_slots(circuit: Circuit, n: nat)
    requires
        circuit.wf(),
        circuit.spec_gates().len() <= n,
    ensures
        forall|pos: int|
            0 <= pos < 3 * n ==> #[trigger] (witness_column(circuit, n, 0) + witness_column(circuit, n, 1)
                + witness_column(circuit, n, 2))[pos] == circuit.spec_value(wire_slots(circuit.spec_gates(), n)[pos]),
{
    let ni = n as int;
    let w = witness_column(circuit, n, 0) + witness_column(circuit, n, 1) + witness_column(circuit, n, 2);
    circuit.lemma_wires_ok();
    assert forall|pos: int| 0 <= pos < 3 * ni implies #[trigger] w[pos] == circuit.spec_value(
        wire_slots(circuit.spec_gates(), n)[pos],
    ) by {
        vstd::arithmetic::div_mod::lemma_fundamental_div_mod(pos, ni);
        let col = pos / ni;
        let row = pos % ni;
        assert(0 <= col < 3) by (nonlinear_arith)
            requires pos == ni * col + row, 0 <= row < ni, 0 <= pos < 3 * ni;
        if col == 0 {
            assert(pos == row) by (nonlinear_arith)
                requires pos == ni * col + row, col == 0;
        } else if col == 1 {
            assert(pos == ni + row) by (nonlinear_arith)
                requires pos == ni * col + row, col == 1;
        } else {
            assert(pos == 2 * ni + row) by (nonlinear_arith)
                requires pos == ni * col + row, col == 2;
        }
    }
}

/// The product over `3n` slots, regrouped row by row: row `i` multiplies
/// slots `i`, `n + i` and `2n + i`.
proof fn lemma_rows_product(t: Seq<nat>, n: nat)
    requires
        t.len() == 3 * n,
    ensures
        field_product(t) == field_product(Seq::new(n, |i: int| fmul(fmul(t[i], t[n + i]), t[2 * n + i]))),
{
    let ni = n as int;
    let (ta, tb, tc) = (t.subrange(0, ni), t.subrange(ni, 2 * ni), t.subrange(2 * ni, 3 * ni));
    assert(t =~= ta + tb + tc);
    lemma_product_concat(ta + tb, tc);
    lemma_product_concat(ta, tb);
    let tab = Seq::new(n, |i: int| fmul(ta[i], tb[i]));
    lemma_product_pointwise(ta, tb);
    lemma_product_pointwise(tab, tc);
    assert(Seq::new(n, |i: int| fmul(fmul(t[i], t[n + i]), t[2 * n + i])) =~= Seq::new(n, |i: int| fmul(tab[i], tc[i])));
}

/// The prover's own witness satisfies the copy constraints: for the key of
/// a circuit and the witness read from that circuit, the product over the
/// rows of the identity-side factors equals the product of the permuted-side
/// factors, for every `beta` and `gamma`.
pub proof fn lemma_witness_grand_product(pk: ProverKey, circuit: Circuit, srs: Srs, beta: nat, gamma: nat)
    requires
        circuit.wf(),
        is_prover_key(pk, circuit, srs),
    ensures
        ({
            let n = pk.domain.spec_size();
            let (a, b, c) = (witness_column(circuit, n, 0), witness_column(circuit, n, 1), witness_column(circuit, n, 2));
            field_product(Seq::new(n, |i: int| acc_num(pk, a, b, c, beta, gamma, i))) == field_product(
                Seq::new(n, |i: int| acc_den(pk, a, b, c, beta, gamma, i)),
            )
        }),
{
    let n = pk.domain.spec_size();
    let ni = n as int;
    let gates = circuit.spec_gates();
    let (a, b, c) = (witness_column(circuit, n, 0), witness_column(circuit, n, 1), witness_column(circuit, n, 2));
    let slots = wire_slots(gates, n);
    let sigma = pk.permutation.spec_sigma();
    let w = a + b + c;
    let id = vals(pk.id_labels@);
    lemma_witness_slots(circuit, n);
    assert forall|p: int, q: int|
        0 <= p < slots.len() && 0 <= q < slots.len() && slots[p] == slots[q] implies #[trigger] w[p] == #[trigger] w[q] by {
        assert(w[p] == circuit.spec_value(slots[p]));
        assert(w[q] == circuit.spec_value(slots[q]));
    }
    lemma_grand_product(slots, sigma, w, id, beta, gamma);
    let moved = permuted_labels(id, sigma);
    let t = slot_terms(w, id, beta, gamma);
    let u = slot_terms(w, moved, beta, gamma);
    lemma_rows_product(t, n);
    lemma_rows_product(u, n);
    assert(Seq::new(n, |i: int| acc_num(pk, a, b, c, beta, gamma, i)) =~= Seq::new(
        n,
        |i: int| fmul(fmul(t[i], t[ni + i]), t[2 * ni + i]),
    ));
    assert forall|col: int, i: int| 0 <= col < 3 && 0 <= i < ni implies #[trigger] pk.s_sigma[col].on_h@[i]@ == moved[
        col * ni + i
    ] by {
        assert(vals(pk.s_sigma[col].on_h@)[i] == pad(pk.permutation.perm_column(pk.domain, pk.k1@, pk.k2@, col), n)[i]);
        assert(0 <= col * ni + i < 3 * ni) by (nonlinear_arith)
            requires 0 <= col < 3, 0 <= i < ni;
        assert(sigma[col * ni + i] < 3 * n);
    }
    assert forall|i: int| 0 <= i < ni implies #[trigger] acc_den(pk, a, b, c, beta, gamma, i) == fmul(
        fmul(u[i], u[ni + i]),
        u[2 * ni + i],
    ) by {
        assert(pk.s_sigma[0].on_h@[i]@ == moved[0 * ni + i]);
        assert(pk.s_sigma[1].on_h@[i]@ == moved[1 * ni + i]);
        assert(pk.s_sigma[2].on_h@[i]@ == moved[2 * ni + i]);
    }
    assert(Seq::new(n, |i: int| acc_den(pk, a, b, c, beta, gamma, i)) =~= Seq::new(
        n,
        |i: int| fmul(fmul(u[i], u[ni + i]), u[2 * ni + i]),
    ));
}

/// Round 2: the permutation accumulator `z(X)`.
///
/// `z(omega^0) = 1` and `z(omega^{i+1}) = z(omega^i) * f_i / g_i` where
/// `f_i` uses the identity labels and `g_i` the permuted ones. If the wires
/// respect the copy constraints the two products agree overall, so the
/// accumulator returns to 1 after a full lap.
///
/// Opened at two points, so blinded with a degree-2 mask. Degree n+2.
pub fn accumulator<R: RngCore>(pk: &ProverKey, w: &Witness, beta: &Scalar, gamma: &Scalar, rng: &mut R) -> (r: Result<
    Poly,
    ProveError,
>)
    requires
        pk_shapes(*pk),
        w.a@.len() >= pk.domain.spec_size(),
        w.b@.len() >= pk.domain.spec_size(),
        w.c@.len() >= pk.domain.spec_size(),
    ensures
        r is Err <==> !acc_closes(*pk, w.column(0), w.column(1), w.column(2), beta@, gamma@),
        r matches Err(e) ==> e == ProveError::Unsatisfied,
        r matches Ok(z) ==> exists|mask: Seq<nat>|
            mask.len() == 3 && #[trigger] blind_spec(
                pk.domain.spec_size(),
                trim(spec_ifft(
                    pk.domain.spec_size(),
                    pk.domain.spec_offset(),
                    acc_values(*pk, w.column(0), w.column(1), w.column(2), beta@, gamma@),
                )),
                mask,
            ) == z@,
        r matches Ok(z) ==> forall|i: int|
            0 <= i < pk.domain.spec_size() ==> #[trigger] poly_eval(z@, pk.domain.spec_element(i as nat)) == acc_values(
                *pk,
                w.column(0),
                w.column(1),
                w.column(2),
                beta@,
                gamma@,
            )[i],
        r matches Ok(z) ==> forall|i: int|
            0 <= i < pk.domain.spec_size() ==> #[trigger] fmul(
                poly_eval(z@, pk.domain.spec_element((i + 1) as nat)),
                acc_den(*pk, w.column(0), w.column(1), w.column(2), beta@, gamma@, i),
            ) == fmul(
                poly_eval(z@, pk.domain.spec_element(i as nat)),
                acc_num(*pk, w.column(0), w.column(1), w.column(2), beta@, gamma@, i),
            ),
{
    match accumulator_evals(pk, w, beta, gamma) {
        None => Err(ProveError::Unsatisfied),
        Some(evals) => {
            proof {
                reveal(acc_values);
            }
            let p = interpolate(&pk.domain, evals.as_slice());
            pk.domain.lemma_wf();
            let z = blind(&pk.domain, p, 2, rng);
            pk.domain.lemma_wf();
            proof {
                let n = pk.domain.spec_size();
                let (ca, cb, cc) = (w.column(0), w.column(1), w.column(2));
                assert forall|i: int| 0 <= i < n implies #[trigger] poly_eval(
                    z@,
                    pk.domain.spec_element(i as nat),
                ) == acc_values(*pk, ca, cb, cc, beta@, gamma@)[i] by {
                    assert(poly_eval(p@, pk.domain.spec_element(i as nat)) == coeff(vals(evals@), i));
                }
                reveal(acc_closes);
                // omega^n is omega^0
                assert(pk.domain.spec_element(n) == pk.domain.spec_element(0)) by {
                    reveal_with_fuel(fpow, 1);
                    crate::field::lemma_modulus_pos();
                    vstd::arithmetic::div_mod::lemma_small_mod(1, modulus());
                }
                assert forall|i: int| 0 <= i < n implies #[trigger] fmul(
                    poly_eval(z@, pk.domain.spec_element((i + 1) as nat)),
                    acc_den(*pk, ca, cb, cc, beta@, gamma@, i),
                ) == fmul(poly_eval(z@, pk.domain.spec_element(i as nat)), acc_num(*pk, ca, cb, cc, beta@, gamma@, i)) by {
                    lemma_acc_step(*pk, ca, cb, cc, beta@, gamma@, i as nat);
                    if i + 1 < n {
                        assert(poly_eval(z@, pk.domain.spec_element((i + 1) as nat)) == acc_values(*pk, ca, cb, cc, beta@, gamma@)[i + 1]);
                    } else {
                        assert(poly_eval(z@, pk.domain.spec_element(0)) == acc_values(*pk, ca, cb, cc, beta@, gamma@)[0]);
                    }
                }
            }
            Ok(z)
        },
    }
}

/// The constraint expression that `t * Z_H` must equal at a point `x`, from
/// the values there of the wires, selectors `q = [q_l, q_r, q_o, q_m, q_c]`,
/// permutation polynomials `s`, public inputs, `z` at `x` and at `x omega`,
/// and `L_1`:
/// `gate + PI + alpha (f z - g z_omega) + alpha^2 (z - 1) L_1`.
#[verifier::opaque]
pub open spec fn constraint_value(
    a: nat,
    b: nat,
    c: nat,
    q: Seq<nat>,
    s: Seq<nat>,
    pi: nat,
    z: nat,
    z_w: nat,
    l1: nat,
    x: nat,
    k: (nat, nat),
    beta: nat,
    gamma: nat,
    alpha: nat,
) -> nat {
    let gate = fadd(
        fadd(fadd(fadd(fmul(q[3], fmul(a, b)), fmul(q[0], a)), fmul(q[1], b)), fmul(q[2], c)),
        fadd(q[4], pi),
    );
    let f = fmul(
        fmul(perm_term(a, beta, x, gamma), perm_term(b, beta, fmul(k.0, x), gamma)),
        perm_term(c, beta, fmul(k.1, x), gamma),
    );
    let g = fmul(fmul(perm_term(a, beta, s[0], gamma), perm_term(b, beta, s[1], gamma)), perm_term(c, beta, s[2], gamma));
    let perm = fsub(fmul(z, f), fmul(g, z_w));
    let start = fmul(fsub(z, 1), l1);
    fadd(fadd(gate, fmul(perm, alpha)), fmul(start, fmul(alpha, alpha)))
}

/// The quotient's numerator over `Z_H` at one coset point `x`: the
/// constraint expression times `1 / Z_H(x)`.
#[verifier::opaque]
pub open spec fn t_point(
    a: nat,
    b: nat,
    c: nat,
    q: Seq<nat>,
    s: Seq<nat>,
    pi: nat,
    z: nat,
    z_w: nat,
    l1: nat,
    x: nat,
    zh_inv: nat,
    k: (nat, nat),
    beta: nat,
    gamma: nat,
    alpha: nat,
) -> nat {
    fmul(constraint_value(a, b, c, q, s, pi, z, z_w, l1, x, k, beta, gamma, alpha), zh_inv)
}

/// The constraint expression at `x` for the polynomials themselves: the
/// wires, `z`, the public input polynomial and the key's selector,
/// permutation and `L_1` polynomials evaluated at `x`, and `z` at `x omega`.
pub open spec fn numerator_at(
    pk: ProverKey,
    wires: Seq<Seq<nat>>,
    z: Seq<nat>,
    pi: Seq<nat>,
    beta: nat,
    gamma: nat,
    alpha: nat,
    x: nat,
) -> nat {
    constraint_value(
        poly_eval(wires[0], x),
        poly_eval(wires[1], x),
        poly_eval(wires[2], x),
        Seq::new(5, |j: int| poly_eval(pk.selectors[j].poly@, x)),
        Seq::new(3, |j: int| poly_eval(pk.s_sigma[j].poly@, x)),
        poly_eval(pi, x),
        poly_eval(z, x),
        poly_eval(z, fmul(x, pk.domain.spec_group_gen())),
        poly_eval(pk.l1.poly@, x),
        x,
        (pk.k1@, pk.k2@),
        beta,
        gamma,
        alpha,
    )
}

/// `t_lo(x) + x^n t_mid(x) + x^2n t_hi(x)` for the three pieces `t`.
pub open spec fn pieces_at(t: Seq<Seq<nat>>, n: nat, x: nat) -> nat {
    fadd(fadd(poly_eval(t[0], x), fmul(fpow(x, n), poly_eval(t[1], x))), fmul(fpow(x, 2 * n), poly_eval(t[2], x)))
}

/// The value of `t` at coset point `i`, given the coset evaluations of the
/// wires, public input polynomial and `z`.
pub open spec fn t_at(
    pk: ProverKey,
    a: Seq<nat>,
    b: Seq<nat>,
    c: Seq<nat>,
    pv: Seq<nat>,
    zz: Seq<nat>,
    beta: nat,
    gamma: nat,
    alpha: nat,
    i: int,
) -> nat {
    t_point(
        a[i],
        b[i],
        c[i],
        Seq::new(5, |j: int| pk.selectors[j].on_coset@[i]@),
        Seq::new(3, |j: int| pk.s_sigma[j].on_coset@[i]@),
        pv[i],
        zz[i],
        zz[(i + 4) % (pk.coset.spec_size() as int)],
        pk.l1.on_coset@[i]@,
        pk.coset_points@[i]@,
        pk.z_h_inv_coset[i % 4]@,
        (pk.k1@, pk.k2@),
        beta,
        gamma,
        alpha,
    )
}

/// At coset point `i`, `t` times `Z_H` is the constraint expression of the
/// polynomials there, given the coset evaluations `va, vb, vc, vp, vz` of the
/// wires, public inputs and `z`.
#[verifier::rlimit(100)]
#[verifier::spinoff_prover]
proof fn lemma_coset_value(
    pk: ProverKey,
    va: Seq<nat>,
    vb: Seq<nat>,
    vc: Seq<nat>,
    vp: Seq<nat>,
    vz: Seq<nat>,
    wires: Seq<Seq<nat>>,
    z: Seq<nat>,
    pi: Seq<nat>,
    beta: nat,
    gamma: nat,
    alpha: nat,
    i: int,
)
    requires
        pk_shapes(pk),
        is_pow2(pk.domain.spec_size()),
        4 * pk.domain.spec_size() <= max_domain_size(),
        pk.domain.spec_group_gen() == spec_root_of_unity(pk.domain.spec_size()),
        pk.coset.spec_group_gen() == spec_root_of_unity(pk.coset.spec_size()),
        fpow(pk.coset.spec_group_gen(), pk.coset.spec_size()) == 1,
        0 <= i < pk.coset.spec_size(),
        wires.len() == 3,
        va.len() == pk.coset.spec_size() && vb.len() == pk.coset.spec_size() && vc.len() == pk.coset.spec_size(),
        vp.len() == pk.coset.spec_size() && vz.len() == pk.coset.spec_size(),
        forall|j: int| 0 <= j < pk.coset.spec_size() ==> {
            let x = #[trigger] pk.coset.spec_element(j as nat);
            &&& va[j] == poly_eval(wires[0], x)
            &&& vb[j] == poly_eval(wires[1], x)
            &&& vc[j] == poly_eval(wires[2], x)
            &&& vp[j] == poly_eval(pi, x)
            &&& vz[j] == poly_eval(z, x)
        },
    ensures
        fmul(
            t_at(pk, va, vb, vc, vp, vz, beta, gamma, alpha, i),
            z_h_at(pk.coset.spec_element(i as nat), pk.domain.spec_size()),
        ) == numerator_at(pk, wires, z, pi, beta, gamma, alpha, pk.coset.spec_element(i as nat)),
{
    reveal(coset_tables);
    reveal(t_point);
    let n = pk.domain.spec_size();
    let m = pk.coset.spec_size();
    let g = pk.coset.spec_group_gen();
    let off = pk.coset.spec_offset();
    let x = pk.coset.spec_element(i as nat);
    let q = Seq::new(5, |j: int| pk.selectors[j].on_coset@[i]@);
    assert forall|j: int| 0 <= j < 5 implies q[j] == poly_eval(pk.selectors[j].poly@, x) by {
        assert(on_coset_evals(pk.selectors[j], pk.coset));
        assert(vals(pk.selectors[j].on_coset@)[i] == pk.selectors[j].on_coset@[i]@);
    }
    assert(q =~= Seq::new(5, |j: int| poly_eval(pk.selectors[j].poly@, x)));
    let sg = Seq::new(3, |j: int| pk.s_sigma[j].on_coset@[i]@);
    assert forall|j: int| 0 <= j < 3 implies sg[j] == poly_eval(pk.s_sigma[j].poly@, x) by {
        assert(on_coset_evals(pk.s_sigma[j], pk.coset));
        assert(vals(pk.s_sigma[j].on_coset@)[i] == pk.s_sigma[j].on_coset@[i]@);
    }
    assert(sg =~= Seq::new(3, |j: int| poly_eval(pk.s_sigma[j].poly@, x)));
    assert(vals(pk.l1.on_coset@)[i] == pk.l1.on_coset@[i]@);
    assert(pk.l1.on_coset@[i]@ == poly_eval(pk.l1.poly@, x));
    assert(pk.coset_points@[i]@ == x);
    // z at x omega: four steps on along the coset
    let iw = ((i + 4) % (m as int)) as nat;
    crate::evaluation::lemma_coset_step(g, off, m, i as nat);
    assert(iw == ((i as nat + 4) % m) as nat);
    lemma_root_fourth_power(n);
    assert(pk.coset.spec_element(iw) == fmul(x, pk.domain.spec_group_gen()));
    assert(vz[iw as int] == poly_eval(z, fmul(x, pk.domain.spec_group_gen())));
    // Z_H repeats with period four on the coset
    crate::evaluation::lemma_coset_pow_period(g, off, n, i as nat);
    let r = (i % 4) as nat;
    assert(r == (i as nat) % 4);
    assert(z_h_at(x, n) == z_h_at(pk.coset.spec_element(r), n));
    let zh = z_h_at(x, n);
    let inv = pk.z_h_inv_coset[i % 4]@;
    assert(fmul(zh, inv) == 1);
    let cv = numerator_at(pk, wires, z, pi, beta, gamma, alpha, x);
    reveal(constraint_value);
    assert(t_at(pk, va, vb, vc, vp, vz, beta, gamma, alpha, i) == fmul(cv, inv));
    lemma_fmul_assoc(cv, inv, zh);
    lemma_fmul_comm(inv, zh);
    crate::field::lemma_modulus_pos();
    vstd::arithmetic::div_mod::lemma_mod_bound((cv as int), modulus() as int);
    vstd::arithmetic::div_mod::lemma_small_mod(cv, modulus());
}

/// The values of `t` on the coset: the polynomials `wires`, `z`, `pi` are
/// evaluated there by FFT, the key's tables already hold the rest.
#[verifier::opaque]
pub open spec fn quotient_values(
    pk: ProverKey,
    wires: Seq<Seq<nat>>,
    z: Seq<nat>,
    pi: Seq<nat>,
    beta: nat,
    gamma: nat,
    alpha: nat,
) -> Seq<nat> {
    let m = pk.coset.spec_size();
    let off = pk.coset.spec_offset();
    Seq::new(
        m,
        |i: int|
            t_at(
                pk,
                spec_fft(m, off, wires[0]),
                spec_fft(m, off, wires[1]),
                spec_fft(m, off, wires[2]),
                spec_fft(m, off, pi),
                spec_fft(m, off, z),
                beta,
                gamma,
                alpha,
                i,
            ),
    )
}

/// `x + beta * y + gamma` on scalars.
fn term(x: &Scalar, beta: &Scalar, y: &Scalar, gamma: &Scalar) -> (r: Scalar)
    ensures
        r@ == perm_term(x@, beta@, y@, gamma@),
{
    x.plus(&beta.times(y)).plus(gamma)
}

fn t_point_exec(
    a: &Scalar,
    b: &Scalar,
    c: &Scalar,
    q: &[Scalar; 5],
    s: &[Scalar; 3],
    pi: &Scalar,
    z: &Scalar,
    z_w: &Scalar,
    l1: &Scalar,
    x: &Scalar,
    zh_inv: &Scalar,
    k1: &Scalar,
    k2: &Scalar,
    beta: &Scalar,
    gamma: &Scalar,
    alpha: &Scalar,
) -> (r: Scalar)
    ensures
        r@ == t_point(
            a@,
            b@,
            c@,
            Seq::new(5, |j: int| q[j]@),
            Seq::new(3, |j: int| s[j]@),
            pi@,
            z@,
            z_w@,
            l1@,
            x@,
            zh_inv@,
            (k1@, k2@),
            beta@,
            gamma@,
            alpha@,
        ),
{
    proof {
        reveal(t_point);
        reveal(constraint_value);
    }
    let gate = q[3].times(&a.times(b)).plus(&q[0].times(a)).plus(&q[1].times(b)).plus(&q[2].times(c)).plus(
        &q[4].plus(pi),
    );
    let f = term(a, beta, x, gamma).times(&term(b, beta, &k1.times(x), gamma)).times(&term(c, beta, &k2.times(x), gamma));
    let g = term(a, beta, &s[0], gamma).times(&term(b, beta, &s[1], gamma)).times(&term(c, beta, &s[2], gamma));
    let perm = z.times(&f).minus(&g.times(z_w));
    let start = z.minus(&Scalar::one()).times(l1);
    let alpha2 = alpha.times(alpha);
    gate.plus(&perm.times(alpha)).plus(&start.times(&alpha2)).times(zh_inv)
}

/// The wires, `z` and the public input polynomial have no more
/// coefficients than the quotient coset has points.
pub open spec fn fits_coset(pk: ProverKey, wires: &[Poly; 3], z: &Poly, pi: &Poly) -> bool {
    let m = pk.coset.spec_size();
    &&& wires[0]@.len() <= m
    &&& wires[1]@.len() <= m
    &&& wires[2]@.len() <= m
    &&& z@.len() <= m
    &&& pi@.len() <= m
}

/// The values of `t` on the coset.
fn quotient_evals(
    pk: &ProverKey,
    wires: &[Poly; 3],
    z: &Poly,
    pi: &Poly,
    beta: &Scalar,
    gamma: &Scalar,
    alpha: &Scalar,
) -> (r: Vec<Scalar>)
    requires
        pk_shapes(*pk),
    ensures
        vals(r@) == quotient_values(*pk, seq![wires[0]@, wires[1]@, wires[2]@], z@, pi@, beta@, gamma@, alpha@),
        r@.len() == pk.coset.spec_size(),
        fits_coset(*pk, wires, z, pi) ==> forall|i: int|
            0 <= i < pk.coset.spec_size() ==> fmul(
                #[trigger] vals(r@)[i],
                z_h_at(pk.coset.spec_element(i as nat), pk.domain.spec_size()),
            ) == numerator_at(
                *pk,
                seq![wires[0]@, wires[1]@, wires[2]@],
                z@,
                pi@,
                beta@,
                gamma@,
                alpha@,
                pk.coset.spec_element(i as nat),
            ),
{
    let coset = &pk.coset;
    coset.lemma_wf();
    pk.domain.lemma_wf();
    let m = coset.size();
    let ea = coset.fft(wires[0].coeffs());
    let eb = coset.fft(wires[1].coeffs());
    let ec = coset.fft(wires[2].coeffs());
    let epi = coset.fft(pi.coeffs());
    let zz = coset.fft(z.coeffs());
    let ghost ws = seq![wires[0]@, wires[1]@, wires[2]@];
    let mut t: Vec<Scalar> = Vec::new();
    proof {
        assert(pk.selectors[0].on_coset@.len() == m && pk.selectors[1].on_coset@.len() == m);
        assert(pk.selectors[2].on_coset@.len() == m && pk.selectors[3].on_coset@.len() == m);
        assert(pk.selectors[4].on_coset@.len() == m);
        assert(pk.s_sigma[0].on_coset@.len() == m && pk.s_sigma[1].on_coset@.len() == m && pk.s_sigma[2].on_coset@.len() == m);
    }
    let ghost (va, vb, vc, vp, vz) = (vals(ea@), vals(eb@), vals(ec@), vals(epi@), vals(zz@));
    for i in 0..m
        invariant
            m == pk.coset.spec_size(),
            m == pk.coset_points@.len(),
            m == pk.l1.on_coset@.len(),
            m > 0,
            m <= usize::MAX / 2 + 1,
            ea@.len() == m && eb@.len() == m && ec@.len() == m && epi@.len() == m && zz@.len() == m,
            va == vals(ea@) && vb == vals(eb@) && vc == vals(ec@) && vp == vals(epi@) && vz == vals(zz@),
            pk.selectors[0].on_coset@.len() == m && pk.selectors[1].on_coset@.len() == m,
            pk.selectors[2].on_coset@.len() == m && pk.selectors[3].on_coset@.len() == m,
            pk.selectors[4].on_coset@.len() == m,
            pk.s_sigma[0].on_coset@.len() == m && pk.s_sigma[1].on_coset@.len() == m && pk.s_sigma[2].on_coset@.len() == m,
            t@.len() == i,
            forall|j: int| 0 <= j < i ==> (#[trigger] t@[j])@ == t_at(*pk, va, vb, vc, vp, vz, beta@, gamma@, alpha@, j),
    {
        let q = [
            pk.selectors[0].on_coset[i],
            pk.selectors[1].on_coset[i],
            pk.selectors[2].on_coset[i],
            pk.selectors[3].on_coset[i],
            pk.selectors[4].on_coset[i],
        ];
        let sg = [pk.s_sigma[0].on_coset[i], pk.s_sigma[1].on_coset[i], pk.s_sigma[2].on_coset[i]];
        // The 4n-th root of unity to the 4th is omega, so z(X omega) on the
        // coset is z(X) rotated by four positions.
        let iw = (i + 4) % m;
        let v = t_point_exec(
            &ea[i],
            &eb[i],
            &ec[i],
            &q,
            &sg,
            &epi[i],
            &zz[i],
            &zz[iw],
            &pk.l1.on_coset[i],
            &pk.coset_points[i],
            &pk.z_h_inv_coset[i % 4],
            &pk.k1,
            &pk.k2,
            beta,
            gamma,
            alpha,
        );
        proof {
            assert(Seq::new(5, |j: int| q[j]@) =~= Seq::new(5, |j: int| pk.selectors[j].on_coset@[i as int]@));
            assert(Seq::new(3, |j: int| sg[j]@) =~= Seq::new(3, |j: int| pk.s_sigma[j].on_coset@[i as int]@));
            assert(va[i as int] == ea@[i as int]@ && vb[i as int] == eb@[i as int]@ && vc[i as int] == ec@[i as int]@);
            assert(vp[i as int] == epi@[i as int]@ && vz[i as int] == zz@[i as int]@ && vz[iw as int] == zz@[iw as int]@);
        }
        t.push(v);
    }
    proof {
        reveal(quotient_values);
        assert(vals(t@) =~= quotient_values(*pk, ws, z@, pi@, beta@, gamma@, alpha@));
        if fits_coset(*pk, wires, z, pi) {
            assert forall|j: int| 0 <= j < m implies {
                let x = #[trigger] pk.coset.spec_element(j as nat);
                &&& va[j] == poly_eval(ws[0], x)
                &&& vb[j] == poly_eval(ws[1], x)
                &&& vc[j] == poly_eval(ws[2], x)
                &&& vp[j] == poly_eval(pi@, x)
                &&& vz[j] == poly_eval(z@, x)
            } by {
                assert(vals(ea@)[j] == va[j] && vals(eb@)[j] == vb[j] && vals(ec@)[j] == vc[j]);
                assert(vals(epi@)[j] == vp[j] && vals(zz@)[j] == vz[j]);
            }
            assert forall|i: int| 0 <= i < m implies fmul(
                #[trigger] vals(t@)[i],
                z_h_at(pk.coset.spec_element(i as nat), pk.domain.spec_size()),
            ) == numerator_at(*pk, ws, z@, pi@, beta@, gamma@, alpha@, pk.coset.spec_element(i as nat)) by {
                lemma_coset_value(*pk, va, vb, vc, vp, vz, ws, z@, pi@, beta@, gamma@, alpha@, i);
                assert(vals(t@)[i] == t_at(*pk, va, vb, vc, vp, vz, beta@, gamma@, alpha@, i));
            }
        }
    }
    t
}

/// The coefficients of `t`, interpolated from its values on the coset.
pub open spec fn quotient_coeffs(
    pk: ProverKey,
    wires: Seq<Seq<nat>>,
    z: Seq<nat>,
    pi: Seq<nat>,
    beta: nat,
    gamma: nat,
    alpha: nat,
) -> Seq<nat> {
    spec_ifft(pk.coset.spec_size(), pk.coset.spec_offset(), quotient_values(pk, wires, z, pi, beta, gamma, alpha))
}

/// Every coefficient of degree `3n + 6` or more is zero.
pub open spec fn tail_is_zero(coeffs: Seq<nat>, n: nat) -> bool {
    forall|i: int| 3 * n + 6 <= i < coeffs.len() ==> #[trigger] coeffs[i] == 0
}

/// Whether every coefficient of degree `3n + 6` or more is zero.
fn tail_zero(coeffs: &Vec<Scalar>, n: usize) -> (r: bool)
    requires
        4 * n <= usize::MAX / 2 + 1,
    ensures
        r == tail_is_zero(vals(coeffs@), n as nat),
{
    let m = coeffs.len();
    let mut i = 3 * n + 6;
    while i < m
        invariant
            m == coeffs@.len(),
            4 * n <= usize::MAX / 2 + 1,
            3 * n + 6 <= i,
            forall|j: int| 3 * n + 6 <= j < i && j < m ==> (#[trigger] coeffs@[j])@ == 0,
        decreases m - i,
    {
        if !coeffs[i].is_zero() {
            proof {
                assert(vals(coeffs@)[i as int] != 0);
            }
            return false;
        }
        i = i + 1;
    }
    proof {
        assert forall|j: int| 3 * n + 6 <= j < vals(coeffs@).len() implies #[trigger] vals(coeffs@)[j] == 0 by {
            assert(coeffs@[j]@ == 0);
        }
    }
    true
}

/// `t` cut into `t_lo, t_mid, t_hi` at `n` and `2n`, blinded against each
/// other with `b10, b11`: `b10 X^n` is added to `t_lo` and `b10` taken from
/// `t_mid`, and likewise `b11` between `t_mid` and `t_hi`.
pub open spec fn quotient_pieces(coeffs: Seq<nat>, n: nat, b10: nat, b11: nat) -> Seq<Seq<nat>> {
    let n = n as int;
    let lo = coeffs.subrange(0, n).push(b10);
    let mid0 = coeffs.subrange(n, 2 * n);
    let mid = mid0.update(0, fsub(mid0[0], b10)).push(b11);
    let hi0 = coeffs.subrange(2 * n, 3 * n + 6);
    let hi = hi0.update(0, fsub(hi0[0], b11));
    seq![trim(lo), trim(mid), trim(hi)]
}

/// The integer value at `x` of the pieces of `t`, before reduction.
proof fn lemma_pieces_horner(coeffs: Seq<nat>, n: nat, b10: nat, b11: nat, x: int)
    requires
        n >= 1,
        coeffs.len() >= 3 * n + 6,
        tail_is_zero(coeffs, n),
    ensures
        ({
            let (lo, mid, hi) = pieces_raw(coeffs, n, b10, b11);
            let p = pow(x, n);
            let m = modulus() as int;
            let hc = horner(coeffs_of(coeffs), coeffs.len(), x);
            (horner(coeffs_of(lo), lo.len(), x) + p * horner(coeffs_of(mid), mid.len(), x) + p * p * horner(
                coeffs_of(hi),
                hi.len(),
                x,
            )) % m == hc % m
        }),
{
    let m = modulus() as int;
    crate::field::lemma_modulus_pos();
    let ni = n as int;
    let c = coeffs;
    let f = coeffs_of(c);
    let (a, b, cc) = (c.subrange(0, ni), c.subrange(ni, 2 * ni), c.subrange(2 * ni, 3 * ni + 6));
    let (lo, mid, hi) = pieces_raw(coeffs, n, b10, b11);
    let mid1 = b.update(0, fsub(b[0], b10));
    let p = pow(x, n);
    // t = A + x^n B + x^2n C
    lemma_horner_zeros(f, 3 * n + 6, c.len(), x);
    let g = |i: int| f(i + ni);
    let h = |i: int| g(i + ni);
    lemma_horner_split(f, n, (2 * n + 6) as nat, x);
    lemma_horner_split(g, n, (n + 6) as nat, x);
    lemma_horner_ext(f, coeffs_of(a), n, x);
    lemma_horner_ext(g, coeffs_of(b), n, x);
    lemma_horner_ext(h, coeffs_of(cc), (n + 6) as nat, x);
    let (ha, hb, hcc) = (horner(coeffs_of(a), n, x), horner(coeffs_of(b), n, x), horner(coeffs_of(cc), (n + 6) as nat, x));
    assert(horner(f, c.len(), x) == ha + p * (hb + p * hcc));
    // lo = A + b10 x^n
    lemma_horner_split(coeffs_of(lo), n, 1, x);
    lemma_horner_ext(coeffs_of(lo), coeffs_of(a), n, x);
    assert(horner(|i: int| coeffs_of(lo)(i + ni), 1, x) == b10) by {
        reveal_with_fuel(horner, 2);
        assert(0 * x == 0) by (nonlinear_arith);
        assert(coeff(lo, ni) == b10);
    }
    // mid = B - b10 + b11 x^n
    lemma_horner_split(coeffs_of(mid), n, 1, x);
    lemma_horner_ext(coeffs_of(mid), coeffs_of(mid1), n, x);
    assert(horner(|i: int| coeffs_of(mid)(i + ni), 1, x) == b11) by {
        reveal_with_fuel(horner, 2);
        assert(0 * x == 0) by (nonlinear_arith);
        assert(coeff(mid, ni) == b11);
    }
    lemma_horner_first(coeffs_of(mid1), coeffs_of(b), n, x);
    // hi = C - b11
    lemma_horner_first(coeffs_of(hi), coeffs_of(cc), (n + 6) as nat, x);
    let sb = fsub(b[0], b10) as int;
    let sc = fsub(cc[0], b11) as int;
    let hmid1 = horner(coeffs_of(mid1), n, x);
    let hhi = horner(coeffs_of(hi), hi.len(), x);
    assert(hmid1 == hb - b[0] + sb);
    assert(hhi == hcc - cc[0] + sc);
    vstd::arithmetic::div_mod::lemma_mod_twice(b[0] - b10, m);
    vstd::arithmetic::div_mod::lemma_mod_twice(cc[0] - b11, m);
    // the blinding cancels: reduce sb and sc to their integer differences
    let lhs = (ha + p * b10) + p * (hmid1 + p * b11) + p * p * hhi;
    let exact = (ha + p * b10) + p * ((hb - b[0] + (b[0] - b10)) + p * b11) + p * p * (hcc - cc[0] + (cc[0] - b11));
    assert(lhs - exact == p * (sb - (b[0] - b10)) + p * p * (sc - (cc[0] - b11))) by (nonlinear_arith)
        requires
            lhs == (ha + p * b10) + p * (hmid1 + p * b11) + p * p * hhi,
            exact == (ha + p * b10) + p * ((hb - b[0] + (b[0] - b10)) + p * b11) + p * p * (hcc - cc[0] + (cc[0] - b11)),
            hmid1 == hb - b[0] + sb,
            hhi == hcc - cc[0] + sc;
    assert(exact == ha + p * (hb + p * hcc)) by (nonlinear_arith)
        requires
            exact == (ha + p * b10) + p * ((hb - b[0] + (b[0] - b10)) + p * b11) + p * p * (hcc - cc[0] + (cc[0] - b11));
    lemma_cong_mul(sb, b[0] - b10, p);
    lemma_cong_mul(sc, cc[0] - b11, p * p);
    assert(sb * p == p * sb && (b[0] - b10) * p == p * (b[0] - b10)) by (nonlinear_arith);
    assert(sc * (p * p) == p * p * sc && (cc[0] - b11) * (p * p) == p * p * (cc[0] - b11)) by (nonlinear_arith);
    assert(p * (sb - (b[0] - b10)) == p * sb - p * (b[0] - b10)) by (nonlinear_arith);
    assert(p * p * (sc - (cc[0] - b11)) == p * p * sc - p * p * (cc[0] - b11)) by (nonlinear_arith);
    vstd::arithmetic::div_mod::lemma_sub_mod_noop(p * sb, p * (b[0] - b10), m);
    vstd::arithmetic::div_mod::lemma_sub_mod_noop(p * p * sc, p * p * (cc[0] - b11), m);
    lemma_cong_add(p * sb - p * (b[0] - b10), 0, p * p * sc - p * p * (cc[0] - b11), 0);
    lemma_cong_add(exact, exact, lhs - exact, 0);
}

/// The three pieces of `t` before trailing zeros are trimmed.
pub open spec fn pieces_raw(coeffs: Seq<nat>, n: nat, b10: nat, b11: nat) -> (Seq<nat>, Seq<nat>, Seq<nat>) {
    let n = n as int;
    let lo = coeffs.subrange(0, n).push(b10);
    let mid0 = coeffs.subrange(n, 2 * n);
    let mid = mid0.update(0, fsub(mid0[0], b10)).push(b11);
    let hi0 = coeffs.subrange(2 * n, 3 * n + 6);
    let hi = hi0.update(0, fsub(hi0[0], b11));
    (lo, mid, hi)
}

/// Blinding the pieces against each other leaves `t` whole: at every point
/// `x`, `t_lo(x) + x^n t_mid(x) + x^2n t_hi(x) = t(x)`, whatever `b10` and
/// `b11` are, when `t` has no coefficient of degree `3n + 6` or more.
pub proof fn lemma_quotient_pieces_reassemble(coeffs: Seq<nat>, n: nat, b10: nat, b11: nat, x: nat)
    requires
        n >= 1,
        coeffs.len() >= 3 * n + 6,
        tail_is_zero(coeffs, n),
    ensures
        ({
            let t = quotient_pieces(coeffs, n, b10, b11);
            poly_eval(coeffs, x) == fadd(
                fadd(poly_eval(t[0], x), fmul(fpow(x, n), poly_eval(t[1], x))),
                fmul(fpow(x, 2 * n), poly_eval(t[2], x)),
            )
        }),
{
    let m = modulus() as int;
    crate::field::lemma_modulus_pos();
    let xi = x as int;
    let (lo, mid, hi) = pieces_raw(coeffs, n, b10, b11);
    let t = quotient_pieces(coeffs, n, b10, b11);
    assert(t[0] == trim(lo) && t[1] == trim(mid) && t[2] == trim(hi));
    lemma_pieces_horner(coeffs, n, b10, b11, xi);
    let p = pow(xi, n);
    let (hlo, hmid, hhi) = (
        horner(coeffs_of(lo), lo.len(), xi),
        horner(coeffs_of(mid), mid.len(), xi),
        horner(coeffs_of(hi), hi.len(), xi),
    );
    let (elo, emid, ehi) = (poly_eval(t[0], x) as int, poly_eval(t[1], x) as int, poly_eval(t[2], x) as int);
    lemma_eval_cong(lo, x);
    lemma_eval_cong(mid, x);
    lemma_eval_cong(hi, x);
    lemma_pow_mod(x, n);
    lemma_pow_mod(x, 2 * n);
    vstd::arithmetic::power::lemma_pow_adds(xi, n, n);
    assert(n + n == 2 * n);
    vstd::arithmetic::div_mod::lemma_mod_twice(p, m);
    vstd::arithmetic::div_mod::lemma_mod_twice(p * p, m);
    let (fx, f2x) = (fpow(x, n) as int, fpow(x, 2 * n) as int);
    // each product is congruent to its integer counterpart
    lemma_cong_mul2(fx, p, emid, hmid);
    lemma_cong_mul2(f2x, p * p, ehi, hhi);
    let pm = fmul(fpow(x, n), poly_eval(t[1], x)) as int;
    let ph = fmul(fpow(x, 2 * n), poly_eval(t[2], x)) as int;
    vstd::arithmetic::div_mod::lemma_mod_twice(fx * emid, m);
    vstd::arithmetic::div_mod::lemma_mod_twice(f2x * ehi, m);
    lemma_cong_add(elo, hlo, pm, p * hmid);
    let s1 = fadd(poly_eval(t[0], x), fmul(fpow(x, n), poly_eval(t[1], x))) as int;
    vstd::arithmetic::div_mod::lemma_mod_twice(elo + pm, m);
    lemma_cong_add(s1, hlo + p * hmid, ph, p * p * hhi);
    let r = fadd(
        fadd(poly_eval(t[0], x), fmul(fpow(x, n), poly_eval(t[1], x))),
        fmul(fpow(x, 2 * n), poly_eval(t[2], x)),
    );
    vstd::arithmetic::div_mod::lemma_mod_twice(s1 + ph, m);
    // both sides are reduced and congruent to t's integer value
    lemma_eval_horner(coeffs, x);
    lemma_eval_reduced(coeffs, x);
    vstd::arithmetic::div_mod::lemma_mod_bound(s1 + ph, m);
    vstd::arithmetic::div_mod::lemma_small_mod(poly_eval(coeffs, x), modulus());
    vstd::arithmetic::div_mod::lemma_small_mod(r, modulus());
    vstd::arithmetic::div_mod::lemma_mod_twice(horner(coeffs_of(coeffs), coeffs.len(), xi), m);
}

/// Cut `t` into three pieces, blinded with `b10, b11`.
fn split_quotient(coeffs: &Vec<Scalar>, n: usize, b10: &Scalar, b11: &Scalar) -> (r: [Poly; 3])
    requires
        n >= 1,
        4 * n <= usize::MAX / 2 + 1,
        coeffs@.len() >= 3 * n + 6,
    ensures
        seq![r[0]@, r[1]@, r[2]@] == quotient_pieces(vals(coeffs@), n as nat, b10@, b11@),
{
    let mut lo = crate::field::copy_range(coeffs.as_slice(), 0, n);
    let mut mid = crate::field::copy_range(coeffs.as_slice(), n, 2 * n);
    let mut hi = crate::field::copy_range(coeffs.as_slice(), 2 * n, 3 * n + 6);
    lo.push(*b10);
    let m0 = mid[0].minus(b10);
    mid.set(0, m0);
    mid.push(*b11);
    let h0 = hi[0].minus(b11);
    hi.set(0, h0);
    proof {
        let c = vals(coeffs@);
        assert(vals(lo@) =~= c.subrange(0, n as int).push(b10@));
        let mid0 = c.subrange(n as int, 2 * n);
        assert(vals(mid@) =~= mid0.update(0, fsub(mid0[0], b10@)).push(b11@));
        let hi0 = c.subrange(2 * n, 3 * n + 6);
        assert(vals(hi@) =~= hi0.update(0, fsub(hi0[0], b11@)));
    }
    [Poly::from_coefficients_vec(lo), Poly::from_coefficients_vec(mid), Poly::from_coefficients_vec(hi)]
}

/// `(t_lo + X^n t_mid + X^2n t_hi) Z_H` equals the constraint expression
/// at every point of the quotient coset.
#[verifier::opaque]
pub open spec fn identity_on_coset(
    pk: ProverKey,
    wires: Seq<Seq<nat>>,
    z: Seq<nat>,
    pi: Seq<nat>,
    beta: nat,
    gamma: nat,
    alpha: nat,
    t: Seq<Seq<nat>>,
) -> bool {
    forall|k: int|
        0 <= k < pk.coset.spec_size() ==> fmul(
            pieces_at(t, pk.domain.spec_size(), #[trigger] pk.coset.spec_element(k as nat)),
            z_h_at(pk.coset.spec_element(k as nat), pk.domain.spec_size()),
        ) == numerator_at(pk, wires, z, pi, beta, gamma, alpha, pk.coset.spec_element(k as nat))
}

/// When the tail of `t` is zero, its blinded pieces reassembled and
/// multiplied by `Z_H` give the constraint expression at every coset point.
#[verifier::rlimit(100)]
#[verifier::spinoff_prover]
proof fn lemma_pieces_times_vanishing(
    pk: ProverKey,
    wires: &[Poly; 3],
    z: &Poly,
    pi: &Poly,
    beta: nat,
    gamma: nat,
    alpha: nat,
    evals: Seq<Scalar>,
    coeffs: Seq<nat>,
    t: Seq<Seq<nat>>,
    b10: nat,
    b11: nat,
)
    requires
        pk_shapes(pk),
        evals.len() == pk.coset.spec_size(),
        coeffs.len() == pk.coset.spec_size(),
        tail_is_zero(coeffs, pk.domain.spec_size()),
        t == quotient_pieces(coeffs, pk.domain.spec_size(), b10, b11),
        forall|k: int| 0 <= k < pk.coset.spec_size() ==> #[trigger] poly_eval(coeffs, pk.coset.spec_element(k as nat))
            == vals(evals)[k],
        fits_coset(pk, wires, z, pi) ==> forall|i: int|
            0 <= i < pk.coset.spec_size() ==> fmul(
                #[trigger] vals(evals)[i],
                z_h_at(pk.coset.spec_element(i as nat), pk.domain.spec_size()),
            ) == numerator_at(
                pk,
                seq![wires[0]@, wires[1]@, wires[2]@],
                z@,
                pi@,
                beta,
                gamma,
                alpha,
                pk.coset.spec_element(i as nat),
            ),
    ensures
        fits_coset(pk, wires, z, pi) ==> identity_on_coset(
            pk,
            seq![wires[0]@, wires[1]@, wires[2]@],
            z@,
            pi@,
            beta,
            gamma,
            alpha,
            t,
        ),
{
    reveal(identity_on_coset);
    let n = pk.domain.spec_size();
    if fits_coset(pk, wires, z, pi) {
        assert forall|k: int| 0 <= k < pk.coset.spec_size() implies fmul(
            pieces_at(t, n, #[trigger] pk.coset.spec_element(k as nat)),
            z_h_at(pk.coset.spec_element(k as nat), n),
        ) == numerator_at(
            pk,
            seq![wires[0]@, wires[1]@, wires[2]@],
            z@,
            pi@,
            beta,
            gamma,
            alpha,
            pk.coset.spec_element(k as nat),
        ) by {
            let x = pk.coset.spec_element(k as nat);
            lemma_quotient_pieces_reassemble(coeffs, n, b10, b11, x);
            assert(poly_eval(coeffs, x) == vals(evals)[k]);
        }
    }
}

/// Round 3, with the blinding scalars given: the quotient `t(X)`, split
/// into three pieces, or `Unsatisfied` when it has coefficients past degree
/// `3n + 5` (see [`quotient`]).
pub fn quotient_with(
    pk: &ProverKey,
    wires: &[Poly; 3],
    z: &Poly,
    pi: &Poly,
    beta: &Scalar,
    gamma: &Scalar,
    alpha: &Scalar,
    b10: &Scalar,
    b11: &Scalar,
) -> (r: Result<[Poly; 3], ProveError>)
    requires
        pk_shapes(*pk),
    ensures
        ({
            let coeffs = quotient_coeffs(*pk, seq![wires[0]@, wires[1]@, wires[2]@], z@, pi@, beta@, gamma@, alpha@);
            &&& coeffs.len() == pk.coset.spec_size()
            &&& forall|k: int|
                0 <= k < pk.coset.spec_size() ==> #[trigger] poly_eval(coeffs, pk.coset.spec_element(k as nat))
                    == quotient_values(*pk, seq![wires[0]@, wires[1]@, wires[2]@], z@, pi@, beta@, gamma@, alpha@)[k]
            &&& (r is Err <==> !tail_is_zero(coeffs, pk.domain.spec_size()))
            &&& (r matches Err(e) ==> e == ProveError::Unsatisfied)
            &&& (r matches Ok(t) ==> seq![t[0]@, t[1]@, t[2]@] == quotient_pieces(coeffs, pk.domain.spec_size(), b10@, b11@))
            &&& (fits_coset(*pk, wires, z, pi) ==> (r matches Ok(t) ==> identity_on_coset(
                *pk,
                seq![wires[0]@, wires[1]@, wires[2]@],
                z@,
                pi@,
                beta@,
                gamma@,
                alpha@,
                seq![t[0]@, t[1]@, t[2]@],
            )))
        }),
{
    let n = pk.domain.size();
    pk.coset.lemma_wf();
    let t = quotient_evals(pk, wires, z, pi, beta, gamma, alpha);
    let coeffs = pk.coset.ifft(t.as_slice());
    let ghost qc = quotient_coeffs(*pk, seq![wires[0]@, wires[1]@, wires[2]@], z@, pi@, beta@, gamma@, alpha@);
    proof {
        assert(vals(coeffs@) == qc);
        let qv = quotient_values(*pk, seq![wires[0]@, wires[1]@, wires[2]@], z@, pi@, beta@, gamma@, alpha@);
        assert(vals(t@).len() == t@.len());
        assert forall|k: int| 0 <= k < pk.coset.spec_size() implies #[trigger] poly_eval(qc, pk.coset.spec_element(k as nat))
            == qv[k] by {
            assert(coeff(vals(t@), k) == vals(t@)[k]);
        }
    }
    if !tail_zero(&coeffs, n) {
        return Err(ProveError::Unsatisfied);
    }
    let r = split_quotient(&coeffs, n, b10, b11);
    proof {
        lemma_pieces_times_vanishing(*pk, wires, z, pi, beta@, gamma@, alpha@, t@, qc, seq![r[0]@, r[1]@, r[2]@], b10@, b11@);
    }
    Ok(r)
}

/// Round 3: the quotient `t(X)`, split into three pieces of degree < n.
///
/// ```text
/// t * Z_H = gate(X) + PI(X)
///         + alpha   * (f(X) z(X) - g(X) z(X omega))
///         + alpha^2 * (z(X) - 1) L_1(X)
/// ```
///
/// Everything is evaluated on a coset of a domain of size 4n, multiplied
/// pointwise and divided by `Z_H` there (which never vanishes off `H`), then
/// interpolated back. With the blinding, `f z` has degree 4n+5 so `t` has
/// degree 3n+5; 4n points pin it down as long as n >= 8. The last chunk
/// therefore has degree up to n+5, not n-1.
///
/// The chunks are then blinded against each other: `b X^n` added to one and
/// `b` subtracted from the next leaves `t_lo + X^n t_mid + X^2n t_hi`
/// unchanged, but the individual commitments no longer determine `t`'s
/// coefficients.
///
/// When the pieces are returned, `(t_lo + X^n t_mid + X^2n t_hi) Z_H` equals
/// the right-hand side above at every point of the size-4n coset
/// ([`identity_on_coset`]), provided the wires, `z` and `PI` have at most 4n
/// coefficients.
pub fn quotient<R: RngCore>(
    pk: &ProverKey,
    wires: &[Poly; 3],
    z: &Poly,
    pi: &Poly,
    beta: &Scalar,
    gamma: &Scalar,
    alpha: &Scalar,
    rng: &mut R,
) -> (r: Result<[Poly; 3], ProveError>)
    requires
        pk_shapes(*pk),
    ensures
        ({
            let coeffs = quotient_coeffs(*pk, seq![wires[0]@, wires[1]@, wires[2]@], z@, pi@, beta@, gamma@, alpha@);
            &&& (r is Err <==> !tail_is_zero(coeffs, pk.domain.spec_size()))
            &&& (r matches Err(e) ==> e == ProveError::Unsatisfied)
            &&& (r matches Ok(t) ==> exists|b10: nat, b11: nat| #[trigger] quotient_pieces(coeffs, pk.domain.spec_size(), b10, b11)
                == seq![t[0]@, t[1]@, t[2]@])
            &&& (fits_coset(*pk, wires, z, pi) ==> (r matches Ok(t) ==> identity_on_coset(
                *pk,
                seq![wires[0]@, wires[1]@, wires[2]@],
                z@,
                pi@,
                beta@,
                gamma@,
                alpha@,
                seq![t[0]@, t[1]@, t[2]@],
            )))
        }),
{
    let n = pk.domain.size();
    pk.coset.lemma_wf();
    let t = quotient_evals(pk, wires, z, pi, beta, gamma, alpha);
    let coeffs = pk.coset.ifft(t.as_slice());
    let ghost qc = quotient_coeffs(*pk, seq![wires[0]@, wires[1]@, wires[2]@], z@, pi@, beta@, gamma@, alpha@);
    proof {
        assert(vals(coeffs@) == qc);
    }
    // If the constraints hold the numerator is divisible by Z_H and t has
    // degree at most 3n+5. If they don't, the pointwise division gives some
    // other polynomial of degree < 4n, which usually shows up as nonzero high
    // coefficients. Not always though: on the coset 1/Z_H is
    // (1 + X^n + X^2n + X^3n)/(g^4n - 1), so a remainder R of degree < 6
    // hides entirely under t's top coefficients. That's why `prove` checks
    // satisfiability up front; this is just a backstop.
    if !tail_zero(&coeffs, n) {
        return Err(ProveError::Unsatisfied);
    }
    let b10 = Scalar::random(rng);
    let b11 = Scalar::random(rng);
    let r = split_quotient(&coeffs, n, &b10, &b11);
    proof {
        assert(quotient_pieces(vals(coeffs@), n as nat, b10@, b11@) == seq![r[0]@, r[1]@, r[2]@]);
        let qv = quotient_values(*pk, seq![wires[0]@, wires[1]@, wires[2]@], z@, pi@, beta@, gamma@, alpha@);
        assert forall|k: int| 0 <= k < pk.coset.spec_size() implies #[trigger] poly_eval(qc, pk.coset.spec_element(k as nat))
            == qv[k] by {
            assert(coeff(vals(t@), k) == vals(t@)[k]);
        }
        lemma_pieces_times_vanishing(*pk, wires, z, pi, beta@, gamma@, alpha@, t@, qc, seq![r[0]@, r[1]@, r[2]@], b10@, b11@);
    }
    Ok(r)
}

/// The constant polynomial `k`.
pub open spec fn konst(k: nat) -> Seq<nat> {
    trim(seq![k])
}

/// The linearisation polynomial for the evaluations
/// `e = [a, b, c, S_sigma1, S_sigma2, z_omega]` at `zeta`:
///
/// ```text
/// r = gate + alpha perm + alpha^2 start - (t_lo + zeta^n t_mid + zeta^2n t_hi) Z_H(zeta)
/// ```
///
/// with `gate = ab q_M + a q_L + b q_R + c q_O + q_C + PI(zeta)`,
/// `perm = f z - (g_partial (c + beta S_sigma3 + gamma)) z_omega` and
/// `start = (z - 1) L_1(zeta)`.
#[verifier::opaque]
pub open spec fn linearisation_spec(
    pk: ProverKey,
    z: Seq<nat>,
    t: Seq<Seq<nat>>,
    e: Seq<nat>,
    pi_z: nat,
    beta: nat,
    gamma: nat,
    alpha: nat,
    zeta: nat,
) -> Seq<nat> {
    let n = pk.domain.spec_size();
    let zeta_n = fpow(zeta, n);
    let z_h = fsub(zeta_n, 1);
    let l1 = spec_l0(n, zeta);
    let gate = poly_add(
        poly_add(
            poly_add(
                poly_add(poly_scale(pk.selectors[3].poly@, fmul(e[0], e[1])), poly_scale(pk.selectors[0].poly@, e[0])),
                poly_scale(pk.selectors[1].poly@, e[1]),
            ),
            poly_scale(pk.selectors[2].poly@, e[2]),
        ),
        poly_add(pk.selectors[4].poly@, konst(pi_z)),
    );
    let f = perm_f_vals(e, beta, gamma, zeta, pk.k1@, pk.k2@);
    let gp = perm_g_partial_vals(e, beta, gamma);
    let g = poly_add(poly_scale(pk.s_sigma[2].poly@, fmul(gp, beta)), konst(fmul(gp, fadd(e[2], gamma))));
    let perm = poly_sub(poly_scale(z, f), poly_scale(g, e[5]));
    let start = poly_scale(poly_sub(z, konst(1)), l1);
    let quot = poly_add(poly_add(t[0], poly_scale(t[1], zeta_n)), poly_scale(t[2], fmul(zeta_n, zeta_n)));
    poly_sub(poly_add(poly_add(gate, poly_scale(perm, alpha)), poly_scale(start, fmul(alpha, alpha))), poly_scale(quot, z_h))
}

/// The constant polynomial `k` takes the value `k` (reduced) everywhere.
proof fn lemma_eval_konst(k: nat, x: nat)
    ensures
        poly_eval(konst(k), x) == k % modulus(),
{
    crate::evaluation::lemma_eval_trim(seq![k], x);
    assert(seq![k].drop_first() =~= Seq::<nat>::empty());
    assert(poly_eval(Seq::<nat>::empty(), x) == 0);
    assert(0 * x == 0) by (nonlinear_arith);
}

/// Congruent factors give congruent products.
pub(crate) proof fn lemma_fmul_cong(x: nat, y: nat, xx: int, yy: int)
    requires
        x as int % (modulus() as int) == xx % (modulus() as int),
        y as int % (modulus() as int) == yy % (modulus() as int),
    ensures
        fmul(x, y) as int % (modulus() as int) == (xx * yy) % (modulus() as int),
{
    let m = modulus() as int;
    crate::field::lemma_modulus_pos();
    vstd::arithmetic::div_mod::lemma_mod_twice((x * y) as int, m);
    vstd::arithmetic::div_mod::lemma_mul_mod_noop(x as int, y as int, m);
    vstd::arithmetic::div_mod::lemma_mul_mod_noop(xx, yy, m);
}

/// Congruent summands give congruent sums.
pub(crate) proof fn lemma_fadd_cong(x: nat, y: nat, xx: int, yy: int)
    requires
        x as int % (modulus() as int) == xx % (modulus() as int),
        y as int % (modulus() as int) == yy % (modulus() as int),
    ensures
        fadd(x, y) as int % (modulus() as int) == (xx + yy) % (modulus() as int),
{
    let m = modulus() as int;
    crate::field::lemma_modulus_pos();
    vstd::arithmetic::div_mod::lemma_mod_twice((x + y) as int, m);
    vstd::arithmetic::div_mod::lemma_add_mod_noop(x as int, y as int, m);
    vstd::arithmetic::div_mod::lemma_add_mod_noop(xx, yy, m);
}

/// Congruent operands give congruent differences.
pub(crate) proof fn lemma_fsub_cong(x: nat, y: nat, xx: int, yy: int)
    requires
        x as int % (modulus() as int) == xx % (modulus() as int),
        y as int % (modulus() as int) == yy % (modulus() as int),
    ensures
        fsub(x, y) as int % (modulus() as int) == (xx - yy) % (modulus() as int),
{
    let m = modulus() as int;
    crate::field::lemma_modulus_pos();
    vstd::arithmetic::div_mod::lemma_mod_twice(x as int - y as int, m);
    vstd::arithmetic::div_mod::lemma_sub_mod_noop(x as int, y as int, m);
    vstd::arithmetic::div_mod::lemma_sub_mod_noop(xx, yy, m);
}

/// Congruent operands give congruent negations.
pub(crate) proof fn lemma_fneg_cong(x: nat, xx: int)
    requires
        x as int % (modulus() as int) == xx % (modulus() as int),
    ensures
        fneg(x) as int % (modulus() as int) == (0 - xx) % (modulus() as int),
{
    let m = modulus() as int;
    crate::field::lemma_modulus_pos();
    vstd::arithmetic::div_mod::lemma_mod_twice(0 - x as int, m);
    vstd::arithmetic::div_mod::lemma_sub_mod_noop(0, x as int, m);
    vstd::arithmetic::div_mod::lemma_sub_mod_noop(0, xx, m);
}

/// `s gp beta + gp (c + gamma) = gp (c + beta s + gamma)` in the field.
#[verifier::rlimit(100)]
#[verifier::spinoff_prover]
proof fn lemma_permuted_factor(gp: nat, beta: nat, gamma: nat, c: nat, s: nat)
    ensures
        fadd(fmul(s, fmul(gp, beta)), fmul(gp, fadd(c, gamma))) == fmul(gp, perm_term(c, beta, s, gamma)),
{
    let m = modulus() as int;
    crate::field::lemma_modulus_pos();
    let (gi, bi, ci, gmi, si) = (gp as int, beta as int, c as int, gamma as int, s as int);
    vstd::arithmetic::div_mod::lemma_mod_twice(gi, m);
    vstd::arithmetic::div_mod::lemma_mod_twice(bi, m);
    vstd::arithmetic::div_mod::lemma_mod_twice(ci, m);
    vstd::arithmetic::div_mod::lemma_mod_twice(gmi, m);
    vstd::arithmetic::div_mod::lemma_mod_twice(si, m);
    lemma_fmul_cong(gp, beta, gi, bi);
    lemma_fmul_cong(s, fmul(gp, beta), si, gi * bi);
    lemma_fadd_cong(c, gamma, ci, gmi);
    lemma_fmul_cong(gp, fadd(c, gamma), gi, ci + gmi);
    lemma_fadd_cong(fmul(s, fmul(gp, beta)), fmul(gp, fadd(c, gamma)), si * (gi * bi), gi * (ci + gmi));
    lemma_fmul_cong(beta, s, bi, si);
    lemma_fadd_cong(c, fmul(beta, s), ci, bi * si);
    lemma_fadd_cong(fadd(c, fmul(beta, s)), gamma, ci + bi * si, gmi);
    lemma_fmul_cong(gp, perm_term(c, beta, s, gamma), gi, ci + bi * si + gmi);
    assert(si * (gi * bi) + gi * (ci + gmi) == gi * (ci + bi * si + gmi)) by (nonlinear_arith);
    let (l, r) = (
        fadd(fmul(s, fmul(gp, beta)), fmul(gp, fadd(c, gamma))),
        fmul(gp, perm_term(c, beta, s, gamma)),
    );
    vstd::arithmetic::div_mod::lemma_mod_bound((fmul(s, fmul(gp, beta)) + fmul(gp, fadd(c, gamma))) as int, m);
    vstd::arithmetic::div_mod::lemma_mod_bound((gp * perm_term(c, beta, s, gamma)) as int, m);
    vstd::arithmetic::div_mod::lemma_small_mod(l, modulus());
    vstd::arithmetic::div_mod::lemma_small_mod(r, modulus());
}

/// The constraint's gate term, reordered, is the circuit's gate equation.
#[verifier::rlimit(100)]
#[verifier::spinoff_prover]
proof fn lemma_gate_reorder(ql: nat, qr: nat, qo: nat, qm: nat, qc: nat, a: nat, b: nat, c: nat, pi: nat)
    ensures
        fadd(fadd(fadd(fadd(fmul(qm, fmul(a, b)), fmul(ql, a)), fmul(qr, b)), fmul(qo, c)), fadd(qc, pi)) == fadd(
            fadd(fadd(fadd(fadd(fmul(ql, a), fmul(qr, b)), fmul(qo, c)), fmul(fmul(qm, a), b)), qc),
            pi,
        ),
{
    let m = modulus() as int;
    crate::field::lemma_modulus_pos();
    let (li, ri, oi, mi, ci, ai, bi, cc, pii) = (ql as int, qr as int, qo as int, qm as int, qc as int, a as int, b as int, c as int, pi as int);
    // left side
    lemma_fmul_cong(a, b, ai, bi);
    lemma_fmul_cong(qm, fmul(a, b), mi, ai * bi);
    lemma_fmul_cong(ql, a, li, ai);
    lemma_fmul_cong(qr, b, ri, bi);
    lemma_fmul_cong(qo, c, oi, cc);
    let l1 = fadd(fmul(qm, fmul(a, b)), fmul(ql, a));
    lemma_fadd_cong(fmul(qm, fmul(a, b)), fmul(ql, a), mi * (ai * bi), li * ai);
    let l2 = fadd(l1, fmul(qr, b));
    lemma_fadd_cong(l1, fmul(qr, b), mi * (ai * bi) + li * ai, ri * bi);
    let l3 = fadd(l2, fmul(qo, c));
    lemma_fadd_cong(l2, fmul(qo, c), mi * (ai * bi) + li * ai + ri * bi, oi * cc);
    lemma_fadd_cong(qc, pi, ci, pii);
    let lhs = fadd(l3, fadd(qc, pi));
    lemma_fadd_cong(l3, fadd(qc, pi), mi * (ai * bi) + li * ai + ri * bi + oi * cc, ci + pii);
    // right side
    let r1 = fadd(fmul(ql, a), fmul(qr, b));
    lemma_fadd_cong(fmul(ql, a), fmul(qr, b), li * ai, ri * bi);
    let r2 = fadd(r1, fmul(qo, c));
    lemma_fadd_cong(r1, fmul(qo, c), li * ai + ri * bi, oi * cc);
    lemma_fmul_cong(qm, a, mi, ai);
    lemma_fmul_cong(fmul(qm, a), b, mi * ai, bi);
    let r3 = fadd(r2, fmul(fmul(qm, a), b));
    lemma_fadd_cong(r2, fmul(fmul(qm, a), b), li * ai + ri * bi + oi * cc, (mi * ai) * bi);
    let r4 = fadd(r3, qc);
    lemma_fadd_cong(r3, qc, li * ai + ri * bi + oi * cc + (mi * ai) * bi, ci);
    let rhs = fadd(r4, pi);
    lemma_fadd_cong(r4, pi, li * ai + ri * bi + oi * cc + (mi * ai) * bi + ci, pii);
    assert(mi * (ai * bi) + li * ai + ri * bi + oi * cc + (ci + pii) == li * ai + ri * bi + oi * cc + (mi * ai) * bi + ci
        + pii) by (nonlinear_arith);
    vstd::arithmetic::div_mod::lemma_mod_bound((l3 + fadd(qc, pi)) as int, m);
    vstd::arithmetic::div_mod::lemma_mod_bound((r4 + pi) as int, m);
    vstd::arithmetic::div_mod::lemma_small_mod(lhs, modulus());
    vstd::arithmetic::div_mod::lemma_small_mod(rhs, modulus());
}

/// One step of the grand product cancels: with `den inv = 1`,
/// `z num - den (z num inv) = 0`.
proof fn lemma_perm_step_zero(z: nat, num: nat, den: nat, inv: nat)
    requires
        fmul(den, inv) == 1,
    ensures
        fsub(fmul(z, num), fmul(den, fmul(z, fmul(num, inv)))) == 0,
{
    let m = modulus() as int;
    crate::field::lemma_modulus_pos();
    let (zi, ni, di, vi) = (z as int, num as int, den as int, inv as int);
    vstd::arithmetic::div_mod::lemma_mod_twice(zi, m);
    vstd::arithmetic::div_mod::lemma_mod_twice(ni, m);
    vstd::arithmetic::div_mod::lemma_mod_twice(di, m);
    vstd::arithmetic::div_mod::lemma_mod_twice(vi, m);
    lemma_fmul_cong(z, num, zi, ni);
    lemma_fmul_cong(num, inv, ni, vi);
    lemma_fmul_cong(z, fmul(num, inv), zi, ni * vi);
    lemma_fmul_cong(den, fmul(z, fmul(num, inv)), di, zi * (ni * vi));
    assert(di * (zi * (ni * vi)) == (zi * ni) * (di * vi)) by (nonlinear_arith);
    vstd::arithmetic::div_mod::lemma_mod_twice(di * vi, m);
    assert((di * vi) % m == 1);
    crate::evaluation::lemma_cong_mul(di * vi, 1, zi * ni);
    assert((di * vi) * (zi * ni) == (zi * ni) * (di * vi)) by (nonlinear_arith);
    let (x, y) = (fmul(z, num), fmul(den, fmul(z, fmul(num, inv))));
    assert(x as int % m == y as int % m);
    vstd::arithmetic::div_mod::lemma_sub_mod_noop(x as int, y as int, m);
    vstd::arithmetic::div_mod::lemma_mod_self_0(m);
    assert(((x as int % m) - (y as int % m)) == 0);
}

/// Row `i` of `H` is `omega^i`, and `omega` times it is row `i + 1`
/// (row `0` after the last).
proof fn lemma_row_point(pk: ProverKey, i: int)
    requires
        pk_shapes(pk),
        0 <= i < pk.domain.spec_size(),
    ensures
        pk.domain.spec_element(i as nat) == fpow(pk.domain.spec_group_gen(), i as nat),
        i + 1 < pk.domain.spec_size() ==> fmul(pk.domain.spec_element(i as nat), pk.domain.spec_group_gen())
            == pk.domain.spec_element((i + 1) as nat),
        i + 1 == pk.domain.spec_size() ==> fmul(pk.domain.spec_element(i as nat), pk.domain.spec_group_gen())
            == pk.domain.spec_element(0),
{
    crate::field::lemma_modulus_pos();
    let w = pk.domain.spec_group_gen();
    assert(pk.domain.spec_offset() == 1);
    crate::evaluation::lemma_fpow_reduced(w, i as nat);
    vstd::arithmetic::div_mod::lemma_small_mod(fpow(w, i as nat), modulus());
    assert(fpow(w, (i + 1) as nat) == fmul(fpow(w, i as nat), w));
    crate::evaluation::lemma_fpow_reduced(w, (i + 1) as nat);
    vstd::arithmetic::div_mod::lemma_small_mod(fpow(w, (i + 1) as nat), modulus());
    assert(fpow(w, 0) == 1);
    vstd::arithmetic::div_mod::lemma_small_mod(1, modulus());
}

/// The accumulator at row `i` and at the next row, from its values on `H`
/// and the product closing to one.
#[verifier::rlimit(100)]
#[verifier::spinoff_prover]
proof fn lemma_row_z(pk: ProverKey, ca: Seq<nat>, cb: Seq<nat>, cc: Seq<nat>, z: Seq<nat>, beta: nat, gamma: nat, i: int)
    requires
        pk_shapes(pk),
        0 <= i < pk.domain.spec_size(),
        acc_closes(pk, ca, cb, cc, beta, gamma),
        forall|r: int|
            0 <= r < pk.domain.spec_size() ==> #[trigger] poly_eval(z, pk.domain.spec_element(r as nat)) == acc_values(
                pk,
                ca,
                cb,
                cc,
                beta,
                gamma,
            )[r],
    ensures
        poly_eval(z, pk.domain.spec_element(i as nat)) == acc_prefix(pk, ca, cb, cc, beta, gamma, i as nat),
        poly_eval(z, fmul(pk.domain.spec_element(i as nat), pk.domain.spec_group_gen())) == acc_prefix(
            pk,
            ca,
            cb,
            cc,
            beta,
            gamma,
            (i + 1) as nat,
        ),
        acc_prefix(pk, ca, cb, cc, beta, gamma, 0) == 1,
{
    reveal(acc_values);
    reveal(acc_closes);
    lemma_row_point(pk, i);
    let n = pk.domain.spec_size();
    assert(poly_eval(z, pk.domain.spec_element(i as nat)) == acc_values(pk, ca, cb, cc, beta, gamma)[i]);
    if i + 1 < n {
        assert(poly_eval(z, pk.domain.spec_element((i + 1) as nat)) == acc_values(pk, ca, cb, cc, beta, gamma)[i + 1]);
    } else {
        assert(poly_eval(z, pk.domain.spec_element(0)) == acc_values(pk, ca, cb, cc, beta, gamma)[0]);
    }
}

/// The key's tables at row `i`: the identity labels `omega^i, k1 omega^i,
/// k2 omega^i`, the permutation polynomials' values, and `L_1`.
#[verifier::rlimit(100)]
#[verifier::spinoff_prover]
proof fn lemma_row_tables(pk: ProverKey, circuit: Circuit, srs: Srs, i: int)
    requires
        is_prover_key(pk, circuit, srs),
        0 <= i < pk.domain.spec_size(),
    ensures
        pk.id_labels@[i]@ == pk.domain.spec_element(i as nat),
        pk.id_labels@[pk.domain.spec_size() + i]@ == fmul(pk.k1@, pk.domain.spec_element(i as nat)),
        pk.id_labels@[2 * pk.domain.spec_size() + i]@ == fmul(pk.k2@, pk.domain.spec_element(i as nat)),
        forall|j: int|
            0 <= j < 3 ==> poly_eval(#[trigger] pk.s_sigma[j].poly@, pk.domain.spec_element(i as nat))
                == pk.s_sigma[j].on_h@[i]@,
        poly_eval(pk.l1.poly@, pk.domain.spec_element(i as nat)) == coeff(seq![1nat], i),
{
    crate::field::lemma_modulus_pos();
    let n = pk.domain.spec_size();
    let ni = n as int;
    let x = pk.domain.spec_element(i as nat);
    vstd::arithmetic::div_mod::lemma_fundamental_div_mod_converse(i, ni, 0, i);
    vstd::arithmetic::div_mod::lemma_fundamental_div_mod_converse(ni + i, ni, 1, i);
    vstd::arithmetic::div_mod::lemma_fundamental_div_mod_converse(2 * ni + i, ni, 2, i);
    assert(pk.id_labels@[i]@ == Permutation::spec_id_label(pk.domain, pk.k1@, pk.k2@, i));
    assert(pk.id_labels@[ni + i]@ == Permutation::spec_id_label(pk.domain, pk.k1@, pk.k2@, ni + i));
    assert(pk.id_labels@[2 * ni + i]@ == Permutation::spec_id_label(pk.domain, pk.k1@, pk.k2@, 2 * ni + i));
    vstd::arithmetic::div_mod::lemma_mod_bound((fpow(pk.domain.spec_group_gen(), i as nat) * pk.domain.spec_offset()) as int, modulus() as int);
    vstd::arithmetic::div_mod::lemma_small_mod(x, modulus());
    assert(fmul(1, x) == x);
    assert forall|j: int| 0 <= j < 3 implies poly_eval(#[trigger] pk.s_sigma[j].poly@, x) == pk.s_sigma[j].on_h@[i]@ by {
        assert(crate::preprocess::fixed_from(pk.s_sigma[j], pk.domain, pk.coset, pk.permutation.perm_column(pk.domain, pk.k1@, pk.k2@, j)));
        assert(vals(pk.s_sigma[j].on_h@)[i] == pk.s_sigma[j].on_h@[i]@);
    }
    assert(crate::preprocess::fixed_from(pk.l1, pk.domain, pk.coset, seq![1nat]));
}

/// The constraint expression at a row is zero when the row's gate is satisfied
/// there, the accumulator steps by `num / den` with `f = num`, `g = den`
/// and `den` invertible, and either `L_1` vanishes or `z` is one.
#[verifier::rlimit(100)]
#[verifier::spinoff_prover]
proof fn lemma_row_constraint_zero(
    a: nat,
    b: nat,
    c: nat,
    q: Seq<nat>,
    sg: Seq<nat>,
    piv: nat,
    zi: nat,
    zn: nat,
    l1v: nat,
    x: nat,
    k: (nat, nat),
    beta: nat,
    gamma: nat,
    alpha: nat,
)
    requires
        q.len() == 5,
        sg.len() == 3,
        fadd(fadd(fadd(fadd(fmul(q[3], fmul(a, b)), fmul(q[0], a)), fmul(q[1], b)), fmul(q[2], c)), fadd(q[4], piv)) == 0,
        fmul(fmul(perm_term(a, beta, sg[0], gamma), perm_term(b, beta, sg[1], gamma)), perm_term(c, beta, sg[2], gamma)) != 0,
        ({
            let den = fmul(fmul(perm_term(a, beta, sg[0], gamma), perm_term(b, beta, sg[1], gamma)), perm_term(c, beta, sg[2], gamma));
            let num = fmul(
                fmul(perm_term(a, beta, x, gamma), perm_term(b, beta, fmul(k.0, x), gamma)),
                perm_term(c, beta, fmul(k.1, x), gamma),
            );
            &&& fmul(den, finv(den)) == 1
            &&& zn == fmul(zi, fmul(num, finv(den)))
        }),
        l1v == 0 || zi == 1,
    ensures
        constraint_value(a, b, c, q, sg, piv, zi, zn, l1v, x, k, beta, gamma, alpha) == 0,
{
    let den = fmul(fmul(perm_term(a, beta, sg[0], gamma), perm_term(b, beta, sg[1], gamma)), perm_term(c, beta, sg[2], gamma));
    let num = fmul(
        fmul(perm_term(a, beta, x, gamma), perm_term(b, beta, fmul(k.0, x), gamma)),
        perm_term(c, beta, fmul(k.1, x), gamma),
    );
    reveal(constraint_value);
    lemma_perm_step_zero(zi, num, den, finv(den));
    let perm = fsub(fmul(zi, num), fmul(den, zn));
    assert(perm == 0);
    assert(fmul(perm, alpha) == 0);
    let start = fmul(fsub(zi, 1), l1v);
    if l1v != 0 {
        assert(fsub(1, 1) == 0);
        assert(0 * l1v == 0) by (nonlinear_arith);
        assert(fmul(0, l1v) == 0);
    } else {
        assert(fsub(zi, 1) * 0 == 0) by (nonlinear_arith);
        assert(fmul(fsub(zi, 1), 0) == 0);
    }
    assert(start == 0);
    assert(fmul(start, fmul(alpha, alpha)) == 0);
}

/// Every constraint holds on `H` for an honest witness: for a satisfied
/// circuit with its key, wires and accumulator taking the witness and its
/// running product on `H` (each permuted factor invertible), and `PI`
/// taking the public inputs, the constraint expression is zero at every
/// `omega^i`.
#[verifier::rlimit(100)]
#[verifier::spinoff_prover]
pub proof fn lemma_constraints_vanish_on_domain(
    pk: ProverKey,
    circuit: Circuit,
    srs: Srs,
    wires: Seq<Seq<nat>>,
    z: Seq<nat>,
    pi: Seq<nat>,
    beta: nat,
    gamma: nat,
    alpha: nat,
    i: int,
)
    requires
        is_prover_key(pk, circuit, srs),
        circuit.wf(),
        circuit.spec_is_satisfied(),
        0 <= i < pk.domain.spec_size(),
        wires.len() == 3,
        forall|j: int, r: int|
            0 <= j < 3 && 0 <= r < pk.domain.spec_size() ==> #[trigger] poly_eval(wires[j], pk.domain.spec_element(r as nat))
                == witness_column(circuit, pk.domain.spec_size(), j)[r],
        acc_closes(pk, witness_column(circuit, pk.domain.spec_size(), 0), witness_column(circuit, pk.domain.spec_size(), 1),
            witness_column(circuit, pk.domain.spec_size(), 2), beta, gamma),
        forall|r: int|
            0 <= r < pk.domain.spec_size() ==> invertible(
                #[trigger] acc_den(pk, witness_column(circuit, pk.domain.spec_size(), 0), witness_column(circuit, pk.domain.spec_size(), 1),
                    witness_column(circuit, pk.domain.spec_size(), 2), beta, gamma, r),
            ),
        forall|r: int|
            0 <= r < pk.domain.spec_size() ==> #[trigger] poly_eval(z, pk.domain.spec_element(r as nat)) == acc_values(
                pk,
                witness_column(circuit, pk.domain.spec_size(), 0),
                witness_column(circuit, pk.domain.spec_size(), 1),
                witness_column(circuit, pk.domain.spec_size(), 2),
                beta,
                gamma,
            )[r],
        forall|r: int|
            0 <= r < pk.domain.spec_size() ==> #[trigger] poly_eval(pi, pk.domain.spec_element(r as nat))
                == public_input_values(pk.domain.spec_size(), public_values(circuit))[r],
    ensures
        numerator_at(pk, wires, z, pi, beta, gamma, alpha, pk.domain.spec_element(i as nat)) == 0,
{
    reveal(acc_closes);
    let n = pk.domain.spec_size();
    let ni = n as int;
    let w = pk.domain.spec_group_gen();
    let x = pk.domain.spec_element(i as nat);
    let (ca, cb, cc) = (witness_column(circuit, n, 0), witness_column(circuit, n, 1), witness_column(circuit, n, 2));
    let gates = circuit.spec_gates();
    lemma_row_point(pk, i);
    lemma_row_tables(pk, circuit, srs, i);
    lemma_fixed_polys_on_domain(pk, circuit, srs, i);
    // z at omega^i and at omega^(i+1)
    let zi = acc_prefix(pk, ca, cb, cc, beta, gamma, i as nat);
    let zn = acc_prefix(pk, ca, cb, cc, beta, gamma, (i + 1) as nat);
    lemma_row_z(pk, ca, cb, cc, z, beta, gamma, i);
    // the wires at omega^i
    assert(poly_eval(wires[0], x) == ca[i]);
    assert(poly_eval(wires[1], x) == cb[i]);
    assert(poly_eval(wires[2], x) == cc[i]);
    let num = acc_num(pk, ca, cb, cc, beta, gamma, i);
    let den = acc_den(pk, ca, cb, cc, beta, gamma, i);
    let q = Seq::new(5, |j: int| poly_eval(pk.selectors[j].poly@, x));
    let sg = Seq::new(3, |j: int| poly_eval(pk.s_sigma[j].poly@, x));
    let (a, b, c) = (ca[i], cb[i], cc[i]);
    assert(sg[0] == pk.s_sigma[0].on_h@[i]@ && sg[1] == pk.s_sigma[1].on_h@[i]@ && sg[2] == pk.s_sigma[2].on_h@[i]@);
    assert(invertible(den));
    assert(zn == fmul(zi, fmul(num, finv(den))));
    // L_1 is one only at row 0, where z is one
    let l1v = poly_eval(pk.l1.poly@, x);
    if i != 0 {
        assert(l1v == 0);
    }
    // row i satisfies its gate
    let piv = poly_eval(pi, x);
    if circuit.spec_public_inputs().len() > 0 {
        circuit.lemma_public_inputs_first(circuit.spec_public_inputs().len() - 1);
    }
    if i < gates.len() {
        let gi = gates[i];
        lemma_gate_reorder(gi.q_l@, gi.q_r@, gi.q_o@, gi.q_m@, gi.q_c@, a, b, c, piv);
        assert(piv == circuit.spec_pi_at(i));
        assert(gate_eval(gi, circuit.spec_values(), circuit.spec_pi_at(i)) == 0);
    } else {
        assert(a == 0 && b == 0 && c == 0);
        assert(piv == 0);
        assert(q[0] == 0 && q[1] == 0 && q[2] == 0 && q[3] == 0 && q[4] == 0);
    }
    lemma_row_constraint_zero(a, b, c, q, sg, piv, zi, zn, l1v, x, (pk.k1@, pk.k2@), beta, gamma, alpha);
}

/// The value of the linearisation polynomial from the values at a point of
/// the selectors `q`, of `S_sigma3` (`s3`), of `z` (`zx`) and of the three
/// quotient pieces `t`: each of its terms with the polynomial replaced by
/// its value.
pub open spec fn linearisation_value(
    q: Seq<nat>,
    s3: nat,
    zx: nat,
    t: Seq<nat>,
    e: Seq<nat>,
    pi_z: nat,
    beta: nat,
    gamma: nat,
    alpha: nat,
    zeta: nat,
    k: (nat, nat),
    n: nat,
) -> nat {
    let zeta_n = fpow(zeta, n);
    let z_h = fsub(zeta_n, 1);
    let l1 = spec_l0(n, zeta);
    let f = perm_f_vals(e, beta, gamma, zeta, k.0, k.1);
    let gp = perm_g_partial_vals(e, beta, gamma);
    let gate = fadd(
        fadd(fadd(fadd(fmul(q[3], fmul(e[0], e[1])), fmul(q[0], e[0])), fmul(q[1], e[1])), fmul(q[2], e[2])),
        fadd(q[4], pi_z),
    );
    let g = fadd(fmul(s3, fmul(gp, beta)), fmul(gp, fadd(e[2], gamma)));
    let perm = fsub(fmul(zx, f), fmul(g, e[5]));
    let start = fmul(fsub(zx, 1), l1);
    let quot = fadd(fadd(t[0], fmul(t[1], zeta_n)), fmul(t[2], fmul(zeta_n, zeta_n)));
    fsub(fadd(fadd(gate, fmul(perm, alpha)), fmul(start, fmul(alpha, alpha))), fmul(quot, z_h))
}

/// Evaluating the linearisation polynomial anywhere evaluates its terms.
#[verifier::rlimit(100)]
#[verifier::spinoff_prover]
pub proof fn lemma_linearisation_eval(
    pk: ProverKey,
    z: Seq<nat>,
    t: Seq<Seq<nat>>,
    e: Seq<nat>,
    pi_z: nat,
    beta: nat,
    gamma: nat,
    alpha: nat,
    zeta: nat,
    x: nat,
)
    requires
        e.len() == 6,
        t.len() == 3,
        pi_z < modulus(),
    ensures
        poly_eval(linearisation_spec(pk, z, t, e, pi_z, beta, gamma, alpha, zeta), x) == linearisation_value(
            Seq::new(5, |j: int| poly_eval(pk.selectors[j].poly@, x)),
            poly_eval(pk.s_sigma[2].poly@, x),
            poly_eval(z, x),
            seq![poly_eval(t[0], x), poly_eval(t[1], x), poly_eval(t[2], x)],
            e,
            pi_z,
            beta,
            gamma,
            alpha,
            zeta,
            (pk.k1@, pk.k2@),
            pk.domain.spec_size(),
        ),
{
    reveal(linearisation_spec);
    crate::field::lemma_modulus_pos();
    let n = pk.domain.spec_size();
    let zeta_n = fpow(zeta, n);
    let z_h = fsub(zeta_n, 1);
    let l1 = spec_l0(n, zeta);
    let q = Seq::new(5, |j: int| pk.selectors[j].poly@);
    let qv = Seq::new(5, |j: int| poly_eval(pk.selectors[j].poly@, zeta));
    // gate
    let g1 = poly_scale(q[3], fmul(e[0], e[1]));
    let g2 = poly_scale(q[0], e[0]);
    let g3 = poly_scale(q[1], e[1]);
    let g4 = poly_scale(q[2], e[2]);
    let g5 = poly_add(q[4], konst(pi_z));
    lemma_eval_scale(q[3], fmul(e[0], e[1]), x);
    lemma_eval_scale(q[0], e[0], x);
    lemma_eval_scale(q[1], e[1], x);
    lemma_eval_scale(q[2], e[2], x);
    lemma_eval_konst(pi_z, x);
    vstd::arithmetic::div_mod::lemma_small_mod(pi_z, modulus());
    lemma_eval_add(q[4], konst(pi_z), x);
    lemma_eval_add(g1, g2, x);
    lemma_eval_add(poly_add(g1, g2), g3, x);
    lemma_eval_add(poly_add(poly_add(g1, g2), g3), g4, x);
    let gate = poly_add(poly_add(poly_add(poly_add(g1, g2), g3), g4), g5);
    lemma_eval_add(poly_add(poly_add(poly_add(g1, g2), g3), g4), g5, x);
    // permutation
    let f = perm_f_vals(e, beta, gamma, zeta, pk.k1@, pk.k2@);
    let gp = perm_g_partial_vals(e, beta, gamma);
    let s3 = pk.s_sigma[2].poly@;
    let kc = fmul(gp, fadd(e[2], gamma));
    let g = poly_add(poly_scale(s3, fmul(gp, beta)), konst(kc));
    lemma_eval_scale(s3, fmul(gp, beta), x);
    lemma_eval_konst(kc, x);
    vstd::arithmetic::div_mod::lemma_mod_bound((gp * fadd(e[2], gamma)) as int, modulus() as int);
    vstd::arithmetic::div_mod::lemma_small_mod(kc, modulus());
    lemma_eval_add(poly_scale(s3, fmul(gp, beta)), konst(kc), x);
    let perm = poly_sub(poly_scale(z, f), poly_scale(g, e[5]));
    lemma_eval_scale(z, f, x);
    lemma_eval_scale(g, e[5], x);
    lemma_eval_sub(poly_scale(z, f), poly_scale(g, e[5]), x);
    // start
    let start = poly_scale(poly_sub(z, konst(1)), l1);
    lemma_eval_konst(1, x);
    vstd::arithmetic::div_mod::lemma_small_mod(1, modulus());
    lemma_eval_sub(z, konst(1), x);
    lemma_eval_scale(poly_sub(z, konst(1)), l1, x);
    // quotient pieces
    let quot = poly_add(poly_add(t[0], poly_scale(t[1], zeta_n)), poly_scale(t[2], fmul(zeta_n, zeta_n)));
    lemma_eval_scale(t[1], zeta_n, x);
    lemma_eval_scale(t[2], fmul(zeta_n, zeta_n), x);
    lemma_eval_add(t[0], poly_scale(t[1], zeta_n), x);
    lemma_eval_add(poly_add(t[0], poly_scale(t[1], zeta_n)), poly_scale(t[2], fmul(zeta_n, zeta_n)), x);
    // the whole
    let alpha2 = fmul(alpha, alpha);
    lemma_eval_scale(perm, alpha, x);
    lemma_eval_scale(start, alpha2, x);
    lemma_eval_scale(quot, z_h, x);
    lemma_eval_add(gate, poly_scale(perm, alpha), x);
    lemma_eval_add(poly_add(gate, poly_scale(perm, alpha)), poly_scale(start, alpha2), x);
    lemma_eval_sub(poly_add(poly_add(gate, poly_scale(perm, alpha)), poly_scale(start, alpha2)), poly_scale(quot, z_h), x);
    assert(q[3] == pk.selectors[3].poly@ && q[0] == pk.selectors[0].poly@ && q[1] == pk.selectors[1].poly@);
    assert(q[2] == pk.selectors[2].poly@ && q[4] == pk.selectors[4].poly@);
}

/// The linearisation polynomial at `zeta` is the constraint expression at
/// `zeta`, read from the evaluations `e`, `S_sigma3(zeta)`, `z(zeta)`, the
/// selectors at `zeta`, `PI(zeta)` and `L_1(zeta)`, minus
/// `Z_H(zeta) (t_lo + zeta^n t_mid + zeta^2n t_hi)(zeta)`: for an honest
/// state `r(zeta) = 0` exactly when the quotient identity holds at `zeta`.
#[verifier::rlimit(100)]
#[verifier::spinoff_prover]
pub proof fn lemma_linearisation_at_zeta(
    pk: ProverKey,
    z: Seq<nat>,
    t: Seq<Seq<nat>>,
    e: Seq<nat>,
    pi_z: nat,
    beta: nat,
    gamma: nat,
    alpha: nat,
    zeta: nat,
)
    requires
        e.len() == 6,
        t.len() == 3,
        pi_z < modulus(),
    ensures
        poly_eval(linearisation_spec(pk, z, t, e, pi_z, beta, gamma, alpha, zeta), zeta) == fsub(
            constraint_value(
                e[0],
                e[1],
                e[2],
                Seq::new(5, |j: int| poly_eval(pk.selectors[j].poly@, zeta)),
                seq![e[3], e[4], poly_eval(pk.s_sigma[2].poly@, zeta)],
                pi_z,
                poly_eval(z, zeta),
                e[5],
                spec_l0(pk.domain.spec_size(), zeta),
                zeta,
                (pk.k1@, pk.k2@),
                beta,
                gamma,
                alpha,
            ),
            fmul(pieces_at(t, pk.domain.spec_size(), zeta), fsub(fpow(zeta, pk.domain.spec_size()), 1)),
        ),
{
    reveal(linearisation_spec);
    reveal(constraint_value);
    crate::field::lemma_modulus_pos();
    let n = pk.domain.spec_size();
    let x = zeta;
    let zeta_n = fpow(zeta, n);
    let z_h = fsub(zeta_n, 1);
    let l1 = spec_l0(n, zeta);
    let q = Seq::new(5, |j: int| pk.selectors[j].poly@);
    let qv = Seq::new(5, |j: int| poly_eval(pk.selectors[j].poly@, zeta));
    // gate
    let g1 = poly_scale(q[3], fmul(e[0], e[1]));
    let g2 = poly_scale(q[0], e[0]);
    let g3 = poly_scale(q[1], e[1]);
    let g4 = poly_scale(q[2], e[2]);
    let g5 = poly_add(q[4], konst(pi_z));
    lemma_eval_scale(q[3], fmul(e[0], e[1]), x);
    lemma_eval_scale(q[0], e[0], x);
    lemma_eval_scale(q[1], e[1], x);
    lemma_eval_scale(q[2], e[2], x);
    lemma_eval_konst(pi_z, x);
    vstd::arithmetic::div_mod::lemma_small_mod(pi_z, modulus());
    lemma_eval_add(q[4], konst(pi_z), x);
    lemma_eval_add(g1, g2, x);
    lemma_eval_add(poly_add(g1, g2), g3, x);
    lemma_eval_add(poly_add(poly_add(g1, g2), g3), g4, x);
    let gate = poly_add(poly_add(poly_add(poly_add(g1, g2), g3), g4), g5);
    lemma_eval_add(poly_add(poly_add(poly_add(g1, g2), g3), g4), g5, x);
    // permutation
    let f = perm_f_vals(e, beta, gamma, zeta, pk.k1@, pk.k2@);
    let gp = perm_g_partial_vals(e, beta, gamma);
    let s3 = pk.s_sigma[2].poly@;
    let kc = fmul(gp, fadd(e[2], gamma));
    let g = poly_add(poly_scale(s3, fmul(gp, beta)), konst(kc));
    lemma_eval_scale(s3, fmul(gp, beta), x);
    lemma_eval_konst(kc, x);
    vstd::arithmetic::div_mod::lemma_mod_bound((gp * fadd(e[2], gamma)) as int, modulus() as int);
    vstd::arithmetic::div_mod::lemma_small_mod(kc, modulus());
    lemma_eval_add(poly_scale(s3, fmul(gp, beta)), konst(kc), x);
    lemma_permuted_factor(gp, beta, gamma, e[2], poly_eval(s3, x));
    lemma_fmul_assoc(perm_term(e[0], beta, e[3], gamma), perm_term(e[1], beta, e[4], gamma), perm_term(e[2], beta, poly_eval(s3, x), gamma));
    let perm = poly_sub(poly_scale(z, f), poly_scale(g, e[5]));
    lemma_eval_scale(z, f, x);
    lemma_eval_scale(g, e[5], x);
    lemma_eval_sub(poly_scale(z, f), poly_scale(g, e[5]), x);
    // start
    let start = poly_scale(poly_sub(z, konst(1)), l1);
    lemma_eval_konst(1, x);
    vstd::arithmetic::div_mod::lemma_small_mod(1, modulus());
    lemma_eval_sub(z, konst(1), x);
    lemma_eval_scale(poly_sub(z, konst(1)), l1, x);
    // quotient pieces
    let quot = poly_add(poly_add(t[0], poly_scale(t[1], zeta_n)), poly_scale(t[2], fmul(zeta_n, zeta_n)));
    lemma_eval_scale(t[1], zeta_n, x);
    lemma_eval_scale(t[2], fmul(zeta_n, zeta_n), x);
    lemma_eval_add(t[0], poly_scale(t[1], zeta_n), x);
    lemma_eval_add(poly_add(t[0], poly_scale(t[1], zeta_n)), poly_scale(t[2], fmul(zeta_n, zeta_n)), x);
    crate::evaluation::lemma_fpow_adds(zeta, n, n);
    assert(n + n == 2 * n);
    lemma_fmul_comm(poly_eval(t[1], x), zeta_n);
    lemma_fmul_comm(poly_eval(t[2], x), fmul(zeta_n, zeta_n));
    // the whole
    let alpha2 = fmul(alpha, alpha);
    lemma_eval_scale(perm, alpha, x);
    lemma_eval_scale(start, alpha2, x);
    lemma_eval_scale(quot, z_h, x);
    lemma_eval_add(gate, poly_scale(perm, alpha), x);
    lemma_eval_add(poly_add(gate, poly_scale(perm, alpha)), poly_scale(start, alpha2), x);
    lemma_eval_sub(poly_add(poly_add(gate, poly_scale(perm, alpha)), poly_scale(start, alpha2)), poly_scale(quot, z_h), x);
    assert(q[3] == pk.selectors[3].poly@ && q[0] == pk.selectors[0].poly@ && q[1] == pk.selectors[1].poly@);
    assert(q[2] == pk.selectors[2].poly@ && q[4] == pk.selectors[4].poly@);
    assert(qv[3] == poly_eval(q[3], x) && qv[0] == poly_eval(q[0], x) && qv[1] == poly_eval(q[1], x));
    assert(qv[2] == poly_eval(q[2], x) && qv[4] == poly_eval(q[4], x));
}

fn konst_exec(k: Scalar) -> (r: Poly)
    ensures
        r@ == konst(k@),
{
    let mut v: Vec<Scalar> = Vec::new();
    v.push(k);
    proof {
        assert(vals(v@) =~= seq![k@]);
    }
    Poly::from_coefficients_vec(v)
}

/// The linearisation polynomial `r(X)`.
///
/// Take the identity `t Z_H = gate + alpha perm + alpha^2 start`, fix the
/// evaluations of `a, b, c, S_sigma1, S_sigma2` at `zeta` and of `z` at
/// `zeta omega`, and what's left is linear in the remaining polynomials.
/// The verifier can build its commitment from the proof and the verifier key
/// without knowing the polynomials, and for an honest prover `r(zeta) = 0`.
pub fn linearisation(
    pk: &ProverKey,
    z: &Poly,
    t: &[Poly; 3],
    ev: &Evaluations,
    pi_at_zeta: &Scalar,
    beta: &Scalar,
    gamma: &Scalar,
    alpha: &Scalar,
    zeta: &Scalar,
) -> (r: Poly)
    ensures
        r@ == linearisation_spec(
            *pk,
            z@,
            seq![t[0]@, t[1]@, t[2]@],
            evaluation_values(*ev),
            pi_at_zeta@,
            beta@,
            gamma@,
            alpha@,
            zeta@,
        ),
{
    proof {
        reveal(linearisation_spec);
    }
    let (zeta_n, z_h, l1) = vanishing_at(pk.domain.size(), zeta);
    let q_l = &pk.selectors[0].poly;
    let q_r = &pk.selectors[1].poly;
    let q_o = &pk.selectors[2].poly;
    let q_m = &pk.selectors[3].poly;
    let q_c = &pk.selectors[4].poly;
    let gate = q_m.scale(&ev.a.times(&ev.b)).plus(&q_l.scale(&ev.a)).plus(&q_r.scale(&ev.b)).plus(&q_o.scale(&ev.c)).plus(
        &q_c.plus(&konst_exec(*pi_at_zeta)),
    );

    let (f, g_partial) = ev.permutation_factors(beta, gamma, zeta, &pk.k1, &pk.k2);
    // g = g_partial * (c + beta S_sigma3(X) + gamma)
    let g = pk.s_sigma[2].poly.scale(&g_partial.times(beta)).plus(&konst_exec(g_partial.times(&ev.c.plus(gamma))));
    let perm = z.scale(&f).minus(&g.scale(&ev.z_omega));

    let start = z.minus(&konst_exec(Scalar::one())).scale(&l1);

    let quot = t[0].plus(&t[1].scale(&zeta_n)).plus(&t[2].scale(&zeta_n.times(&zeta_n)));

    gate.plus(&perm.scale(alpha)).plus(&start.scale(&alpha.times(alpha))).minus(&quot.scale(&z_h))
}

/// Adding two polynomials within a length bound stays within it.
pub proof fn lemma_add_len(a: Seq<nat>, b: Seq<nat>, bound: nat)
    requires
        a.len() <= bound,
        b.len() <= bound,
    ensures
        poly_add(a, b).len() <= bound,
        poly_sub(a, b).len() <= bound,
{
    lemma_trim_len(Seq::new(max_len(a, b), |i: int| fadd(coeff(a, i), coeff(b, i))));
    lemma_trim_len(Seq::new(max_len(a, b), |i: int| fsub(coeff(a, i), coeff(b, i))));
}


/// The linearisation polynomial is no longer than `n + 6` when `z` and the
/// pieces of `t` are not.
pub proof fn lemma_linearisation_len(
    pk: ProverKey,
    z: Seq<nat>,
    t: Seq<Seq<nat>>,
    e: Seq<nat>,
    pi_z: nat,
    beta: nat,
    gamma: nat,
    alpha: nat,
    zeta: nat,
)
    requires
        pk_shapes(pk),
        t.len() == 3,
        z.len() <= pk.domain.spec_size() + 6,
        forall|j: int| 0 <= j < 3 ==> (#[trigger] t[j]).len() <= pk.domain.spec_size() + 6,
    ensures
        linearisation_spec(pk, z, t, e, pi_z, beta, gamma, alpha, zeta).len() <= pk.domain.spec_size() + 6,
{
    reveal(linearisation_spec);
    let b = pk.domain.spec_size() + 6;
    assert(pk.selectors[0].poly@.len() <= b && pk.selectors[1].poly@.len() <= b && pk.selectors[2].poly@.len() <= b);
    assert(pk.selectors[3].poly@.len() <= b && pk.selectors[4].poly@.len() <= b && pk.s_sigma[2].poly@.len() <= b);
    let n = pk.domain.spec_size();
    let zeta_n = fpow(zeta, n);
    let z_h = fsub(zeta_n, 1);
    let l1 = spec_l0(n, zeta);
    lemma_trim_len(seq![pi_z]);
    let q0 = poly_scale(pk.selectors[3].poly@, fmul(e[0], e[1]));
    let q1 = poly_scale(pk.selectors[0].poly@, e[0]);
    lemma_add_len(q0, q1, b);
    let g1 = poly_add(q0, q1);
    let q2 = poly_scale(pk.selectors[1].poly@, e[1]);
    lemma_add_len(g1, q2, b);
    let g2 = poly_add(g1, q2);
    let q3 = poly_scale(pk.selectors[2].poly@, e[2]);
    lemma_add_len(g2, q3, b);
    let g3 = poly_add(g2, q3);
    lemma_add_len(pk.selectors[4].poly@, konst(pi_z), b);
    let qc = poly_add(pk.selectors[4].poly@, konst(pi_z));
    lemma_add_len(g3, qc, b);
    let gate = poly_add(g3, qc);
    let f = perm_f_vals(e, beta, gamma, zeta, pk.k1@, pk.k2@);
    let gp = perm_g_partial_vals(e, beta, gamma);
    let k = konst(fmul(gp, fadd(e[2], gamma)));
    lemma_trim_len(seq![fmul(gp, fadd(e[2], gamma))]);
    let sg = poly_scale(pk.s_sigma[2].poly@, fmul(gp, beta));
    lemma_add_len(sg, k, b);
    let g = poly_add(sg, k);
    lemma_add_len(poly_scale(z, f), poly_scale(g, e[5]), b);
    let perm = poly_sub(poly_scale(z, f), poly_scale(g, e[5]));
    lemma_trim_len(seq![1nat]);
    lemma_add_len(z, konst(1), b);
    let start = poly_scale(poly_sub(z, konst(1)), l1);
    let u0 = poly_scale(t[1], zeta_n);
    assert(t[0].len() <= b && t[1].len() <= b && t[2].len() <= b);
    lemma_add_len(t[0], u0, b);
    let u1 = poly_add(t[0], u0);
    lemma_add_len(u1, poly_scale(t[2], fmul(zeta_n, zeta_n)), b);
    let quot = poly_add(u1, poly_scale(t[2], fmul(zeta_n, zeta_n)));
    lemma_add_len(gate, poly_scale(perm, alpha), b);
    let h1 = poly_add(gate, poly_scale(perm, alpha));
    lemma_add_len(h1, poly_scale(start, fmul(alpha, alpha)), b);
    let h2 = poly_add(h1, poly_scale(start, fmul(alpha, alpha)));
    lemma_add_len(h2, poly_scale(quot, z_h), b);
}

/// The public input values of a circuit, in order.
pub open spec fn public_values(c: Circuit) -> Seq<nat> {
    Seq::new(c.spec_public_inputs().len(), |i: int| c.spec_value(c.spec_public_inputs()[i]))
}

/// What a run of the prover computes, given its eleven blinding scalars:
/// two for each wire polynomial, three for `z`, two between the pieces of
/// `t`.
pub struct ProverTrace {
    pub wires: Seq<Seq<nat>>,
    pub wire_comms: Seq<Seq<u8>>,
    pub beta: nat,
    pub gamma: nat,
    pub after_wires: Seq<u8>,
    pub acc_ok: bool,
    pub z: Seq<nat>,
    pub z_comm: Seq<u8>,
    pub alpha: nat,
    pub after_z: Seq<u8>,
    pub pi_poly: Seq<nat>,
    pub t_coeffs: Seq<nat>,
    pub t: Seq<Seq<nat>>,
    pub t_comms: Seq<Seq<u8>>,
    pub zeta: nat,
    pub after_t: Seq<u8>,
    pub evals: Seq<nat>,
    pub v: nat,
    pub r: Seq<nat>,
    pub w_zeta: Seq<u8>,
    pub w_zeta_omega: Seq<u8>,
}

/// The prover's five rounds, with the blinding scalars `bl`.
#[verifier::opaque]
pub open spec fn prover_trace(srs: Srs, pk: ProverKey, c: Circuit, bl: Seq<nat>) -> ProverTrace {
    let n = pk.domain.spec_size();
    let off = pk.domain.spec_offset();
    let powers = srs.powers_of_g@;
    let wires = seq![
        wire_poly_spec(pk.domain, witness_column(c, n, 0), bl.subrange(0, 2)),
        wire_poly_spec(pk.domain, witness_column(c, n, 1), bl.subrange(2, 4)),
        wire_poly_spec(pk.domain, witness_column(c, n, 2), bl.subrange(4, 6)),
    ];
    let wc = seq![commitment_of(powers, wires[0]), commitment_of(powers, wires[1]), commitment_of(powers, wires[2])];
    let pi = public_values(c);
    let r1 = round_wires(vk_transcript_state(pk.vk, pi), wc[0], wc[1], wc[2]);
    let (beta, gamma) = (r1.0, r1.1);
    let cols = (witness_column(c, n, 0), witness_column(c, n, 1), witness_column(c, n, 2));
    let z = blind_spec(n, trim(spec_ifft(n, off, acc_values(pk, cols.0, cols.1, cols.2, beta, gamma))), bl.subrange(6, 9));
    let zc = commitment_of(powers, z);
    let r2 = round_accumulator(r1.2, zc);
    let alpha = r2.0;
    let pi_poly = trim(spec_ifft(n, off, public_input_values(n, pi)));
    let coeffs = quotient_coeffs(pk, wires, z, pi_poly, beta, gamma, alpha);
    let t = quotient_pieces(coeffs, n, bl[9], bl[10]);
    let tc = seq![commitment_of(powers, t[0]), commitment_of(powers, t[1]), commitment_of(powers, t[2])];
    let r3 = round_quotient(r2.1, tc[0], tc[1], tc[2]);
    let zeta = r3.0;
    let omega = pk.domain.spec_group_gen();
    let evals = seq![
        poly_eval(wires[0], zeta),
        poly_eval(wires[1], zeta),
        poly_eval(wires[2], zeta),
        poly_eval(pk.s_sigma[0].poly@, zeta),
        poly_eval(pk.s_sigma[1].poly@, zeta),
        poly_eval(z, fmul(zeta, omega)),
    ];
    let v = round_evaluations(r3.1, evals).0;
    let r = linearisation_spec(pk, z, t, evals, poly_eval(pi_poly, zeta), beta, gamma, alpha, zeta);
    let folded = fold_polys(seq![r, wires[0], wires[1], wires[2], pk.s_sigma[0].poly@, pk.s_sigma[1].poly@], v, 6);
    ProverTrace {
        wires,
        wire_comms: wc,
        beta,
        gamma,
        after_wires: r1.2,
        acc_ok: acc_closes(pk, cols.0, cols.1, cols.2, beta, gamma),
        z,
        z_comm: zc,
        alpha,
        after_z: r2.1,
        pi_poly,
        t_coeffs: coeffs,
        t,
        t_comms: tc,
        zeta,
        after_t: r3.1,
        evals,
        v,
        r,
        w_zeta: commitment_of(powers, open_quotient(folded, zeta)),
        w_zeta_omega: commitment_of(powers, open_quotient(z, fmul(zeta, omega))),
    }
}

/// Each value of the run in terms of the ones before it.
#[verifier::rlimit(100)]
pub proof fn lemma_trace_steps(srs: Srs, pk: ProverKey, c: Circuit, bl: Seq<nat>)
    ensures
        ({
            let tr = prover_trace(srs, pk, c, bl);
            let n = pk.domain.spec_size();
            let off = pk.domain.spec_offset();
            let powers = srs.powers_of_g@;
            let cols = (witness_column(c, n, 0), witness_column(c, n, 1), witness_column(c, n, 2));
            let omega = pk.domain.spec_group_gen();
            &&& tr.wires == seq![
                wire_poly_spec(pk.domain, cols.0, bl.subrange(0, 2)),
                wire_poly_spec(pk.domain, cols.1, bl.subrange(2, 4)),
                wire_poly_spec(pk.domain, cols.2, bl.subrange(4, 6)),
            ]
            &&& tr.wire_comms == seq![
                commitment_of(powers, tr.wires[0]),
                commitment_of(powers, tr.wires[1]),
                commitment_of(powers, tr.wires[2]),
            ]
            &&& (tr.beta, tr.gamma, tr.after_wires) == round_wires(
                vk_transcript_state(pk.vk, public_values(c)),
                tr.wire_comms[0],
                tr.wire_comms[1],
                tr.wire_comms[2],
            )
            &&& tr.acc_ok == acc_closes(pk, cols.0, cols.1, cols.2, tr.beta, tr.gamma)
            &&& tr.z == blind_spec(
                n,
                trim(spec_ifft(n, off, acc_values(pk, cols.0, cols.1, cols.2, tr.beta, tr.gamma))),
                bl.subrange(6, 9),
            )
            &&& tr.z_comm == commitment_of(powers, tr.z)
            &&& (tr.alpha, tr.after_z) == round_accumulator(tr.after_wires, tr.z_comm)
            &&& tr.pi_poly == trim(spec_ifft(n, off, public_input_values(n, public_values(c))))
            &&& tr.t_coeffs == quotient_coeffs(pk, tr.wires, tr.z, tr.pi_poly, tr.beta, tr.gamma, tr.alpha)
            &&& tr.t == quotient_pieces(tr.t_coeffs, n, bl[9], bl[10])
            &&& tr.t_comms == seq![
                commitment_of(powers, tr.t[0]),
                commitment_of(powers, tr.t[1]),
                commitment_of(powers, tr.t[2]),
            ]
            &&& (tr.zeta, tr.after_t) == round_quotient(tr.after_z, tr.t_comms[0], tr.t_comms[1], tr.t_comms[2])
            &&& tr.evals == seq![
                poly_eval(tr.wires[0], tr.zeta),
                poly_eval(tr.wires[1], tr.zeta),
                poly_eval(tr.wires[2], tr.zeta),
                poly_eval(pk.s_sigma[0].poly@, tr.zeta),
                poly_eval(pk.s_sigma[1].poly@, tr.zeta),
                poly_eval(tr.z, fmul(tr.zeta, omega)),
            ]
            &&& tr.v == round_evaluations(tr.after_t, tr.evals).0
            &&& tr.r == linearisation_spec(
                pk,
                tr.z,
                tr.t,
                tr.evals,
                poly_eval(tr.pi_poly, tr.zeta),
                tr.beta,
                tr.gamma,
                tr.alpha,
                tr.zeta,
            )
            &&& tr.w_zeta == commitment_of(
                powers,
                open_quotient(
                    fold_polys(
                        seq![tr.r, tr.wires[0], tr.wires[1], tr.wires[2], pk.s_sigma[0].poly@, pk.s_sigma[1].poly@],
                        tr.v,
                        6,
                    ),
                    tr.zeta,
                ),
            )
            &&& tr.w_zeta_omega == commitment_of(powers, open_quotient(tr.z, fmul(tr.zeta, omega)))
        }),
{
    reveal(prover_trace);
}

/// The run gets through every check: the accumulator closes, the quotient
/// has no coefficients past degree `3n + 5`, and `r(zeta) = 0`.
pub open spec fn trace_succeeds(tr: ProverTrace, n: nat) -> bool {
    &&& tr.acc_ok
    &&& tail_is_zero(tr.t_coeffs, n)
    &&& poly_eval(tr.r, tr.zeta) == 0
}

/// `p` is the proof the run produces.
pub open spec fn proof_of_trace(p: Proof, tr: ProverTrace) -> bool {
    &&& p.a.0@ == tr.wire_comms[0]
    &&& p.b.0@ == tr.wire_comms[1]
    &&& p.c.0@ == tr.wire_comms[2]
    &&& p.z.0@ == tr.z_comm
    &&& p.t_lo.0@ == tr.t_comms[0]
    &&& p.t_mid.0@ == tr.t_comms[1]
    &&& p.t_hi.0@ == tr.t_comms[2]
    &&& evaluation_values(p.evals) == tr.evals
    &&& p.w_zeta.0@ == tr.w_zeta
    &&& p.w_zeta_omega.0@ == tr.w_zeta_omega
}

/// Round 1 with the given masks: the blinded wire polynomials and their
/// commitments.
fn commit_wires(srs: &Srs, pk: &ProverKey, w: &Witness, bl: &[Scalar]) -> (r: ([Poly; 3], [Commitment; 3]))
    requires
        pk_shapes(*pk),
        bl@.len() == 11,
        srs.powers_of_g@.len() >= pk.domain.spec_size() + 6,
    ensures
        forall|j: int|
            #![trigger r.0[j]]
            0 <= j < 3 ==> {
                &&& r.0[j]@ == wire_poly_spec(pk.domain, w.column(j), vals(bl@).subrange(2 * j, 2 * j + 2))
                &&& r.0[j]@.len() <= pk.domain.spec_size() + 2
                &&& r.1[j].0@ == commitment_of(srs.powers_of_g@, r.0[j]@)
                &&& commitment_matches(srs.powers_of_g@, r.1[j].0@, r.0[j]@)
            },
{
    let n = pk.domain.size();
    let ma = copy_range(bl, 0, 2);
    let mb = copy_range(bl, 2, 4);
    let mc = copy_range(bl, 4, 6);
    let ia = interpolate(&pk.domain, w.a.as_slice());
    let ib = interpolate(&pk.domain, w.b.as_slice());
    let ic = interpolate(&pk.domain, w.c.as_slice());
    proof {
        lemma_blind_len(n as nat, ia@, vals(ma@));
        lemma_blind_len(n as nat, ib@, vals(mb@));
        lemma_blind_len(n as nat, ic@, vals(mc@));
        assert(vals(ma@) =~= vals(bl@).subrange(0, 2));
        assert(vals(mb@) =~= vals(bl@).subrange(2, 4));
        assert(vals(mc@) =~= vals(bl@).subrange(4, 6));
    }
    pk.domain.lemma_wf();
    let pa = blind_with(&pk.domain, ia, ma.as_slice());
    let pb = blind_with(&pk.domain, ib, mb.as_slice());
    let pc = blind_with(&pk.domain, ic, mc.as_slice());
    let ca = srs.commit(&pa);
    let cb = srs.commit(&pb);
    let cc = srs.commit(&pc);
    let r = ([pa, pb, pc], [ca, cb, cc]);
    proof {
        assert(r.0[0] == pa && r.0[1] == pb && r.0[2] == pc);
        assert(r.1[0] == ca && r.1[1] == cb && r.1[2] == cc);
    }
    r
}

/// What rounds 1 to 3 leave behind: the transcript, the polynomials and
/// their commitments, and the challenges so far.
struct Committed {
    rounds: Rounds,
    wires: [Poly; 3],
    wc: [Commitment; 3],
    z: Poly,
    cz: Commitment,
    pi: Poly,
    t: [Poly; 3],
    tc: [Commitment; 3],
    beta: Scalar,
    gamma: Scalar,
    alpha: Scalar,
    zeta: Scalar,
}

/// `st` holds what the run `tr` computes up to `zeta`.
spec fn committed_matches(st: Committed, tr: ProverTrace, n: nat) -> bool {
    &&& st.wires[0]@ == tr.wires[0] && st.wires[1]@ == tr.wires[1] && st.wires[2]@ == tr.wires[2]
    &&& st.wc[0].0@ == tr.wire_comms[0] && st.wc[1].0@ == tr.wire_comms[1] && st.wc[2].0@ == tr.wire_comms[2]
    &&& st.z@ == tr.z
    &&& st.cz.0@ == tr.z_comm
    &&& st.pi@ == tr.pi_poly
    &&& seq![st.t[0]@, st.t[1]@, st.t[2]@] == tr.t
    &&& st.tc[0].0@ == tr.t_comms[0] && st.tc[1].0@ == tr.t_comms[1] && st.tc[2].0@ == tr.t_comms[2]
    &&& st.beta@ == tr.beta && st.gamma@ == tr.gamma && st.alpha@ == tr.alpha && st.zeta@ == tr.zeta
    &&& st.rounds@ == tr.after_t
    &&& st.z@.len() <= n + 6
    &&& st.t[0]@.len() <= n + 6 && st.t[1]@.len() <= n + 6 && st.t[2]@.len() <= n + 6
    &&& st.wires[0]@.len() <= n + 6 && st.wires[1]@.len() <= n + 6 && st.wires[2]@.len() <= n + 6
}

/// The commitments in `st` are `[p(tau)]_1` of its polynomials, for every
/// `tau` whose powers `powers` holds.
spec fn committed_in_exponent(st: Committed, powers: Seq<G1>) -> bool {
    &&& commitment_matches(powers, st.wc[0].0@, st.wires[0]@)
    &&& commitment_matches(powers, st.wc[1].0@, st.wires[1]@)
    &&& commitment_matches(powers, st.wc[2].0@, st.wires[2]@)
    &&& commitment_matches(powers, st.cz.0@, st.z@)
    &&& commitment_matches(powers, st.tc[0].0@, st.t[0]@)
    &&& commitment_matches(powers, st.tc[1].0@, st.t[1]@)
    &&& commitment_matches(powers, st.tc[2].0@, st.t[2]@)
}

/// Rounds 1 to 3: wire polynomials, accumulator, quotient, each committed
/// and absorbed, up to the challenge `zeta`.
#[verifier::rlimit(100)]
#[verifier::spinoff_prover]
fn commit_rounds(srs: &Srs, pk: &ProverKey, circuit: &Circuit, bl: &[Scalar], public_inputs: &Vec<Scalar>) -> (r: Result<
    Committed,
    ProveError,
>)
    requires
        circuit.wf(),
        pk_shapes(*pk),
        bl@.len() == 11,
        srs.powers_of_g@.len() >= pk.domain.spec_size() + 6,
        circuit.spec_gates().len() <= pk.domain.spec_size(),
        vals(public_inputs@) == public_values(*circuit),
    ensures
        ({
            let n = pk.domain.spec_size();
            let tr = prover_trace(*srs, *pk, *circuit, vals(bl@));
            &&& (r is Err <==> !(tr.acc_ok && tail_is_zero(tr.t_coeffs, n)))
            &&& (r matches Err(e) ==> e == ProveError::Unsatisfied)
            &&& (r matches Ok(st) ==> committed_matches(st, tr, n))
            &&& (r matches Ok(st) ==> committed_in_exponent(st, srs.powers_of_g@))
        }),
{
    let n = pk.domain.size();
    let ghost tr = prover_trace(*srs, *pk, *circuit, vals(bl@));
    proof {
        lemma_trace_steps(*srs, *pk, *circuit, vals(bl@));
    }
    let mut rounds = Rounds::start(&pk.vk, public_inputs.as_slice());

    // round 1
    let w = Witness::from_circuit(circuit, n);
    let (wires, wc) = commit_wires(srs, pk, &w, bl);
    proof {
        assert(w.column(0) == witness_column(*circuit, n as nat, 0));
        assert(w.column(1) == witness_column(*circuit, n as nat, 1));
        assert(w.column(2) == witness_column(*circuit, n as nat, 2));
        assert(wires[0]@ == tr.wires[0] && wires[1]@ == tr.wires[1] && wires[2]@ == tr.wires[2]);
        assert(wc[0].0@ == tr.wire_comms[0] && wc[1].0@ == tr.wire_comms[1] && wc[2].0@ == tr.wire_comms[2]);
    }

    // round 2
    let (beta, gamma) = rounds.wires([&wc[0], &wc[1], &wc[2]]);
    proof {
        assert(beta@ == tr.beta && gamma@ == tr.gamma && rounds@ == tr.after_wires);
    }
    let acc = match accumulator_evals(pk, &w, &beta, &gamma) {
        Some(e) => e,
        None => {
            return Err(ProveError::Unsatisfied);
        },
    };
    let mz = copy_range(bl, 6, 9);
    let iz = interpolate(&pk.domain, acc.as_slice());
    proof {
        assert(vals(mz@) =~= vals(bl@).subrange(6, 9));
        lemma_blind_len(n as nat, iz@, vals(mz@));
    }
    pk.domain.lemma_wf();
    let z = blind_with(&pk.domain, iz, mz.as_slice());
    let cz = srs.commit(&z);
    proof {
        assert(z@ == tr.z);
        assert(cz.0@ == tr.z_comm);
    }

    // round 3
    let alpha = rounds.accumulator(&cz);
    let pi = public_input_poly(&pk.domain, public_inputs.as_slice());
    proof {
        assert(alpha@ == tr.alpha && rounds@ == tr.after_z);
        assert(pi@ == tr.pi_poly);
        assert(seq![wires[0]@, wires[1]@, wires[2]@] =~= tr.wires);
    }
    let t = match quotient_with(pk, &wires, &z, &pi, &beta, &gamma, &alpha, &bl[9], &bl[10]) {
        Ok(t) => t,
        Err(e) => {
            return Err(e);
        },
    };
    proof {
        assert(seq![t[0]@, t[1]@, t[2]@] == tr.t);
        let c = tr.t_coeffs;
        lemma_trim_len(c.subrange(0, n as int).push(vals(bl@)[9]));
        let mid0 = c.subrange(n as int, 2 * n);
        lemma_trim_len(mid0.update(0, fsub(mid0[0], vals(bl@)[9])).push(vals(bl@)[10]));
        let hi0 = c.subrange(2 * n, 3 * n + 6);
        lemma_trim_len(hi0.update(0, fsub(hi0[0], vals(bl@)[10])));
    }
    let ct_lo = srs.commit(&t[0]);
    let ct_mid = srs.commit(&t[1]);
    let ct_hi = srs.commit(&t[2]);
    let zeta = rounds.quotient([&ct_lo, &ct_mid, &ct_hi]);
    let st = Committed { rounds, wires, wc, z, cz, pi, t, tc: [ct_lo, ct_mid, ct_hi], beta, gamma, alpha, zeta };
    proof {
        assert(st.tc[0].0@ == tr.t_comms[0] && st.tc[1].0@ == tr.t_comms[1] && st.tc[2].0@ == tr.t_comms[2]);
        assert(st.zeta@ == tr.zeta && st.rounds@ == tr.after_t);
        assert(committed_matches(st, tr, n as nat));
        assert(committed_in_exponent(st, srs.powers_of_g@));
    }
    Ok(st)
}

/// Rounds 4 and 5: evaluations at `zeta`, the linearisation polynomial and
/// the two opening proofs.
#[verifier::rlimit(100)]
#[verifier::spinoff_prover]
fn open_rounds(srs: &Srs, pk: &ProverKey, st: Committed, Ghost(tr): Ghost<ProverTrace>) -> (r: Result<Proof, ProveError>)
    requires
        pk_shapes(*pk),
        srs.powers_of_g@.len() >= pk.domain.spec_size() + 6,
        committed_matches(st, tr, pk.domain.spec_size()),
        tr.evals == seq![
            poly_eval(tr.wires[0], tr.zeta),
            poly_eval(tr.wires[1], tr.zeta),
            poly_eval(tr.wires[2], tr.zeta),
            poly_eval(pk.s_sigma[0].poly@, tr.zeta),
            poly_eval(pk.s_sigma[1].poly@, tr.zeta),
            poly_eval(tr.z, fmul(tr.zeta, pk.domain.spec_group_gen())),
        ],
        tr.v == round_evaluations(tr.after_t, tr.evals).0,
        tr.r == linearisation_spec(
            *pk,
            tr.z,
            tr.t,
            tr.evals,
            poly_eval(tr.pi_poly, tr.zeta),
            tr.beta,
            tr.gamma,
            tr.alpha,
            tr.zeta,
        ),
        tr.w_zeta == commitment_of(
            srs.powers_of_g@,
            open_quotient(
                fold_polys(
                    seq![tr.r, tr.wires[0], tr.wires[1], tr.wires[2], pk.s_sigma[0].poly@, pk.s_sigma[1].poly@],
                    tr.v,
                    6,
                ),
                tr.zeta,
            ),
        ),
        tr.w_zeta_omega == commitment_of(
            srs.powers_of_g@,
            open_quotient(tr.z, fmul(tr.zeta, pk.domain.spec_group_gen())),
        ),
        committed_in_exponent(st, srs.powers_of_g@),
    ensures
        r is Err <==> poly_eval(tr.r, tr.zeta) != 0,
        r matches Err(e) ==> e == ProveError::Unsatisfied,
        r matches Ok(p) ==> proof_of_trace(p, tr),
        r matches Ok(p) ==> forall|tau: nat|
            #[trigger] powers_of_tau(srs.powers_of_g@, tau, srs.powers_of_g@.len()) ==> proof_in_exponent(
                p,
                trace_exponents(*pk, tr, tau),
            ),
{
    let Committed { rounds, wires, wc, z, cz, pi, t, tc, beta, gamma, alpha, zeta } = st;
    let mut rounds = rounds;
    let omega = pk.domain.group_gen();
    let zw = zeta.times(&omega);
    let evals = Evaluations {
        a: wires[0].evaluate(&zeta),
        b: wires[1].evaluate(&zeta),
        c: wires[2].evaluate(&zeta),
        s_sigma1: pk.s_sigma[0].poly.evaluate(&zeta),
        s_sigma2: pk.s_sigma[1].poly.evaluate(&zeta),
        z_omega: z.evaluate(&zw),
    };
    proof {
        assert(evaluation_values(evals) =~= tr.evals);
    }
    let v = rounds.evaluations(&evals);
    let r = linearisation(pk, &z, &t, &evals, &pi.evaluate(&zeta), &beta, &gamma, &alpha, &zeta);
    proof {
        assert(v@ == tr.v);
        assert(r@ == tr.r);
    }
    if !r.evaluate(&zeta).is_zero() {
        // Can't happen if the checks above passed; refuse to emit garbage.
        return Err(ProveError::Unsatisfied);
    }
    proof {
        lemma_linearisation_len(
            *pk,
            z@,
            seq![t[0]@, t[1]@, t[2]@],
            evaluation_values(evals),
            poly_eval(pi@, zeta@),
            beta@,
            gamma@,
            alpha@,
            zeta@,
        );
    }
    let polys = [&r, &wires[0], &wires[1], &wires[2], &pk.s_sigma[0].poly, &pk.s_sigma[1].poly];
    proof {
        assert(poly_views(polys@) =~= seq![r@, tr.wires[0], tr.wires[1], tr.wires[2], pk.s_sigma[0].poly@, pk.s_sigma[1].poly@]);
    }
    let w_zeta = srs.open_batch(&polys, &zeta, &v);
    let w_zeta_omega = srs.open_at(&z, &zw);
    let p = Proof {
        a: wc[0],
        b: wc[1],
        c: wc[2],
        z: cz,
        t_lo: tc[0],
        t_mid: tc[1],
        t_hi: tc[2],
        evals,
        w_zeta,
        w_zeta_omega,
    };
    proof {
        assert forall|tau: nat| #[trigger] powers_of_tau(srs.powers_of_g@, tau, srs.powers_of_g@.len()) implies proof_in_exponent(
            p,
            trace_exponents(*pk, tr, tau),
        ) by {
            let pe = trace_exponents(*pk, tr, tau);
            assert(opened_at_zeta(*pk, tr) == fold_polys(poly_views(polys@), v@, polys@.len() as nat));
            assert forall|j: int| 0 <= j < 9 implies #[trigger] pe[j] < modulus() by {
                crate::evaluation::lemma_eval_reduced(tr.wires[0], tau);
                crate::evaluation::lemma_eval_reduced(tr.wires[1], tau);
                crate::evaluation::lemma_eval_reduced(tr.wires[2], tau);
                crate::evaluation::lemma_eval_reduced(tr.z, tau);
                crate::evaluation::lemma_eval_reduced(tr.t[0], tau);
                crate::evaluation::lemma_eval_reduced(tr.t[1], tau);
                crate::evaluation::lemma_eval_reduced(tr.t[2], tau);
                crate::evaluation::lemma_eval_reduced(open_quotient(opened_at_zeta(*pk, tr), tr.zeta), tau);
                crate::evaluation::lemma_eval_reduced(
                    open_quotient(tr.z, fmul(tr.zeta, pk.domain.spec_group_gen())),
                    tau,
                );
            }
        }
    }
    Ok(p)
}

/// Run all five rounds with the given blinding scalars `bl` (two for each
/// wire polynomial, three for `z`, two between the pieces of `t`) and
/// produce a proof.
pub fn prove_with_blinders(srs: &Srs, pk: &ProverKey, circuit: &Circuit, bl: &[Scalar]) -> (r: Result<Proof, ProveError>)
    requires
        circuit.wf(),
        pk_shapes(*pk),
        bl@.len() == 11,
        circuit.spec_public_inputs().len() == pk.vk.num_public_inputs && circuit.spec_gates().len()
            <= pk.domain.spec_size() && circuit.spec_is_satisfied() ==> srs.powers_of_g@.len()
            >= pk.domain.spec_size() + 6,
    ensures
        ({
            let n = pk.domain.spec_size();
            let count_ok = circuit.spec_public_inputs().len() == pk.vk.num_public_inputs;
            let size_ok = circuit.spec_gates().len() <= n;
            let tr = prover_trace(*srs, *pk, *circuit, vals(bl@));
            &&& (r matches Err(ProveError::PublicInputCount { expected, got }) <==> !count_ok)
            &&& (r matches Err(ProveError::PublicInputCount { expected, got }) ==> expected == pk.vk.num_public_inputs
                && got == circuit.spec_public_inputs().len())
            &&& (r matches Err(ProveError::TooManyGates { max, got }) <==> count_ok && !size_ok)
            &&& (r matches Err(ProveError::TooManyGates { max, got }) ==> max == n && got == circuit.spec_gates().len())
            &&& (r matches Err(ProveError::Unsatisfied) <==> count_ok && size_ok && (!circuit.spec_is_satisfied()
                || !trace_succeeds(tr, n)))
            &&& (r matches Ok(p) ==> proof_of_trace(p, tr))
            &&& (r matches Ok(p) ==> forall|tau: nat|
                #[trigger] powers_of_tau(srs.powers_of_g@, tau, srs.powers_of_g@.len()) ==> proof_in_exponent(
                    p,
                    trace_exponents(*pk, tr, tau),
                ))
        }),
{
    let n = pk.domain.size();
    if circuit.num_public_inputs() != pk.vk.num_public_inputs {
        return Err(
            ProveError::PublicInputCount { expected: pk.vk.num_public_inputs, got: circuit.num_public_inputs() },
        );
    }
    if circuit.num_gates() > n {
        return Err(ProveError::TooManyGates { max: n, got: circuit.num_gates() });
    }
    // Gate by gate check now; the copy constraints are checked when the
    // accumulator is built. Cheaper and more reliable than trying to infer
    // it from the quotient computation.
    if !circuit.is_satisfied() {
        return Err(ProveError::Unsatisfied);
    }
    let public_inputs = circuit.public_inputs();
    proof {
        assert(vals(public_inputs@) =~= public_values(*circuit));
    }
    let ghost tr = prover_trace(*srs, *pk, *circuit, vals(bl@));
    let st = match commit_rounds(srs, pk, circuit, bl, &public_inputs) {
        Ok(st) => st,
        Err(e) => {
            return Err(e);
        },
    };
    proof {
        lemma_trace_steps(*srs, *pk, *circuit, vals(bl@));
    }
    open_rounds(srs, pk, st, Ghost(tr))
}

/// Run all five rounds and produce a proof, with blinding scalars drawn
/// from `rng`.
pub fn prove<R: RngCore>(srs: &Srs, pk: &ProverKey, circuit: &Circuit, rng: &mut R) -> (r: Result<Proof, ProveError>)
    requires
        circuit.wf(),
        pk_shapes(*pk),
        circuit.spec_public_inputs().len() == pk.vk.num_public_inputs && circuit.spec_gates().len()
            <= pk.domain.spec_size() && circuit.spec_is_satisfied() ==> srs.powers_of_g@.len()
            >= pk.domain.spec_size() + 6,
    ensures
        ({
            let n = pk.domain.spec_size();
            let count_ok = circuit.spec_public_inputs().len() == pk.vk.num_public_inputs;
            let size_ok = circuit.spec_gates().len() <= n;
            &&& (r matches Err(ProveError::PublicInputCount { expected, got }) <==> !count_ok)
            &&& (r matches Err(ProveError::PublicInputCount { expected, got }) ==> expected == pk.vk.num_public_inputs
                && got == circuit.spec_public_inputs().len())
            &&& (r matches Err(ProveError::TooManyGates { max, got }) <==> count_ok && !size_ok)
            &&& (r matches Err(ProveError::TooManyGates { max, got }) ==> max == n && got == circuit.spec_gates().len())
            &&& (count_ok && size_ok && !circuit.spec_is_satisfied() ==> r == Err::<Proof, ProveError>(
                ProveError::Unsatisfied,
            ))
            &&& (r matches Err(ProveError::Unsatisfied) ==> count_ok && size_ok && (!circuit.spec_is_satisfied()
                || exists|bl: Seq<nat>|
                bl.len() == 11 && !#[trigger] trace_succeeds(prover_trace(*srs, *pk, *circuit, bl), n)))
            &&& (r matches Ok(p) ==> exists|bl: Seq<nat>|
                bl.len() == 11 && (forall|k: int| 0 <= k < 11 ==> bl[k] != 0) && #[trigger] trace_succeeds(
                    prover_trace(*srs, *pk, *circuit, bl),
                    n,
                )
                    && proof_of_trace(p, prover_trace(*srs, *pk, *circuit, bl)) && forall|tau: nat|
                    #[trigger] powers_of_tau(srs.powers_of_g@, tau, srs.powers_of_g@.len()) ==> proof_in_exponent(
                        p,
                        trace_exponents(*pk, prover_trace(*srs, *pk, *circuit, bl), tau),
                    ))
            &&& (!count_ok || !size_ok || !circuit.spec_is_satisfied() ==> *final(rng) == *old(rng))
        }),
{
    let n = pk.domain.size();
    if circuit.num_public_inputs() != pk.vk.num_public_inputs {
        return Err(
            ProveError::PublicInputCount { expected: pk.vk.num_public_inputs, got: circuit.num_public_inputs() },
        );
    }
    if circuit.num_gates() > n {
        return Err(ProveError::TooManyGates { max: n, got: circuit.num_gates() });
    }
    if !circuit.is_satisfied() {
        return Err(ProveError::Unsatisfied);
    }
    // Every blinding scalar is nonzero (a zero draw is replaced by one), so
    // every mask really hides what it blinds.
    let mut bl: Vec<Scalar> = Vec::new();
    for _i in 0..11usize
        invariant
            bl@.len() == _i,
            forall|k: int| 0 <= k < bl@.len() ==> (#[trigger] bl@[k])@ != 0,
    {
        let x = Scalar::random(rng);
        if x.is_zero() {
            bl.push(Scalar::one());
        } else {
            bl.push(x);
        }
    }
    let r = prove_with_blinders(srs, pk, circuit, bl.as_slice());
    proof {
        let b = vals(bl@);
        let tr = prover_trace(*srs, *pk, *circuit, b);
        assert(b.len() == 11);
        assert forall|k: int| 0 <= k < 11 implies b[k] != 0 by {
            assert(b[k] == bl@[k]@);
        }
        if r is Ok {
            assert(trace_succeeds(tr, n as nat));
        } else {
            assert(!trace_succeeds(tr, n as nat));
        }
    }
    r
}

} // verus!
