//! Turn a circuit into prover and verifier keys.

use vstd::prelude::*;
use vstd::string::StringSliceAdditionalSpecFns;
use crate::circuit::{Circuit, Gate};
use crate::curve::g1_views;
use crate::field::{Scalar, vals, fsub, fmul, fpow, finv, le_bytes, copy_range};
use crate::kzg::{self, Commitment, Srs};
use crate::permutation::{Permutation, coset_generators, is_first_k1, is_first_k2, is_cycle_map, wire_slots, in_subgroup, lemma_coset_generators_unique, lemma_cycle_map_unique};
use crate::poly::{poly_eval, spec_root_of_unity, lemma_usize_top, lemma_pow2_double, lemma_pow2_below, lemma_pow2_ceil_exact, Domain, Poly, coeff, interpolate, is_pow2, max_domain_size, spec_ifft, spec_fft, trim, lemma_trim_props};
use crate::transcript::{Transcript, absorb_state, initial_state, scalars_bytes};
use crate::curve::spec_g1_msm;

verus! {

/// A polynomial fixed by the circuit, kept in every form the prover needs so
/// nothing about the circuit is recomputed per proof.
#[derive(Clone, Debug)]
pub struct Fixed {
    pub poly: Poly,
    /// Evaluations over the domain `H`.
    pub on_h: Vec<Scalar>,
    /// Evaluations over the 4n coset used for the quotient.
    pub on_coset: Vec<Scalar>,
}

/// `s` cut or padded with zeros to length `n`.
pub open spec fn pad(s: Seq<nat>, n: nat) -> Seq<nat> {
    Seq::new(n, |i: int| coeff(s, i))
}

/// `f` holds the values `values` (padded to the domain) on `H`, the
/// polynomial interpolating them, and its evaluations over the coset.
pub open spec fn fixed_from(f: Fixed, domain: Domain, coset: Domain, values: Seq<nat>) -> bool {
    &&& f.on_h@.len() == domain.spec_size()
    &&& f.on_coset@.len() == coset.spec_size()
    &&& f.poly@.len() <= domain.spec_size()
    &&& vals(f.on_h@) == pad(values, domain.spec_size())
    &&& f.poly@ == trim(spec_ifft(domain.spec_size(), domain.spec_offset(), pad(values, domain.spec_size())))
    &&& vals(f.on_coset@) == spec_fft(coset.spec_size(), coset.spec_offset(), f.poly@)
    &&& forall|i: int|
        0 <= i < domain.spec_size() ==> #[trigger] poly_eval(f.poly@, domain.spec_element(i as nat)) == coeff(values, i)
}

/// The table over the coset holds the polynomial's values at its points.
pub open spec fn on_coset_evals(f: Fixed, coset: Domain) -> bool {
    forall|i: int|
        0 <= i < coset.spec_size() ==> #[trigger] vals(f.on_coset@)[i] == poly_eval(f.poly@, coset.spec_element(i as nat))
}

/// Over an SRS of powers of `tau`, the key's commitments are its
/// polynomials at `tau`.
proof fn lemma_key_in_exponent(pk: ProverKey, srs: Srs)
    requires
        srs.powers_of_g@.len() >= 1,
        pk.vk.kzg.g == srs.powers_of_g@[0],
        crate::kzg::commitment_matches(srs.powers_of_g@, pk.vk.q_l.0@, pk.selectors[0].poly@),
        crate::kzg::commitment_matches(srs.powers_of_g@, pk.vk.q_r.0@, pk.selectors[1].poly@),
        crate::kzg::commitment_matches(srs.powers_of_g@, pk.vk.q_o.0@, pk.selectors[2].poly@),
        crate::kzg::commitment_matches(srs.powers_of_g@, pk.vk.q_m.0@, pk.selectors[3].poly@),
        crate::kzg::commitment_matches(srs.powers_of_g@, pk.vk.q_c.0@, pk.selectors[4].poly@),
        crate::kzg::commitment_matches(srs.powers_of_g@, pk.vk.s_sigma[0].0@, pk.s_sigma[0].poly@),
        crate::kzg::commitment_matches(srs.powers_of_g@, pk.vk.s_sigma[1].0@, pk.s_sigma[1].poly@),
        crate::kzg::commitment_matches(srs.powers_of_g@, pk.vk.s_sigma[2].0@, pk.s_sigma[2].poly@),
    ensures
        forall|tau: nat|
            #[trigger] crate::kzg::powers_of_tau(srs.powers_of_g@, tau, srs.powers_of_g@.len())
                ==> crate::proof_check::vk_in_exponent(pk.vk, crate::completeness::key_exponents(pk, tau)),
{
    assert forall|tau: nat| #[trigger] crate::kzg::powers_of_tau(srs.powers_of_g@, tau, srs.powers_of_g@.len()) implies crate::proof_check::vk_in_exponent(
        pk.vk,
        crate::completeness::key_exponents(pk, tau),
    ) by {
        let ke = crate::completeness::key_exponents(pk, tau);
        assert(srs.powers_of_g@[0]@ == crate::curve::spec_g1_gen_mul(fpow(tau, 0)));
        assert(fpow(tau, 0) == 1);
        assert forall|j: int| 0 <= j < 8 implies #[trigger] ke[j] < crate::field::modulus() by {
            crate::evaluation::lemma_eval_reduced(pk.selectors[0].poly@, tau);
            crate::evaluation::lemma_eval_reduced(pk.selectors[1].poly@, tau);
            crate::evaluation::lemma_eval_reduced(pk.selectors[2].poly@, tau);
            crate::evaluation::lemma_eval_reduced(pk.selectors[3].poly@, tau);
            crate::evaluation::lemma_eval_reduced(pk.selectors[4].poly@, tau);
            crate::evaluation::lemma_eval_reduced(pk.s_sigma[0].poly@, tau);
            crate::evaluation::lemma_eval_reduced(pk.s_sigma[1].poly@, tau);
            crate::evaluation::lemma_eval_reduced(pk.s_sigma[2].poly@, tau);
        }
    }
}

/// Selector `j` of a gate: `q_l, q_r, q_o, q_m, q_c` for `j = 0..5`.
pub open spec fn selector(g: Gate, j: int) -> nat {
    if j == 0 {
        g.q_l@
    } else if j == 1 {
        g.q_r@
    } else if j == 2 {
        g.q_o@
    } else if j == 3 {
        g.q_m@
    } else {
        g.q_c@
    }
}

/// Selector `j` of every gate, row by row.
pub open spec fn selector_column(gates: Seq<Gate>, j: int) -> Seq<nat> {
    Seq::new(gates.len(), |i: int| selector(gates[i], j))
}

#[derive(Clone, Debug)]
pub struct ProverKey {
    pub domain: Domain,
    /// Size 4n, shifted off `H` by the field's generator.
    pub coset: Domain,
    pub coset_points: Vec<Scalar>,
    /// `1 / Z_H(x)` for `x` on the coset. `x^n` only takes four values there
    /// (`g^n` times a fourth root of unity), so it's indexed by `i % 4`.
    pub z_h_inv_coset: [Scalar; 4],
    pub k1: Scalar,
    pub k2: Scalar,
    /// `q_l, q_r, q_o, q_m, q_c`
    pub selectors: [Fixed; 5],
    pub s_sigma: [Fixed; 3],
    /// Identity labels `k_col * omega^row`, column-major.
    pub id_labels: Vec<Scalar>,
    pub l1: Fixed,
    pub permutation: Permutation,
    pub vk: VerifierKey,
}

#[derive(Clone, Debug, PartialEq, Eq)]
pub struct VerifierKey {
    pub n: usize,
    pub k1: Scalar,
    pub k2: Scalar,
    pub q_l: Commitment,
    pub q_r: Commitment,
    pub q_o: Commitment,
    pub q_m: Commitment,
    pub q_c: Commitment,
    pub s_sigma: [Commitment; 3],
    pub num_public_inputs: usize,
    pub kzg: kzg::VerifierKey,
}

/// Why a circuit could not be preprocessed.
#[derive(Clone, Copy, Debug, PartialEq, Eq)]
pub enum PreprocessError {
    /// The field has no subgroup of the circuit's domain size.
    NoDomain { size: usize },
    /// The field has no subgroup of four times the domain size, which the
    /// quotient is computed over.
    NoQuotientDomain { size: usize },
    /// The SRS must reach degree `n + 5` for a domain of size `n`.
    SrsTooSmall { max_degree: usize, required: usize },
    /// No two small integers give cosets of `H` disjoint from it and each
    /// other.
    NoCosetGenerators,
    /// The vanishing polynomial of `H` is zero somewhere on the quotient's
    /// coset.
    CosetMeetsDomain,
}

/// The transcript state a key and public inputs start a proof in.
pub open spec fn vk_transcript_state(vk: VerifierKey, pi: Seq<nat>) -> Seq<u8> {
    let s = initial_state("plonk".spec_bytes());
    let s = absorb_state(s, "n".spec_bytes(), le_bytes(vk.n as nat, 8));
    let s = absorb_state(s, "k1".spec_bytes(), le_bytes(vk.k1@, 32));
    let s = absorb_state(s, "k2".spec_bytes(), le_bytes(vk.k2@, 32));
    let s = absorb_state(s, "q_l".spec_bytes(), crate::curve::spec_g1_compress(vk.q_l.0@));
    let s = absorb_state(s, "q_r".spec_bytes(), crate::curve::spec_g1_compress(vk.q_r.0@));
    let s = absorb_state(s, "q_o".spec_bytes(), crate::curve::spec_g1_compress(vk.q_o.0@));
    let s = absorb_state(s, "q_m".spec_bytes(), crate::curve::spec_g1_compress(vk.q_m.0@));
    let s = absorb_state(s, "q_c".spec_bytes(), crate::curve::spec_g1_compress(vk.q_c.0@));
    let s = absorb_state(s, "s_sigma1".spec_bytes(), crate::curve::spec_g1_compress(vk.s_sigma[0].0@));
    let s = absorb_state(s, "s_sigma2".spec_bytes(), crate::curve::spec_g1_compress(vk.s_sigma[1].0@));
    let s = absorb_state(s, "s_sigma3".spec_bytes(), crate::curve::spec_g1_compress(vk.s_sigma[2].0@));
    let s = absorb_state(s, "g".spec_bytes(), crate::curve::spec_g1_compress(vk.kzg.g@));
    let s = absorb_state(s, "h".spec_bytes(), crate::curve::spec_g2_compress(vk.kzg.h@));
    let s = absorb_state(s, "tau_h".spec_bytes(), crate::curve::spec_g2_compress(vk.kzg.tau_h@));
    absorb_state(s, "public inputs".spec_bytes(), le_bytes(pi.len(), 8) + scalars_bytes(pi))
}

impl VerifierKey {
    /// Start a transcript bound to this key and the public inputs. The
    /// prover and verifier both go through here so the challenges can't be
    /// independent of the circuit, which would let a prover who picks the
    /// circuit pick selectors that satisfy an arbitrary "proof".
    pub fn transcript(&self, public_inputs: &[Scalar]) -> (t: Transcript)
        ensures
            t@ == vk_transcript_state(*self, vals(public_inputs@)),
    {
        let mut t = Transcript::new("plonk".as_bytes());
        t.absorb("n".as_bytes(), &(self.n as u64));
        t.absorb("k1".as_bytes(), &self.k1);
        t.absorb("k2".as_bytes(), &self.k2);
        t.absorb("q_l".as_bytes(), &self.q_l.0);
        t.absorb("q_r".as_bytes(), &self.q_r.0);
        t.absorb("q_o".as_bytes(), &self.q_o.0);
        t.absorb("q_m".as_bytes(), &self.q_m.0);
        t.absorb("q_c".as_bytes(), &self.q_c.0);
        t.absorb("s_sigma1".as_bytes(), &self.s_sigma[0].0);
        t.absorb("s_sigma2".as_bytes(), &self.s_sigma[1].0);
        t.absorb("s_sigma3".as_bytes(), &self.s_sigma[2].0);
        t.absorb("g".as_bytes(), &self.kzg.g);
        t.absorb("h".as_bytes(), &self.kzg.h);
        t.absorb("tau_h".as_bytes(), &self.kzg.tau_h);
        let pi = copy_range(public_inputs, 0, public_inputs.len());
        proof {
            assert(pi@ =~= public_inputs@);
        }
        t.absorb("public inputs".as_bytes(), &pi);
        t
    }
}

/// Smallest domain we'll use. The blinded quotient has degree 3n+5 and is
/// recovered from 4n coset evaluations, which needs n >= 8.
pub const MIN_DOMAIN_SIZE: usize = 8;

/// `n` is the domain size for `num_gates` gates: the smallest power of two
/// that holds them, and at least `MIN_DOMAIN_SIZE`.
pub open spec fn is_domain_size(num_gates: nat, n: nat) -> bool {
    &&& is_pow2(n)
    &&& n >= num_gates
    &&& n >= MIN_DOMAIN_SIZE
    &&& (n == MIN_DOMAIN_SIZE || n / 2 < num_gates)
}

/// The domain size for `num_gates` gates.
pub open spec fn spec_domain_size(num_gates: nat) -> nat {
    choose|n: nat| is_domain_size(num_gates, n)
}

/// There is only one domain size for a number of gates.
pub proof fn lemma_domain_size_unique(g: nat, a: nat, b: nat)
    requires
        is_domain_size(g, a),
        is_domain_size(g, b),
    ensures
        a == b,
{
    if a < b {
        lemma_pow2_below(a, b);
    } else if b < a {
        lemma_pow2_below(b, a);
    }
}

/// Domain size for a circuit: gates padded to a power of two.
pub fn domain_size(num_gates: usize) -> (r: usize)
    requires
        num_gates <= usize::MAX / 2 + 1,
    ensures
        is_domain_size(num_gates as nat, r as nat),
        r == spec_domain_size(num_gates as nat),
        r <= usize::MAX / 2 + 1,
{
    let mut p: usize = 1;
    proof {
        lemma_usize_top();
    }
    while p < num_gates
        invariant
            num_gates <= usize::MAX / 2 + 1,
            is_pow2((usize::MAX / 2 + 1) as nat),
            is_pow2(p as nat),
            1 <= p <= usize::MAX / 2 + 1,
            p == 1 || p / 2 < num_gates,
        decreases usize::MAX - p,
    {
        proof {
            lemma_pow2_double(p as nat);
            lemma_pow2_below(p as nat, (usize::MAX / 2 + 1) as nat);
        }
        p = p * 2;
    }
    let r = if p < MIN_DOMAIN_SIZE {
        proof {
            assert(is_pow2(1));
            assert(is_pow2(2));
            assert(is_pow2(4));
            assert(is_pow2(8));
        }
        MIN_DOMAIN_SIZE
    } else {
        p
    };
    proof {
        let c = spec_domain_size(num_gates as nat);
        assert(is_domain_size(num_gates as nat, r as nat));
        assert(is_domain_size(num_gates as nat, c));
        lemma_domain_size_unique(num_gates as nat, r as nat, c);
    }
    r
}

/// The SRS degree a circuit with `num_gates` gates needs: the blinded
/// quotient's last chunk has degree `n + 5`.
pub fn required_srs_degree(num_gates: usize) -> (r: usize)
    requires
        num_gates <= usize::MAX / 2 + 1,
    ensures
        r == spec_domain_size(num_gates as nat) + 5,
{
    let n = domain_size(num_gates);
    n + 5
}

/// The values on `H` padded to the domain, their interpolation and its
/// evaluations over the coset.
fn fixed(domain: &Domain, coset: &Domain, on_h: Vec<Scalar>) -> (r: Fixed)
    requires
        on_h@.len() <= domain.spec_size(),
        domain.spec_size() <= coset.spec_size(),
    ensures
        fixed_from(r, *domain, *coset, vals(on_h@)),
        on_coset_evals(r, *coset),
        r.poly@.len() <= domain.spec_size(),
{
    let n = domain.size();
    let mut on_h = on_h;
    let ghost values = vals(on_h@);
    while on_h.len() < n
        invariant
            n == domain.spec_size(),
            on_h@.len() <= n,
            values.len() <= on_h@.len(),
            forall|i: int| 0 <= i < on_h@.len() ==> (#[trigger] on_h@[i])@ == coeff(values, i),
        decreases n - on_h@.len(),
    {
        on_h.push(Scalar::zero());
    }
    proof {
        assert(vals(on_h@) =~= pad(values, n as nat));
    }
    let poly = interpolate(domain, on_h.as_slice());
    let on_coset = coset.fft(poly.coeffs());
    proof {
        assert forall|i: int| 0 <= i < n implies #[trigger] poly_eval(poly@, domain.spec_element(i as nat)) == coeff(values, i) by {
            assert(coeff(vals(on_h@), i) == pad(values, n as nat)[i]);
        }
    }
    Fixed { poly, on_h, on_coset }
}

/// `Z_H(x) = x^n - 1`.
pub open spec fn z_h_at(x: nat, n: nat) -> nat {
    fsub(fpow(x, n), 1)
}

/// `1 / Z_H(x)`, if `Z_H(x)` is nonzero.
fn z_h_inverse(x: &Scalar, n: usize) -> (r: Option<Scalar>)
    ensures
        r is None <==> z_h_at(x@, n as nat) == 0,
        r matches Some(y) ==> y@ == finv(z_h_at(x@, n as nat)) && fmul(z_h_at(x@, n as nat), y@) == 1,
{
    x.pow(n as u64).minus(&Scalar::one()).inverse()
}

/// No two coset generators exist below `2^64 - 1` (see [`coset_generators`]).
pub open spec fn no_coset_generators(n: nat) -> bool {
    ||| (forall|c: nat| 2 <= c < u64::MAX ==> #[trigger] in_subgroup(c, n))
    ||| (exists|k1: nat|
        k1 < u64::MAX && #[trigger] is_first_k1(k1, n) && forall|c: nat|
            k1 < c < u64::MAX ==> #[trigger] in_subgroup(c, n) || in_subgroup(crate::field::fdiv(c, k1), n))
}

/// Coset generators below `2^64 - 1` rule out `no_coset_generators`.
proof fn lemma_generators_found(n: nat, k1: nat, k2: nat)
    requires
        is_first_k1(k1, n),
        is_first_k2(k1, k2, n),
        k1 < u64::MAX,
        k2 < u64::MAX,
    ensures
        !no_coset_generators(n),
{
    if forall|c: nat| 2 <= c < u64::MAX ==> #[trigger] in_subgroup(c, n) {
        assert(in_subgroup(k1, n));
    }
    if exists|j1: nat|
        j1 < u64::MAX && #[trigger] is_first_k1(j1, n) && forall|c: nat|
            j1 < c < u64::MAX ==> #[trigger] in_subgroup(c, n) || in_subgroup(crate::field::fdiv(c, j1), n) {
        let j1 = choose|j1: nat|
            j1 < u64::MAX && #[trigger] is_first_k1(j1, n) && forall|c: nat|
                j1 < c < u64::MAX ==> #[trigger] in_subgroup(c, n) || in_subgroup(crate::field::fdiv(c, j1), n);
        if j1 < k1 {
            assert(in_subgroup(j1, n));
        } else if k1 < j1 {
            assert(in_subgroup(k1, n));
        }
        assert(in_subgroup(k2, n) || in_subgroup(crate::field::fdiv(k2, k1), n));
    }
}

/// The quotient's domain of size `4n` does not exist.
pub open spec fn quotient_too_big(n: nat) -> bool {
    4 * n > max_domain_size() || 4 * n > usize::MAX / 2 + 1
}

/// The sizes the prover relies on: a domain of size `n >= 8` with the
/// quotient's coset of size `4n`, and every table of the key laid out for
/// them.
pub open spec fn pk_shapes(pk: ProverKey) -> bool {
    let n = pk.domain.spec_size();
    &&& n >= MIN_DOMAIN_SIZE
    &&& pk.vk.n == n
    &&& pk.domain.spec_offset() == 1
    &&& pk.coset.spec_size() == 4 * n
    &&& pk.coset_points@.len() == 4 * n
    &&& pk.id_labels@.len() == 3 * n
    &&& forall|j: int| 0 <= j < 5 ==> (#[trigger] pk.selectors[j]).on_h@.len() == n && pk.selectors[j].on_coset@.len() == 4 * n
        && pk.selectors[j].poly@.len() <= n
    &&& forall|j: int| 0 <= j < 3 ==> (#[trigger] pk.s_sigma[j]).on_h@.len() == n && pk.s_sigma[j].on_coset@.len() == 4 * n
        && pk.s_sigma[j].poly@.len() <= n
    &&& pk.l1.on_h@.len() == n
    &&& pk.l1.on_coset@.len() == 4 * n
    &&& pk.l1.poly@.len() <= n
    &&& fpow(pk.domain.spec_group_gen(), n) == 1
    &&& coset_tables(pk)
}

/// The key's tables over the quotient coset: each fixed polynomial's values
/// at its points, the points themselves, and `1 / Z_H` at the first four
/// (`Z_H` repeats with period four there).
#[verifier::opaque]
pub open spec fn coset_tables(pk: ProverKey) -> bool {
    let n = pk.domain.spec_size();
    &&& forall|j: int| 0 <= j < 5 ==> on_coset_evals(#[trigger] pk.selectors[j], pk.coset)
    &&& forall|j: int| 0 <= j < 3 ==> on_coset_evals(#[trigger] pk.s_sigma[j], pk.coset)
    &&& on_coset_evals(pk.l1, pk.coset)
    &&& forall|i: int| 0 <= i < pk.coset.spec_size() ==> (#[trigger] pk.coset_points@[i])@ == pk.coset.spec_element(i as nat)
    &&& forall|i: int|
        0 <= i < 4 ==> fmul(z_h_at(#[trigger] pk.coset.spec_element(i as nat), n), pk.z_h_inv_coset[i]@) == 1
}

/// `pk` is the key for `circuit` over the SRS `srs`.
pub open spec fn is_prover_key(pk: ProverKey, circuit: Circuit, srs: Srs) -> bool {
    let gates = circuit.spec_gates();
    let n = pk.vk.n as nat;
    &&& pk_shapes(pk)
    &&& srs.powers_of_g@.len() >= n + 6
    &&& n == spec_domain_size(gates.len())
    &&& is_domain_size(gates.len(), n)
    &&& pk.domain.spec_size() == n
    &&& pk.domain.spec_offset() == 1
    &&& pk.domain.spec_group_gen() == spec_root_of_unity(n)
    &&& pk.coset.spec_size() == 4 * n
    &&& pk.coset.spec_offset() == 7
    &&& pk.coset_points@.len() == 4 * n
    &&& forall|i: int| 0 <= i < 4 * n ==> (#[trigger] pk.coset_points@[i])@ == pk.coset.spec_element(i as nat)
    &&& forall|i: int| 0 <= i < 4 ==> {
        &&& z_h_at(#[trigger] pk.coset.spec_element(i as nat), n) != 0
        &&& pk.z_h_inv_coset[i]@ == finv(z_h_at(pk.coset.spec_element(i as nat), n))
    }
    &&& pk.k1 == pk.vk.k1
    &&& pk.k2 == pk.vk.k2
    &&& is_first_k1(pk.k1@, n)
    &&& is_first_k2(pk.k1@, pk.k2@, n)
    &&& forall|j: int| 0 <= j < 5 ==> fixed_from(#[trigger] pk.selectors[j], pk.domain, pk.coset, selector_column(gates, j))
    &&& pk.permutation.spec_n() == n
    &&& pk.permutation.wf()
    &&& is_cycle_map(wire_slots(gates, n), pk.permutation.spec_sigma())
    &&& forall|j: int|
        0 <= j < 3 ==> fixed_from(
            #[trigger] pk.s_sigma[j],
            pk.domain,
            pk.coset,
            pk.permutation.perm_column(pk.domain, pk.k1@, pk.k2@, j),
        )
    &&& pk.id_labels@.len() == 3 * n
    &&& forall|pos: int|
        0 <= pos < 3 * n ==> (#[trigger] pk.id_labels@[pos])@ == Permutation::spec_id_label(pk.domain, pk.k1@, pk.k2@, pos)
    &&& fixed_from(pk.l1, pk.domain, pk.coset, seq![1nat])
    &&& pk.vk.q_l.0@ == kzg::commitment_of(srs.powers_of_g@, pk.selectors[0].poly@)
    &&& pk.vk.q_r.0@ == kzg::commitment_of(srs.powers_of_g@, pk.selectors[1].poly@)
    &&& pk.vk.q_o.0@ == kzg::commitment_of(srs.powers_of_g@, pk.selectors[2].poly@)
    &&& pk.vk.q_m.0@ == kzg::commitment_of(srs.powers_of_g@, pk.selectors[3].poly@)
    &&& pk.vk.q_c.0@ == kzg::commitment_of(srs.powers_of_g@, pk.selectors[4].poly@)
    &&& forall|j: int| 0 <= j < 3 ==> (#[trigger] pk.vk.s_sigma[j]).0@ == kzg::commitment_of(srs.powers_of_g@, pk.s_sigma[j].poly@)
    &&& pk.vk.num_public_inputs == circuit.spec_public_inputs().len()
    &&& pk.vk.kzg.g == srs.powers_of_g@[0]
    &&& pk.vk.kzg.h == srs.h
    &&& pk.vk.kzg.tau_h == srs.tau_h
}

/// The selector polynomials take each gate's selectors on its row of the
/// domain and zero on the padding rows; the permutation polynomials take
/// the labels of the slots the copy permutation sends each row to.
pub proof fn lemma_fixed_polys_on_domain(pk: ProverKey, circuit: Circuit, srs: Srs, i: int)
    requires
        is_prover_key(pk, circuit, srs),
        0 <= i < pk.domain.spec_size(),
    ensures
        forall|j: int|
            0 <= j < 5 ==> #[trigger] poly_eval(pk.selectors[j].poly@, pk.domain.spec_element(i as nat)) == if i
                < circuit.spec_gates().len() {
                selector(circuit.spec_gates()[i], j)
            } else {
                0
            },
        forall|col: int|
            0 <= col < 3 ==> #[trigger] poly_eval(pk.s_sigma[col].poly@, pk.domain.spec_element(i as nat))
                == Permutation::spec_id_label(
                pk.domain,
                pk.k1@,
                pk.k2@,
                pk.permutation.spec_sigma()[col * pk.domain.spec_size() + i] as int,
            ),
{
    assert forall|j: int| 0 <= j < 5 implies #[trigger] poly_eval(pk.selectors[j].poly@, pk.domain.spec_element(i as nat))
        == if i < circuit.spec_gates().len() {
        selector(circuit.spec_gates()[i], j)
    } else {
        0
    } by {
        assert(fixed_from(pk.selectors[j], pk.domain, pk.coset, selector_column(circuit.spec_gates(), j)));
    }
    assert forall|col: int| 0 <= col < 3 implies #[trigger] poly_eval(pk.s_sigma[col].poly@, pk.domain.spec_element(i as nat))
        == Permutation::spec_id_label(
        pk.domain,
        pk.k1@,
        pk.k2@,
        pk.permutation.spec_sigma()[col * pk.domain.spec_size() + i] as int,
    ) by {
        assert(fixed_from(pk.s_sigma[col], pk.domain, pk.coset, pk.permutation.perm_column(pk.domain, pk.k1@, pk.k2@, col)));
    }
}

/// Preprocessing reads the gates and never the witness: keys made over one
/// SRS for two circuits with the same gates have the same selector and
/// permutation commitments and the same copy permutation.
pub proof fn lemma_key_is_witness_independent(pa: ProverKey, ca: Circuit, pb: ProverKey, cb: Circuit, srs: Srs)
    requires
        is_prover_key(pa, ca, srs),
        is_prover_key(pb, cb, srs),
        ca.spec_gates() == cb.spec_gates(),
    ensures
        pa.vk.n == pb.vk.n,
        pa.vk.k1@ == pb.vk.k1@,
        pa.vk.k2@ == pb.vk.k2@,
        pa.vk.q_l.0@ == pb.vk.q_l.0@,
        pa.vk.q_r.0@ == pb.vk.q_r.0@,
        pa.vk.q_o.0@ == pb.vk.q_o.0@,
        pa.vk.q_m.0@ == pb.vk.q_m.0@,
        pa.vk.q_c.0@ == pb.vk.q_c.0@,
        forall|j: int| 0 <= j < 3 ==> (#[trigger] pa.vk.s_sigma[j]).0@ == pb.vk.s_sigma[j].0@,
        pa.permutation.spec_sigma() == pb.permutation.spec_sigma(),
{
    let gates = ca.spec_gates();
    let n = pa.vk.n as nat;
    lemma_coset_generators_unique(n, pa.k1@, pa.k2@, pb.k1@, pb.k2@);
    lemma_cycle_map_unique(wire_slots(gates, n), pa.permutation.spec_sigma(), pb.permutation.spec_sigma());
    assert forall|j: int| 0 <= j < 5 implies (#[trigger] pa.selectors[j]).poly@ == pb.selectors[j].poly@ by {
        assert(fixed_from(pa.selectors[j], pa.domain, pa.coset, selector_column(gates, j)));
        assert(fixed_from(pb.selectors[j], pb.domain, pb.coset, selector_column(gates, j)));
    }
    assert(pa.selectors[0].poly@ == pb.selectors[0].poly@);
    assert(pa.selectors[1].poly@ == pb.selectors[1].poly@);
    assert(pa.selectors[2].poly@ == pb.selectors[2].poly@);
    assert(pa.selectors[3].poly@ == pb.selectors[3].poly@);
    assert(pa.selectors[4].poly@ == pb.selectors[4].poly@);
    assert forall|j: int| 0 <= j < 3 implies (#[trigger] pa.vk.s_sigma[j]).0@ == pb.vk.s_sigma[j].0@ by {
        let ca_col = pa.permutation.perm_column(pa.domain, pa.k1@, pa.k2@, j);
        let cb_col = pb.permutation.perm_column(pb.domain, pb.k1@, pb.k2@, j);
        assert(ca_col =~= cb_col);
        assert(fixed_from(pa.s_sigma[j], pa.domain, pa.coset, ca_col));
        assert(fixed_from(pb.s_sigma[j], pb.domain, pb.coset, cb_col));
    }
}

/// Element `i` of the quotient's coset for a domain of size `n`: the
/// field's generator 7 times `omega_{4n}^i`.
pub open spec fn quotient_coset_element(n: nat, i: nat) -> nat {
    crate::field::fmul(fpow(crate::poly::spec_root_of_unity(4 * n), i), 7)
}

/// Build the keys for `circuit` over `srs`.
#[verifier::rlimit(100)]
#[verifier::spinoff_prover]
pub fn preprocess(circuit: &Circuit, srs: &Srs) -> (r: Result<ProverKey, PreprocessError>)
    requires
        circuit.wf(),
        circuit.spec_gates().len() <= usize::MAX / 2 + 1,
    ensures
        ({
            let n = spec_domain_size(circuit.spec_gates().len());
            &&& (r matches Err(PreprocessError::NoDomain { size }) <==> n > max_domain_size())
            &&& (r matches Err(PreprocessError::NoDomain { size }) ==> size == n)
            &&& (r matches Err(PreprocessError::SrsTooSmall { max_degree, required }) <==> n <= max_domain_size()
                && srs.powers_of_g@.len() < n + 6)
            &&& (r matches Err(PreprocessError::SrsTooSmall { max_degree, required }) ==> required == n + 5
                && max_degree == (if srs.powers_of_g@.len() == 0 { 0 } else { srs.powers_of_g@.len() - 1 }))
            &&& (r matches Err(PreprocessError::NoCosetGenerators) <==> n <= max_domain_size() && srs.powers_of_g@.len()
                >= n + 6 && no_coset_generators(n))
            &&& (r matches Err(PreprocessError::NoQuotientDomain { size }) <==> n <= max_domain_size()
                && srs.powers_of_g@.len() >= n + 6 && !no_coset_generators(n) && quotient_too_big(n))
            &&& (r matches Err(PreprocessError::NoQuotientDomain { size }) ==> size == n)
            &&& (r matches Err(PreprocessError::CosetMeetsDomain) <==> n <= max_domain_size() && srs.powers_of_g@.len()
                >= n + 6 && !no_coset_generators(n) && !quotient_too_big(n) && exists|i: nat|
                i < 4 && #[trigger] z_h_at(quotient_coset_element(n, i), n) == 0)
            &&& (r is Ok <==> n <= max_domain_size() && srs.powers_of_g@.len() >= n + 6 && !no_coset_generators(n)
                && !quotient_too_big(n) && forall|i: nat| i < 4 ==> #[trigger] z_h_at(quotient_coset_element(n, i), n)
                != 0)
            &&& (r matches Ok(pk) ==> is_prover_key(pk, *circuit, *srs))
            &&& (r matches Ok(pk) ==> forall|tau: nat|
                #[trigger] crate::kzg::powers_of_tau(srs.powers_of_g@, tau, srs.powers_of_g@.len()) ==> crate::proof_check::vk_in_exponent(
                    pk.vk,
                    crate::completeness::key_exponents(pk, tau),
                ))
        }),
{
    let num_gates = circuit.num_gates();
    let n = domain_size(num_gates);
    let domain = match Domain::new(n) {
        Some(d) => d,
        None => {
            return Err(PreprocessError::NoDomain { size: n });
        },
    };
    proof {
        lemma_pow2_ceil_exact(n as nat, domain.spec_size());
    }
    // the blinded quotient's last chunk has degree n+5
    if srs.powers_of_g.len() < n + 6 {
        let max_degree = if srs.powers_of_g.len() == 0 {
            0
        } else {
            srs.powers_of_g.len() - 1
        };
        return Err(PreprocessError::SrsTooSmall { max_degree, required: n + 5 });
    }
    let (k1, k2) = match coset_generators(&domain) {
        Some(k) => k,
        None => {
            return Err(PreprocessError::NoCosetGenerators);
        },
    };
    proof {
        lemma_generators_found(n as nat, k1@, k2@);
    }
    if n > usize::MAX / 4 || n > 1073741824 {
        return Err(PreprocessError::NoQuotientDomain { size: n });
    }
    proof {
        lemma_pow2_double(n as nat);
        lemma_pow2_double(2 * n as nat);
    }
    let big = match Domain::new(4 * n) {
        Some(d) => d,
        None => {
            return Err(PreprocessError::NoQuotientDomain { size: n });
        },
    };
    proof {
        lemma_pow2_ceil_exact(4 * n as nat, big.spec_size());
    }
    let coset = match big.get_coset(Scalar::generator()) {
        Some(d) => d,
        None => {
            return Err(PreprocessError::NoQuotientDomain { size: n });
        },
    };
    let coset_points = coset.elements();
    let z0 = match z_h_inverse(&coset_points[0], n) {
        Some(x) => x,
        None => {
            proof {
                assert(coset_points@[0]@ == quotient_coset_element(n as nat, 0));
                assert(z_h_at(quotient_coset_element(n as nat, 0), n as nat) == 0);
            }
            return Err(PreprocessError::CosetMeetsDomain);
        },
    };
    let z1 = match z_h_inverse(&coset_points[1], n) {
        Some(x) => x,
        None => {
            proof {
                assert(coset_points@[1]@ == quotient_coset_element(n as nat, 1));
                assert(z_h_at(quotient_coset_element(n as nat, 1), n as nat) == 0);
            }
            return Err(PreprocessError::CosetMeetsDomain);
        },
    };
    let z2 = match z_h_inverse(&coset_points[2], n) {
        Some(x) => x,
        None => {
            proof {
                assert(coset_points@[2]@ == quotient_coset_element(n as nat, 2));
                assert(z_h_at(quotient_coset_element(n as nat, 2), n as nat) == 0);
            }
            return Err(PreprocessError::CosetMeetsDomain);
        },
    };
    let z3 = match z_h_inverse(&coset_points[3], n) {
        Some(x) => x,
        None => {
            proof {
                assert(coset_points@[3]@ == quotient_coset_element(n as nat, 3));
                assert(z_h_at(quotient_coset_element(n as nat, 3), n as nat) == 0);
            }
            return Err(PreprocessError::CosetMeetsDomain);
        },
    };
    let z_h_inv_coset = [z0, z1, z2, z3];

    let gates = circuit.gates();
    let mut c0: Vec<Scalar> = Vec::new();
    let mut c1: Vec<Scalar> = Vec::new();
    let mut c2: Vec<Scalar> = Vec::new();
    let mut c3: Vec<Scalar> = Vec::new();
    let mut c4: Vec<Scalar> = Vec::new();
    for i in 0..gates.len()
        invariant
            gates@ == circuit.spec_gates(),
            c0@.len() == i && c1@.len() == i && c2@.len() == i && c3@.len() == i && c4@.len() == i,
            forall|r: int| 0 <= r < i ==> (#[trigger] c0@[r])@ == selector(gates@[r], 0),
            forall|r: int| 0 <= r < i ==> (#[trigger] c1@[r])@ == selector(gates@[r], 1),
            forall|r: int| 0 <= r < i ==> (#[trigger] c2@[r])@ == selector(gates@[r], 2),
            forall|r: int| 0 <= r < i ==> (#[trigger] c3@[r])@ == selector(gates@[r], 3),
            forall|r: int| 0 <= r < i ==> (#[trigger] c4@[r])@ == selector(gates@[r], 4),
    {
        let g = gates[i];
        c0.push(g.q_l);
        c1.push(g.q_r);
        c2.push(g.q_o);
        c3.push(g.q_m);
        c4.push(g.q_c);
    }
    proof {
        assert(vals(c0@) =~= selector_column(gates@, 0));
        assert(vals(c1@) =~= selector_column(gates@, 1));
        assert(vals(c2@) =~= selector_column(gates@, 2));
        assert(vals(c3@) =~= selector_column(gates@, 3));
        assert(vals(c4@) =~= selector_column(gates@, 4));
    }
    let f0 = fixed(&domain, &coset, c0);
    let f1 = fixed(&domain, &coset, c1);
    let f2 = fixed(&domain, &coset, c2);
    let f3 = fixed(&domain, &coset, c3);
    let f4 = fixed(&domain, &coset, c4);

    let permutation = Permutation::from_circuit(circuit, n);
    let (id_labels, perm_labels) = permutation.labels(&domain, &k1, &k2);
    let p0 = copy_range(perm_labels.as_slice(), 0, n);
    let p1 = copy_range(perm_labels.as_slice(), n, 2 * n);
    let p2 = copy_range(perm_labels.as_slice(), 2 * n, 3 * n);
    proof {
        assert forall|col: int| 0 <= col < 3 implies vals(perm_labels@.subrange(col * n, (col + 1) * n))
            =~= permutation.perm_column(domain, k1@, k2@, col) by {
            assert forall|row: int| 0 <= row < n implies #[trigger] vals(perm_labels@.subrange(col * n, (col + 1) * n))[row]
                == permutation.perm_column(domain, k1@, k2@, col)[row] by {
                assert(0 <= col * n + row < 3 * n) by (nonlinear_arith)
                    requires 0 <= col < 3, 0 <= row < n;
                assert((col + 1) * n == col * n + n) by (nonlinear_arith);
                assert(perm_labels@[col * n + row] == id_labels@[permutation.spec_sigma()[col * n + row] as int]);
            }
            assert((col + 1) * n - col * n == n) by (nonlinear_arith);
        }
        assert(p0@ == perm_labels@.subrange(0 * n, (0 + 1) * n));
        assert(p1@ == perm_labels@.subrange(1 * n, (1 + 1) * n));
        assert(p2@ == perm_labels@.subrange(2 * n, (2 + 1) * n));
    }
    let s0 = fixed(&domain, &coset, p0);
    let s1 = fixed(&domain, &coset, p1);
    let s2 = fixed(&domain, &coset, p2);

    let mut l1_on_h: Vec<Scalar> = Vec::new();
    l1_on_h.push(Scalar::one());
    proof {
        assert(vals(l1_on_h@) =~= seq![1nat]);
    }
    let l1 = fixed(&domain, &coset, l1_on_h);

    let vk = VerifierKey {
        n,
        k1,
        k2,
        q_l: srs.commit(&f0.poly),
        q_r: srs.commit(&f1.poly),
        q_o: srs.commit(&f2.poly),
        q_m: srs.commit(&f3.poly),
        q_c: srs.commit(&f4.poly),
        s_sigma: [srs.commit(&s0.poly), srs.commit(&s1.poly), srs.commit(&s2.poly)],
        num_public_inputs: circuit.num_public_inputs(),
        kzg: srs.verifier_key(),
    };
    let pk = ProverKey {
        domain,
        coset,
        coset_points,
        z_h_inv_coset,
        k1,
        k2,
        selectors: [f0, f1, f2, f3, f4],
        s_sigma: [s0, s1, s2],
        id_labels,
        l1,
        permutation,
        vk,
    };
    pk.domain.lemma_wf();
    proof {
        reveal(coset_tables);
        lemma_key_in_exponent(pk, *srs);
    }
    Ok(pk)
}

} // verus!
