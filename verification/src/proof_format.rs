//! Proof struct and its wire format.
//!
//! The encoding is arkworks' compressed canonical one: each point as its
//! compressed encoding, each scalar as 32 little-endian bytes. Decoding
//! validates that every point is on the curve and in the prime-order
//! subgroup, which the pairing check relies on, and that every scalar is
//! canonical.

use vstd::prelude::*;
use crate::curve::{G1, spec_g1_compress, spec_g1_decompress};
use crate::field::{Scalar, fadd, fmul, le_bytes, le_value, modulus, copy_range};
use crate::kzg::{Commitment, OpeningProof};
use crate::transcript::TranscriptBytes;

verus! {

/// The evaluations the verifier needs. Everything else is folded into the
/// linearisation polynomial `r(X)`, which the verifier reconstructs as a
/// commitment and checks opens to zero at `zeta`.
#[derive(Clone, Copy, Debug, PartialEq, Eq)]
pub struct Evaluations {
    pub a: Scalar,
    pub b: Scalar,
    pub c: Scalar,
    pub s_sigma1: Scalar,
    pub s_sigma2: Scalar,
    pub z_omega: Scalar,
}

/// `x + beta * y + gamma`.
pub open spec fn perm_term(x: nat, beta: nat, y: nat, gamma: nat) -> nat {
    fadd(fadd(x, fmul(beta, y)), gamma)
}

/// The identity side of the grand product at `zeta`, from the evaluations
/// `e = [a, b, c, S_sigma1, S_sigma2, z_omega]`:
/// `(a + beta zeta + gamma)(b + beta k1 zeta + gamma)(c + beta k2 zeta + gamma)`.
pub open spec fn perm_f_vals(e: Seq<nat>, beta: nat, gamma: nat, zeta: nat, k1: nat, k2: nat) -> nat {
    fmul(
        fmul(perm_term(e[0], beta, zeta, gamma), perm_term(e[1], beta, fmul(k1, zeta), gamma)),
        perm_term(e[2], beta, fmul(k2, zeta), gamma),
    )
}

/// The known part of the permuted side at `zeta`:
/// `(a + beta S_sigma1 + gamma)(b + beta S_sigma2 + gamma)`.
pub open spec fn perm_g_partial_vals(e: Seq<nat>, beta: nat, gamma: nat) -> nat {
    fmul(perm_term(e[0], beta, e[3], gamma), perm_term(e[1], beta, e[4], gamma))
}

pub open spec fn spec_perm_f(ev: Evaluations, beta: nat, gamma: nat, zeta: nat, k1: nat, k2: nat) -> nat {
    perm_f_vals(evaluation_values(ev), beta, gamma, zeta, k1, k2)
}

pub open spec fn spec_perm_g_partial(ev: Evaluations, beta: nat, gamma: nat) -> nat {
    perm_g_partial_vals(evaluation_values(ev), beta, gamma)
}

/// `x + beta * y + gamma` on scalars.
fn perm_term_exec(x: &Scalar, beta: &Scalar, y: &Scalar, gamma: &Scalar) -> (r: Scalar)
    ensures
        r@ == perm_term(x@, beta@, y@, gamma@),
{
    x.plus(&beta.times(y)).plus(gamma)
}

impl Evaluations {
    /// The grand-product factors at `zeta` that both the prover's
    /// linearisation and the verifier use: `f(zeta)` on the identity side and
    /// the first two factors of `g(zeta)` on the permuted side (the third
    /// involves `S_sigma3`, which stays a polynomial).
    pub fn permutation_factors(&self, beta: &Scalar, gamma: &Scalar, zeta: &Scalar, k1: &Scalar, k2: &Scalar) -> (r: (
        Scalar,
        Scalar,
    ))
        ensures
            r.0@ == spec_perm_f(*self, beta@, gamma@, zeta@, k1@, k2@),
            r.1@ == spec_perm_g_partial(*self, beta@, gamma@),
    {
        let fa = perm_term_exec(&self.a, beta, zeta, gamma);
        let fb = perm_term_exec(&self.b, beta, &k1.times(zeta), gamma);
        let fc = perm_term_exec(&self.c, beta, &k2.times(zeta), gamma);
        let ga = perm_term_exec(&self.a, beta, &self.s_sigma1, gamma);
        let gb = perm_term_exec(&self.b, beta, &self.s_sigma2, gamma);
        (fa.times(&fb).times(&fc), ga.times(&gb))
    }
}

/// The six evaluations, in order.
pub open spec fn evaluation_values(ev: Evaluations) -> Seq<nat> {
    seq![ev.a@, ev.b@, ev.c@, ev.s_sigma1@, ev.s_sigma2@, ev.z_omega@]
}

/// The encoding of six evaluations: each as 32 little-endian bytes.
pub open spec fn values_bytes(v: Seq<nat>) -> Seq<u8> {
    le_bytes(v[0], 32) + le_bytes(v[1], 32) + le_bytes(v[2], 32) + le_bytes(v[3], 32) + le_bytes(v[4], 32) + le_bytes(
        v[5],
        32,
    )
}

/// The encoding of the evaluations.
pub open spec fn evaluations_bytes(ev: Evaluations) -> Seq<u8> {
    values_bytes(evaluation_values(ev))
}

impl TranscriptBytes for Evaluations {
    open spec fn spec_transcript_bytes(&self) -> Seq<u8> {
        evaluations_bytes(*self)
    }

    fn transcript_bytes(&self) -> (r: Vec<u8>) {
        let mut out = self.a.to_bytes();
        let mut b = self.b.to_bytes();
        out.append(&mut b);
        let mut c = self.c.to_bytes();
        out.append(&mut c);
        let mut s1 = self.s_sigma1.to_bytes();
        out.append(&mut s1);
        let mut s2 = self.s_sigma2.to_bytes();
        out.append(&mut s2);
        let mut zw = self.z_omega.to_bytes();
        out.append(&mut zw);
        out
    }
}

#[derive(Clone, Copy, Debug, PartialEq, Eq)]
pub struct Proof {
    pub a: Commitment,
    pub b: Commitment,
    pub c: Commitment,
    pub z: Commitment,
    pub t_lo: Commitment,
    pub t_mid: Commitment,
    pub t_hi: Commitment,
    pub evals: Evaluations,
    /// Batched opening of `r, a, b, c, S_sigma1, S_sigma2` at `zeta`.
    pub w_zeta: OpeningProof,
    /// Opening of `z` at `zeta * omega`.
    pub w_zeta_omega: OpeningProof,
}

/// Why bytes are not a proof.
#[derive(Clone, Copy, Debug, PartialEq, Eq)]
pub enum ProofDecodeError {
    /// Fewer bytes than a proof takes.
    TooShort,
    /// A point is not a valid compressed point of the subgroup, or a scalar
    /// is not canonical.
    Invalid,
}

/// The size of an encoded proof: seven commitments, six scalars and two
/// opening proofs.
pub const PROOF_SIZE: usize = 624;

/// The encoding of `p`.
pub open spec fn proof_bytes(p: Proof) -> Seq<u8> {
    spec_g1_compress(p.a.0@) + spec_g1_compress(p.b.0@) + spec_g1_compress(p.c.0@) + spec_g1_compress(p.z.0@)
        + spec_g1_compress(p.t_lo.0@) + spec_g1_compress(p.t_mid.0@) + spec_g1_compress(p.t_hi.0@)
        + evaluations_bytes(p.evals) + spec_g1_compress(p.w_zeta.0@) + spec_g1_compress(p.w_zeta_omega.0@)
}

/// The point encoded at `off` in `b`.
pub open spec fn g1_at(b: Seq<u8>, off: int) -> Option<Seq<u8>> {
    spec_g1_decompress(b.subrange(off, off + 48))
}

/// The canonical scalar encoded at `off` in `b`.
pub open spec fn scalar_at(b: Seq<u8>, off: int) -> Option<nat> {
    if le_value(b.subrange(off, off + 32)) < modulus() {
        Some(le_value(b.subrange(off, off + 32)))
    } else {
        None
    }
}

/// `b` starts with a valid encoding of a proof.
pub open spec fn proof_decodable(b: Seq<u8>) -> bool {
    &&& b.len() >= 624
    &&& g1_at(b, 0) is Some
    &&& g1_at(b, 48) is Some
    &&& g1_at(b, 96) is Some
    &&& g1_at(b, 144) is Some
    &&& g1_at(b, 192) is Some
    &&& g1_at(b, 240) is Some
    &&& g1_at(b, 288) is Some
    &&& scalar_at(b, 336) is Some
    &&& scalar_at(b, 368) is Some
    &&& scalar_at(b, 400) is Some
    &&& scalar_at(b, 432) is Some
    &&& scalar_at(b, 464) is Some
    &&& scalar_at(b, 496) is Some
    &&& g1_at(b, 528) is Some
    &&& g1_at(b, 576) is Some
}

/// `b` starts with a valid encoding of `p`.
pub open spec fn proof_decodes_to(b: Seq<u8>, p: Proof) -> bool {
    &&& b.len() >= 624
    &&& g1_at(b, 0) == Some(p.a.0@)
    &&& g1_at(b, 48) == Some(p.b.0@)
    &&& g1_at(b, 96) == Some(p.c.0@)
    &&& g1_at(b, 144) == Some(p.z.0@)
    &&& g1_at(b, 192) == Some(p.t_lo.0@)
    &&& g1_at(b, 240) == Some(p.t_mid.0@)
    &&& g1_at(b, 288) == Some(p.t_hi.0@)
    &&& scalar_at(b, 336) == Some(p.evals.a@)
    &&& scalar_at(b, 368) == Some(p.evals.b@)
    &&& scalar_at(b, 400) == Some(p.evals.c@)
    &&& scalar_at(b, 432) == Some(p.evals.s_sigma1@)
    &&& scalar_at(b, 464) == Some(p.evals.s_sigma2@)
    &&& scalar_at(b, 496) == Some(p.evals.z_omega@)
    &&& g1_at(b, 528) == Some(p.w_zeta.0@)
    &&& g1_at(b, 576) == Some(p.w_zeta_omega.0@)
}

/// `p` and `q` hold the same points and scalars.
pub open spec fn same_proof(p: Proof, q: Proof) -> bool {
    &&& p.a.0@ == q.a.0@ && p.b.0@ == q.b.0@ && p.c.0@ == q.c.0@ && p.z.0@ == q.z.0@
    &&& p.t_lo.0@ == q.t_lo.0@ && p.t_mid.0@ == q.t_mid.0@ && p.t_hi.0@ == q.t_hi.0@
    &&& evaluation_values(p.evals) == evaluation_values(q.evals)
    &&& p.w_zeta.0@ == q.w_zeta.0@ && p.w_zeta_omega.0@ == q.w_zeta_omega.0@
}

/// Bytes that encode a proof are accepted by the decoder, and every proof
/// they decode to is that one: `from_bytes` reads back what `to_bytes`
/// wrote.
pub proof fn lemma_bytes_round_trip(b: Seq<u8>, p: Proof, q: Proof)
    requires
        proof_decodes_to(b, p),
    ensures
        proof_decodable(b),
        proof_decodes_to(b, q) ==> same_proof(p, q),
{
    if proof_decodes_to(b, q) {
        assert(evaluation_values(p.evals) =~= evaluation_values(q.evals));
    }
}

/// `256^len`.
pub open spec fn pow256(len: nat) -> nat
    decreases len,
{
    if len == 0 {
        1
    } else {
        256 * pow256((len - 1) as nat)
    }
}

/// Reading back the little-endian bytes of `x` gives `x`, when it fits.
pub proof fn lemma_le_round_trip(x: nat, len: nat)
    requires
        x < pow256(len),
    ensures
        le_value(le_bytes(x, len)) == x,
        le_bytes(x, len).len() == len,
    decreases len,
{
    if len > 0 {
        let p = pow256((len - 1) as nat);
        assert(x / 256 < p) by (nonlinear_arith)
            requires x < 256 * p;
        lemma_le_round_trip(x / 256, (len - 1) as nat);
        let b = le_bytes(x, len);
        assert(b.drop_first() =~= le_bytes(x / 256, (len - 1) as nat));
        assert(b[0] == (x % 256) as u8);
        assert(x == (x % 256) + 256 * (x / 256)) by (nonlinear_arith);
    }
}

/// Every canonical scalar fits in 32 bytes.
proof fn lemma_modulus_fits()
    ensures
        modulus() < pow256(32),
{
    reveal_with_fuel(pow256, 33);
}

/// Append the compressed encoding of `p`.
fn push_point(out: &mut Vec<u8>, p: &G1)
    ensures
        final(out)@ == old(out)@ + spec_g1_compress(p@),
        spec_g1_compress(p@).len() == 48,
        spec_g1_decompress(spec_g1_compress(p@)) == Some(p@),
{
    let mut c = p.to_compressed();
    out.append(&mut c);
}

/// Append the 32-byte encoding of `x`.
fn push_scalar(out: &mut Vec<u8>, x: &Scalar)
    ensures
        final(out)@ == old(out)@ + le_bytes(x@, 32),
        le_bytes(x@, 32).len() == 32,
        le_value(le_bytes(x@, 32)) == x@,
        x@ < modulus(),
{
    x.lemma_canonical();
    proof {
        lemma_modulus_fits();
        lemma_le_round_trip(x@, 32);
    }
    let mut c = x.to_bytes();
    out.append(&mut c);
}

/// The point encoded at `off`.
fn read_point(bytes: &[u8], off: usize) -> (r: Option<G1>)
    requires
        off <= 576,
        off + 48 <= bytes@.len(),
    ensures
        r is Some <==> g1_at(bytes@, off as int) is Some,
        r matches Some(p) ==> g1_at(bytes@, off as int) == Some(p@),
{
    let chunk = copy_range(bytes, off, off + 48);
    G1::from_compressed(chunk.as_slice())
}

/// The canonical scalar encoded at `off`.
fn read_scalar(bytes: &[u8], off: usize) -> (r: Option<Scalar>)
    requires
        off <= 576,
        off + 32 <= bytes@.len(),
    ensures
        r is Some <==> scalar_at(bytes@, off as int) is Some,
        r matches Some(x) ==> scalar_at(bytes@, off as int) == Some(x@),
{
    let chunk = copy_range(bytes, off, off + 32);
    proof {
        assert(chunk@.subrange(0, 32) =~= bytes@.subrange(off as int, off + 32));
    }
    Scalar::from_bytes(chunk.as_slice())
}

impl Proof {
    /// The compressed encoding, which decodes back to this proof.
    pub fn to_bytes(&self) -> (r: Vec<u8>)
        ensures
            r@ == proof_bytes(*self),
            r@.len() == PROOF_SIZE,
            proof_decodes_to(r@, *self),
    {
        let mut out: Vec<u8> = Vec::new();
        push_point(&mut out, &self.a.0);
        push_point(&mut out, &self.b.0);
        push_point(&mut out, &self.c.0);
        push_point(&mut out, &self.z.0);
        push_point(&mut out, &self.t_lo.0);
        push_point(&mut out, &self.t_mid.0);
        push_point(&mut out, &self.t_hi.0);
        push_scalar(&mut out, &self.evals.a);
        push_scalar(&mut out, &self.evals.b);
        push_scalar(&mut out, &self.evals.c);
        push_scalar(&mut out, &self.evals.s_sigma1);
        push_scalar(&mut out, &self.evals.s_sigma2);
        push_scalar(&mut out, &self.evals.z_omega);
        push_point(&mut out, &self.w_zeta.0);
        push_point(&mut out, &self.w_zeta_omega.0);
        proof {
            let b = out@;
            assert(b =~= proof_bytes(*self));
            assert(b.subrange(0, 48) =~= spec_g1_compress(self.a.0@));
            assert(b.subrange(48, 96) =~= spec_g1_compress(self.b.0@));
            assert(b.subrange(96, 144) =~= spec_g1_compress(self.c.0@));
            assert(b.subrange(144, 192) =~= spec_g1_compress(self.z.0@));
            assert(b.subrange(192, 240) =~= spec_g1_compress(self.t_lo.0@));
            assert(b.subrange(240, 288) =~= spec_g1_compress(self.t_mid.0@));
            assert(b.subrange(288, 336) =~= spec_g1_compress(self.t_hi.0@));
            assert(b.subrange(336, 368) =~= le_bytes(self.evals.a@, 32));
            assert(b.subrange(368, 400) =~= le_bytes(self.evals.b@, 32));
            assert(b.subrange(400, 432) =~= le_bytes(self.evals.c@, 32));
            assert(b.subrange(432, 464) =~= le_bytes(self.evals.s_sigma1@, 32));
            assert(b.subrange(464, 496) =~= le_bytes(self.evals.s_sigma2@, 32));
            assert(b.subrange(496, 528) =~= le_bytes(self.evals.z_omega@, 32));
            assert(b.subrange(528, 576) =~= spec_g1_compress(self.w_zeta.0@));
            assert(b.subrange(576, 624) =~= spec_g1_compress(self.w_zeta_omega.0@));
        }
        out
    }

    /// Parse and validate. Fails on too few bytes, points off the curve or
    /// outside the subgroup, and non-canonical field elements.
    pub fn from_bytes(bytes: &[u8]) -> (r: Result<Proof, ProofDecodeError>)
        ensures
            r matches Err(ProofDecodeError::TooShort) <==> bytes@.len() < PROOF_SIZE,
            r is Ok <==> proof_decodable(bytes@),
            r matches Ok(p) ==> proof_decodes_to(bytes@, p),
    {
        if bytes.len() < PROOF_SIZE {
            return Err(ProofDecodeError::TooShort);
        }
        let a = match read_point(bytes, 0) { Some(p) => p, None => { return Err(ProofDecodeError::Invalid); } };
        let b = match read_point(bytes, 48) { Some(p) => p, None => { return Err(ProofDecodeError::Invalid); } };
        let c = match read_point(bytes, 96) { Some(p) => p, None => { return Err(ProofDecodeError::Invalid); } };
        let z = match read_point(bytes, 144) { Some(p) => p, None => { return Err(ProofDecodeError::Invalid); } };
        let t_lo = match read_point(bytes, 192) { Some(p) => p, None => { return Err(ProofDecodeError::Invalid); } };
        let t_mid = match read_point(bytes, 240) { Some(p) => p, None => { return Err(ProofDecodeError::Invalid); } };
        let t_hi = match read_point(bytes, 288) { Some(p) => p, None => { return Err(ProofDecodeError::Invalid); } };
        let ea = match read_scalar(bytes, 336) { Some(x) => x, None => { return Err(ProofDecodeError::Invalid); } };
        let eb = match read_scalar(bytes, 368) { Some(x) => x, None => { return Err(ProofDecodeError::Invalid); } };
        let ec = match read_scalar(bytes, 400) { Some(x) => x, None => { return Err(ProofDecodeError::Invalid); } };
        let es1 = match read_scalar(bytes, 432) { Some(x) => x, None => { return Err(ProofDecodeError::Invalid); } };
        let es2 = match read_scalar(bytes, 464) { Some(x) => x, None => { return Err(ProofDecodeError::Invalid); } };
        let ezw = match read_scalar(bytes, 496) { Some(x) => x, None => { return Err(ProofDecodeError::Invalid); } };
        let w_zeta = match read_point(bytes, 528) { Some(p) => p, None => { return Err(ProofDecodeError::Invalid); } };
        let w_zeta_omega = match read_point(bytes, 576) { Some(p) => p, None => { return Err(ProofDecodeError::Invalid); } };
        Ok(Proof {
            a: Commitment(a),
            b: Commitment(b),
            c: Commitment(c),
            z: Commitment(z),
            t_lo: Commitment(t_lo),
            t_mid: Commitment(t_mid),
            t_hi: Commitment(t_hi),
            evals: Evaluations { a: ea, b: eb, c: ec, s_sigma1: es1, s_sigma2: es2, z_omega: ezw },
            w_zeta: OpeningProof(w_zeta),
            w_zeta_omega: OpeningProof(w_zeta_omega),
        })
    }
}

} // verus!
