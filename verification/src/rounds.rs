//! The Fiat-Shamir schedule, written once so the prover and verifier can't
//! drift apart. Each method absorbs what the prover sends in that round and
//! returns the challenge(s) the next round needs.

use vstd::prelude::*;
use vstd::string::StringSliceAdditionalSpecFns;
use crate::curve::spec_g1_compress;
use crate::field::{Scalar, vals};
use crate::kzg::{Commitment, OpeningProof};
use crate::preprocess::{VerifierKey, vk_transcript_state};
use crate::proof_format::{Evaluations, Proof, evaluation_values, values_bytes};
use crate::transcript::{Transcript, absorb_state, challenge_state, challenge_value};

verus! {

/// The state after absorbing the point `p` under `label`.
pub open spec fn absorb_point(s: Seq<u8>, label: Seq<u8>, p: Seq<u8>) -> Seq<u8> {
    absorb_state(s, label, spec_g1_compress(p))
}

/// Round 1 absorbs the wire commitments.
pub open spec fn wires_absorbed(s: Seq<u8>, a: Seq<u8>, b: Seq<u8>, c: Seq<u8>) -> Seq<u8> {
    absorb_point(absorb_point(absorb_point(s, "a".spec_bytes(), a), "b".spec_bytes(), b), "c".spec_bytes(), c)
}

/// `(beta, gamma)` and the state after round 1.
pub open spec fn round_wires(s: Seq<u8>, a: Seq<u8>, b: Seq<u8>, c: Seq<u8>) -> (nat, nat, Seq<u8>) {
    let t = wires_absorbed(s, a, b, c);
    let t1 = challenge_state(t, "beta".spec_bytes());
    (challenge_value(t, "beta".spec_bytes()), challenge_value(t1, "gamma".spec_bytes()), challenge_state(
        t1,
        "gamma".spec_bytes(),
    ))
}

/// `alpha` and the state after round 2.
pub open spec fn round_accumulator(s: Seq<u8>, z: Seq<u8>) -> (nat, Seq<u8>) {
    let t = absorb_point(s, "z".spec_bytes(), z);
    (challenge_value(t, "alpha".spec_bytes()), challenge_state(t, "alpha".spec_bytes()))
}

/// `zeta` and the state after round 3.
pub open spec fn round_quotient(s: Seq<u8>, lo: Seq<u8>, mid: Seq<u8>, hi: Seq<u8>) -> (nat, Seq<u8>) {
    let t = absorb_point(
        absorb_point(absorb_point(s, "t_lo".spec_bytes(), lo), "t_mid".spec_bytes(), mid),
        "t_hi".spec_bytes(),
        hi,
    );
    (challenge_value(t, "zeta".spec_bytes()), challenge_state(t, "zeta".spec_bytes()))
}

/// `v` and the state after round 4.
pub open spec fn round_evaluations(s: Seq<u8>, evs: Seq<nat>) -> (nat, Seq<u8>) {
    let t = absorb_state(s, "evaluations".spec_bytes(), values_bytes(evs));
    (challenge_value(t, "v".spec_bytes()), challenge_state(t, "v".spec_bytes()))
}

/// `u` and the state after round 5.
pub open spec fn round_openings(s: Seq<u8>, w: Seq<u8>, w_omega: Seq<u8>) -> (nat, Seq<u8>) {
    let t = absorb_point(absorb_point(s, "w_zeta".spec_bytes(), w), "w_zeta_omega".spec_bytes(), w_omega);
    (challenge_value(t, "u".spec_bytes()), challenge_state(t, "u".spec_bytes()))
}

/// The challenges `(beta, gamma, alpha, zeta, v, u)` of a proof for a key
/// and public inputs.
pub open spec fn proof_challenges(vk: VerifierKey, pi: Seq<nat>, p: Proof) -> (nat, nat, nat, nat, nat, nat) {
    let s0 = vk_transcript_state(vk, pi);
    let r1 = round_wires(s0, p.a.0@, p.b.0@, p.c.0@);
    let r2 = round_accumulator(r1.2, p.z.0@);
    let r3 = round_quotient(r2.1, p.t_lo.0@, p.t_mid.0@, p.t_hi.0@);
    let r4 = round_evaluations(r3.1, evaluation_values(p.evals));
    let r5 = round_openings(r4.1, p.w_zeta.0@, p.w_zeta_omega.0@);
    (r1.0, r1.1, r2.0, r3.0, r4.0, r5.0)
}

pub struct Rounds {
    t: Transcript,
}

impl View for Rounds {
    type V = Seq<u8>;

    closed spec fn view(&self) -> Seq<u8> {
        self.t@
    }
}

impl Rounds {
    pub fn start(vk: &VerifierKey, public_inputs: &[Scalar]) -> (r: Rounds)
        ensures
            r@ == vk_transcript_state(*vk, vals(public_inputs@)),
    {
        Rounds { t: vk.transcript(public_inputs) }
    }

    /// Round 1 -> `(beta, gamma)`
    pub fn wires(&mut self, wires: [&Commitment; 3]) -> (r: (Scalar, Scalar))
        ensures
            ({
                let x = round_wires(old(self)@, wires[0].0@, wires[1].0@, wires[2].0@);
                &&& r.0@ == x.0
                &&& r.1@ == x.1
                &&& final(self)@ == x.2
            }),
    {
        self.t.absorb("a".as_bytes(), &wires[0].0);
        self.t.absorb("b".as_bytes(), &wires[1].0);
        self.t.absorb("c".as_bytes(), &wires[2].0);
        let beta = self.t.challenge("beta".as_bytes());
        let gamma = self.t.challenge("gamma".as_bytes());
        (beta, gamma)
    }

    /// Round 2 -> `alpha`
    pub fn accumulator(&mut self, z: &Commitment) -> (r: Scalar)
        ensures
            r@ == round_accumulator(old(self)@, z.0@).0,
            final(self)@ == round_accumulator(old(self)@, z.0@).1,
    {
        self.t.absorb("z".as_bytes(), &z.0);
        self.t.challenge("alpha".as_bytes())
    }

    /// Round 3 -> `zeta`
    pub fn quotient(&mut self, t: [&Commitment; 3]) -> (r: Scalar)
        ensures
            r@ == round_quotient(old(self)@, t[0].0@, t[1].0@, t[2].0@).0,
            final(self)@ == round_quotient(old(self)@, t[0].0@, t[1].0@, t[2].0@).1,
    {
        self.t.absorb("t_lo".as_bytes(), &t[0].0);
        self.t.absorb("t_mid".as_bytes(), &t[1].0);
        self.t.absorb("t_hi".as_bytes(), &t[2].0);
        self.t.challenge("zeta".as_bytes())
    }

    /// Round 4 -> `v`
    pub fn evaluations(&mut self, ev: &Evaluations) -> (r: Scalar)
        ensures
            r@ == round_evaluations(old(self)@, evaluation_values(*ev)).0,
            final(self)@ == round_evaluations(old(self)@, evaluation_values(*ev)).1,
    {
        self.t.absorb("evaluations".as_bytes(), ev);
        self.t.challenge("v".as_bytes())
    }

    /// Round 5 -> `u`, only the verifier needs it
    pub fn openings(&mut self, w_zeta: &OpeningProof, w_zeta_omega: &OpeningProof) -> (r: Scalar)
        ensures
            r@ == round_openings(old(self)@, w_zeta.0@, w_zeta_omega.0@).0,
            final(self)@ == round_openings(old(self)@, w_zeta.0@, w_zeta_omega.0@).1,
    {
        self.t.absorb("w_zeta".as_bytes(), &w_zeta.0);
        self.t.absorb("w_zeta_omega".as_bytes(), &w_zeta_omega.0);
        self.t.challenge("u".as_bytes())
    }
}

} // verus!
