//! Fiat-Shamir transcript.
//!
//! Every message the prover would send gets absorbed; challenges are derived by
//! hashing the running state. Absorbing the challenge label back in keeps the
//! state moving so two challenges in a row are different.
//!
//! Challenges are reduced from 64 bytes, not 32: reducing a 256-bit digest
//! modulo the ~255-bit scalar field would leave a bias of a few percent.

use vstd::prelude::*;
use crate::field::{Scalar, vals, le_bytes, le_value, modulus};
use crate::curve::{G1, G2, spec_g1_compress, spec_g2_compress};
use vstd::string::StringSliceAdditionalSpecFns;
use sha2::{Digest, Sha256, Sha512};

verus! {

/// SHA-256 of `data`.
pub uninterp spec fn spec_sha256(data: Seq<u8>) -> Seq<u8>;

/// SHA-512 of `data`.
pub uninterp spec fn spec_sha512(data: Seq<u8>) -> Seq<u8>;

/// `Sha256::digest`: the 32-byte SHA-256 digest.
#[verifier::external_body]
fn sha256(data: &[u8]) -> (r: [u8; 32])
    ensures
        r@ == spec_sha256(data@),
{
    Sha256::digest(data).into()
}

/// `Sha512::digest`: the 64-byte SHA-512 digest.
#[verifier::external_body]
fn sha512(data: &[u8]) -> (r: Vec<u8>)
    ensures
        r@ == spec_sha512(data@),
{
    Sha512::digest(data).to_vec()
}

/// The 8 little-endian bytes of `x` (`u64::to_le_bytes`).
pub fn u64_le_bytes(x: u64) -> (r: Vec<u8>)
    ensures
        r@ == le_bytes(x as nat, 8),
{
    let mut out: Vec<u8> = Vec::new();
    let mut y = x;
    let mut i: usize = 0;
    proof {
        assert(out@ + le_bytes(y as nat, 8) =~= le_bytes(x as nat, 8));
    }
    while i < 8
        invariant
            0 <= i <= 8,
            out@ + le_bytes(y as nat, (8 - i) as nat) == le_bytes(x as nat, 8),
        decreases 8 - i,
    {
        let ghost old_out = out@;
        let ghost old_y = y;
        out.push((y % 256) as u8);
        y = y / 256;
        proof {
            assert(le_bytes(old_y as nat, (8 - i) as nat) == seq![(old_y as nat % 256) as u8] + le_bytes(
                old_y as nat / 256,
                (8 - i - 1) as nat,
            ));
            assert(out@ + le_bytes(y as nat, (8 - (i + 1)) as nat) =~= old_out + le_bytes(old_y as nat, (8 - i) as nat));
        }
        i = i + 1;
    }
    proof {
        assert(le_bytes(y as nat, 0) =~= Seq::<u8>::empty());
        assert(out@ =~= out@ + le_bytes(y as nat, 0));
    }
    out
}

/// Values with a canonical byte encoding, the one the transcript absorbs:
/// arkworks' compressed encoding.
pub trait TranscriptBytes {
    spec fn spec_transcript_bytes(&self) -> Seq<u8>;

    fn transcript_bytes(&self) -> (r: Vec<u8>)
        ensures
            r@ == self.spec_transcript_bytes(),
    ;
}

impl TranscriptBytes for Scalar {
    open spec fn spec_transcript_bytes(&self) -> Seq<u8> {
        le_bytes(self@, 32)
    }

    fn transcript_bytes(&self) -> (r: Vec<u8>) {
        self.to_bytes()
    }
}

impl TranscriptBytes for u64 {
    open spec fn spec_transcript_bytes(&self) -> Seq<u8> {
        le_bytes(*self as nat, 8)
    }

    fn transcript_bytes(&self) -> (r: Vec<u8>) {
        u64_le_bytes(*self)
    }
}

impl TranscriptBytes for G1 {
    open spec fn spec_transcript_bytes(&self) -> Seq<u8> {
        spec_g1_compress(self@)
    }

    fn transcript_bytes(&self) -> (r: Vec<u8>) {
        self.to_compressed()
    }
}

impl TranscriptBytes for G2 {
    open spec fn spec_transcript_bytes(&self) -> Seq<u8> {
        spec_g2_compress(self@)
    }

    fn transcript_bytes(&self) -> (r: Vec<u8>) {
        self.to_compressed()
    }
}

/// The encoding of a list of scalars: its length as 8 little-endian bytes,
/// then each scalar.
pub open spec fn scalars_bytes(s: Seq<nat>) -> Seq<u8>
    decreases s.len(),
{
    if s.len() == 0 {
        Seq::empty()
    } else {
        scalars_bytes(s.drop_last()) + le_bytes(s.last(), 32)
    }
}

impl TranscriptBytes for Vec<Scalar> {
    open spec fn spec_transcript_bytes(&self) -> Seq<u8> {
        le_bytes(self@.len() as nat, 8) + scalars_bytes(vals(self@))
    }

    fn transcript_bytes(&self) -> (r: Vec<u8>) {
        let mut out = u64_le_bytes(self.len() as u64);
        let mut body: Vec<u8> = Vec::new();
        for i in 0..self.len()
            invariant
                body@ == scalars_bytes(vals(self@.subrange(0, i as int))),
        {
            let mut b = self[i].to_bytes();
            proof {
                assert(vals(self@.subrange(0, i + 1)).drop_last() =~= vals(self@.subrange(0, i as int)));
            }
            body.append(&mut b);
        }
        proof {
            assert(self@.subrange(0, self@.len() as int) =~= self@);
        }
        out.append(&mut body);
        out
    }
}

/// The bytes one absorption hashes: the state, then the label and the
/// message, each preceded by its length as 8 little-endian bytes.
pub open spec fn absorb_message(state: Seq<u8>, label: Seq<u8>, bytes: Seq<u8>) -> Seq<u8> {
    state + le_bytes(label.len(), 8) + label + le_bytes(bytes.len(), 8) + bytes
}

/// The state after absorbing `bytes` under `label`.
pub open spec fn absorb_state(state: Seq<u8>, label: Seq<u8>, bytes: Seq<u8>) -> Seq<u8> {
    spec_sha256(absorb_message(state, label, bytes))
}

/// The state after drawing a challenge under `label`.
pub open spec fn challenge_state(state: Seq<u8>, label: Seq<u8>) -> Seq<u8> {
    absorb_state(state, "challenge".spec_bytes(), label)
}

/// The challenge drawn under `label`: SHA-512 of `"squeeze"` and the new
/// state, read little-endian and reduced mod `r`.
pub open spec fn challenge_value(state: Seq<u8>, label: Seq<u8>) -> nat {
    le_value(spec_sha512("squeeze".spec_bytes() + challenge_state(state, label))) % modulus()
}

/// The state a fresh transcript under `label` starts in.
pub open spec fn initial_state(label: Seq<u8>) -> Seq<u8> {
    absorb_state(Seq::new(32, |i: int| 0u8), "init".spec_bytes(), label)
}

pub struct Transcript {
    state: [u8; 32],
}

impl View for Transcript {
    type V = Seq<u8>;

    closed spec fn view(&self) -> Seq<u8> {
        self.state@
    }
}

impl Transcript {
    pub fn new(label: &[u8]) -> (t: Transcript)
        ensures
            t@ == initial_state(label@),
    {
        let mut t = Transcript { state: [0u8; 32] };
        proof {
            assert(t.state@ =~= Seq::new(32, |i: int| 0u8));
        }
        t.absorb_bytes("init".as_bytes(), label);
        t
    }

    pub fn absorb_bytes(&mut self, label: &[u8], bytes: &[u8])
        ensures
            final(self)@ == absorb_state(old(self)@, label@, bytes@),
    {
        let mut msg: Vec<u8> = Vec::new();
        for i in 0..32
            invariant
                msg@ == self.state@.subrange(0, i as int),
        {
            msg.push(self.state[i]);
            proof {
                assert(msg@ =~= self.state@.subrange(0, i + 1));
            }
        }
        let mut a = u64_le_bytes(label.len() as u64);
        msg.append(&mut a);
        let mut b = label_copy(label);
        msg.append(&mut b);
        let mut c = u64_le_bytes(bytes.len() as u64);
        msg.append(&mut c);
        let mut d = label_copy(bytes);
        msg.append(&mut d);
        proof {
            assert(self.state@.subrange(0, 32) =~= self.state@);
            assert(msg@ =~= absorb_message(self.state@, label@, bytes@));
        }
        self.state = sha256(msg.as_slice());
    }

    pub fn absorb<T: TranscriptBytes>(&mut self, label: &[u8], item: &T)
        ensures
            final(self)@ == absorb_state(old(self)@, label@, item.spec_transcript_bytes()),
    {
        let buf = item.transcript_bytes();
        self.absorb_bytes(label, buf.as_slice());
    }

    pub fn challenge(&mut self, label: &[u8]) -> (r: Scalar)
        ensures
            final(self)@ == challenge_state(old(self)@, label@),
            r@ == challenge_value(old(self)@, label@),
    {
        self.absorb_bytes("challenge".as_bytes(), label);
        let mut msg = label_copy("squeeze".as_bytes());
        for i in 0..32
            invariant
                msg@ == "squeeze".spec_bytes() + self.state@.subrange(0, i as int),
        {
            msg.push(self.state[i]);
            proof {
                assert(msg@ =~= "squeeze".spec_bytes() + self.state@.subrange(0, i + 1));
            }
        }
        proof {
            assert(self.state@.subrange(0, 32) =~= self.state@);
        }
        let wide = sha512(msg.as_slice());
        Scalar::from_le_bytes_mod_order(wide.as_slice())
    }
}

/// A copy of `s`.
fn label_copy(s: &[u8]) -> (r: Vec<u8>)
    ensures
        r@ == s@,
{
    let mut r: Vec<u8> = Vec::new();
    for i in 0..s.len()
        invariant
            r@ == s@.subrange(0, i as int),
    {
        r.push(s[i]);
        proof {
            assert(r@ =~= s@.subrange(0, i + 1));
        }
    }
    proof {
        assert(r@ =~= s@);
    }
    r
}

} // verus!
