use ark_std::test_rng;
use plonk::field::Scalar;
use plonk::proof_format::{Proof, ProofDecodeError, PROOF_SIZE};
use plonk::{preprocess, prove, verify, Circuit, Srs};

fn fr(x: u64) -> Scalar {
    Scalar::from_u64(x)
}

fn a_proof() -> (plonk::VerifierKey, Vec<Scalar>, Proof) {
    let mut rng = test_rng();
    let srs = Srs::setup(32, &mut rng);
    let mut c = Circuit::new();
    let y = c.public_input(fr(12));
    let x = c.allocate(fr(3));
    let z = c.allocate(fr(4));
    let p = c.mul(x, z);
    c.assert_equal(p, y);
    let pk = preprocess(&c, &srs).unwrap();
    let proof = prove(&srs, &pk, &c, &mut rng).unwrap();
    (pk.vk, c.public_inputs(), proof)
}

#[test]
fn proofs_are_624_bytes_and_decode_back() {
    let (vk, pi, proof) = a_proof();
    let bytes = proof.to_bytes();
    assert_eq!(bytes.len(), PROOF_SIZE);
    assert_eq!(bytes.len(), 624);
    let back = Proof::from_bytes(&bytes).unwrap();
    assert_eq!(back, proof);
    assert!(verify(&vk, &pi, &back).is_ok());
}

#[test]
fn bad_bytes_are_refused() {
    let (_, _, proof) = a_proof();
    let bytes = proof.to_bytes();
    assert_eq!(Proof::from_bytes(&bytes[..623]).err(), Some(ProofDecodeError::TooShort));
    // a non-canonical scalar: all ones is above the modulus
    let mut bad = bytes.clone();
    for b in &mut bad[336..368] {
        *b = 0xff;
    }
    assert_eq!(Proof::from_bytes(&bad).err(), Some(ProofDecodeError::Invalid));
    // a point that is not on the curve
    let mut bad = bytes.clone();
    bad[10] ^= 0x55;
    assert_eq!(Proof::from_bytes(&bad).err(), Some(ProofDecodeError::Invalid));
}

#[test]
fn permutation_factors_at_known_values() {
    let ev = plonk::proof_format::Evaluations { a: fr(1), b: fr(2), c: fr(3), s_sigma1: fr(4), s_sigma2: fr(5), z_omega: fr(6) };
    // beta = 1, gamma = 0, zeta = 10, k1 = 2, k2 = 3:
    // f = (1 + 10)(2 + 20)(3 + 30), g_partial = (1 + 4)(2 + 5)
    let (f, g) = ev.permutation_factors(&fr(1), &fr(0), &fr(10), &fr(2), &fr(3));
    assert_eq!(f, fr(11 * 22 * 33));
    assert_eq!(g, fr(35));
}
