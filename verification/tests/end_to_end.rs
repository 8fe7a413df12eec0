use ark_std::test_rng;
use plonk::curve::G1;
use plonk::field::Scalar;
use plonk::kzg::{Commitment, OpeningProof};
use plonk::{preprocess, prove, required_srs_degree, verify, Circuit, Srs};

fn fr(x: u64) -> Scalar {
    Scalar::from_u64(x)
}

/// x^3 + x + 5 = y, with y public. The classic.
fn cubic(x: u64, y: u64) -> Circuit {
    let mut c = Circuit::new();
    let y = c.public_input(fr(y));
    let x = c.allocate(fr(x));
    let x2 = c.mul(x, x);
    let x3 = c.mul(x2, x);
    let five = c.constant(fr(5));
    let s = c.add(x3, x);
    let s = c.add(s, five);
    c.assert_equal(s, y);
    c
}

#[test]
fn cubic_proves_and_verifies() {
    let mut rng = test_rng();
    let srs = Srs::setup(64, &mut rng);
    let circuit = cubic(3, 35);
    assert!(circuit.is_satisfied());
    let pk = preprocess(&circuit, &srs).unwrap();
    let proof = prove(&srs, &pk, &circuit, &mut rng).unwrap();
    assert!(verify(&pk.vk, &circuit.public_inputs(), &proof).is_ok());
}

#[test]
fn wrong_public_input_rejected() {
    let mut rng = test_rng();
    let srs = Srs::setup(64, &mut rng);
    let circuit = cubic(3, 35);
    let pk = preprocess(&circuit, &srs).unwrap();
    let proof = prove(&srs, &pk, &circuit, &mut rng).unwrap();
    assert!(verify(&pk.vk, &[fr(36)], &proof).is_err());
    assert!(verify(&pk.vk, &[], &proof).is_err());
}

#[test]
#[should_panic]
fn unsatisfied_circuit_cannot_prove() {
    let mut rng = test_rng();
    let srs = Srs::setup(64, &mut rng);
    let circuit = cubic(3, 36);
    assert!(!circuit.is_satisfied());
    let pk = preprocess(&circuit, &srs).unwrap();
    let _ = prove(&srs, &pk, &circuit, &mut rng).unwrap();
}

#[test]
fn tampered_proof_rejected() {
    let mut rng = test_rng();
    let srs = Srs::setup(64, &mut rng);
    let circuit = cubic(3, 35);
    let pk = preprocess(&circuit, &srs).unwrap();
    let proof = prove(&srs, &pk, &circuit, &mut rng).unwrap();
    let pi = circuit.public_inputs();

    let mut p = proof.clone();
    p.evals.a = p.evals.a.plus(&fr(1));
    assert!(verify(&pk.vk, &pi, &p).is_err());

    let mut p = proof.clone();
    p.evals.z_omega = p.evals.z_omega.plus(&fr(1));
    assert!(verify(&pk.vk, &pi, &p).is_err());

    let mut p = proof.clone();
    p.z = Commitment(p.z.0.plus(&p.a.0));
    assert!(verify(&pk.vk, &pi, &p).is_err());

    let mut p = proof.clone();
    p.w_zeta = OpeningProof(p.w_zeta_omega.0);
    assert!(verify(&pk.vk, &pi, &p).is_err());

    let mut p = proof.clone();
    p.t_hi = Commitment(G1::identity());
    assert!(verify(&pk.vk, &pi, &p).is_err());
}

#[test]
fn proof_for_one_circuit_does_not_verify_for_another() {
    let mut rng = test_rng();
    let srs = Srs::setup(64, &mut rng);
    let circuit = cubic(3, 35);
    let pk = preprocess(&circuit, &srs).unwrap();
    let proof = prove(&srs, &pk, &circuit, &mut rng).unwrap();

    // same shape, different constant
    let mut other = Circuit::new();
    let y = other.public_input(fr(35));
    let x = other.allocate(fr(3));
    let x2 = other.mul(x, x);
    let x3 = other.mul(x2, x);
    let six = other.constant(fr(6));
    let s = other.add(x3, x);
    let s = other.add(s, six);
    other.assert_equal(s, y);
    let other_pk = preprocess(&other, &srs).unwrap();
    assert!(verify(&other_pk.vk, &[fr(35)], &proof).is_err());
}

#[test]
fn a_few_hundred_gates() {
    let mut rng = test_rng();
    let srs = Srs::setup(required_srs_degree(1024), &mut rng);
    // fibonacci-ish chain with a public output
    let mut c = Circuit::new();
    let mut a = c.constant(fr(1));
    let mut b = c.constant(fr(1));
    for _ in 0..300 {
        let s = c.add(a, b);
        let p = c.mul(s, a);
        a = b;
        b = p;
    }
    let out = c.public_input(c.value(b));
    c.assert_equal(out, b);
    assert!(c.is_satisfied());
    let pk = preprocess(&c, &srs).unwrap();
    assert_eq!(pk.vk.n, 1024);
    let proof = prove(&srs, &pk, &c, &mut rng).unwrap();
    assert!(verify(&pk.vk, &c.public_inputs(), &proof).is_ok());
    assert!(verify(&pk.vk, &[fr(1)], &proof).is_err());
}

#[test]
fn early_errors_come_before_the_srs_is_used() {
    let mut rng = test_rng();
    let srs = Srs::setup(64, &mut rng);
    let pk = preprocess(&cubic(3, 35), &srs).unwrap();
    // far too few points for any commitment
    let small = Srs::setup(1, &mut rng);
    assert_eq!(prove(&small, &pk, &cubic(3, 36), &mut rng).err(), Some(plonk::ProveError::Unsatisfied));
    let mut no_inputs = Circuit::new();
    let x = no_inputs.allocate(fr(2));
    let _ = no_inputs.mul(x, x);
    assert_eq!(
        prove(&small, &pk, &no_inputs, &mut rng).err(),
        Some(plonk::ProveError::PublicInputCount { expected: 1, got: 0 })
    );
}
