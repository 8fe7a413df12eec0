use ark_std::test_rng;
use plonk::circuit::Circuit;
use plonk::field::Scalar;
use plonk::kzg::Srs;
use plonk::preprocess::{domain_size, preprocess, required_srs_degree, PreprocessError};

fn fr(x: u64) -> Scalar {
    Scalar::from_u64(x)
}

fn circuit(x: u64, y: u64) -> Circuit {
    let mut c = Circuit::new();
    let x = c.allocate(fr(x));
    let y = c.allocate(fr(y));
    let xy = c.mul(x, y);
    let s = c.add(xy, x);
    let k = c.constant(fr(15));
    c.assert_equal(s, k);
    c
}

#[test]
fn selectors_interpolate_gates() {
    let mut rng = test_rng();
    let srs = Srs::setup(16, &mut rng);
    let c = circuit(3, 4);
    let pk = preprocess(&c, &srs).unwrap();
    assert_eq!(pk.vk.n, 8);
    let [q_l, q_r, q_o, q_m, q_c] = &pk.selectors;
    for (i, g) in c.gates().iter().enumerate() {
        let w = pk.domain.element(i);
        assert_eq!(q_l.poly.evaluate(&w), g.q_l);
        assert_eq!(q_r.poly.evaluate(&w), g.q_r);
        assert_eq!(q_o.poly.evaluate(&w), g.q_o);
        assert_eq!(q_m.poly.evaluate(&w), g.q_m);
        assert_eq!(q_c.poly.evaluate(&w), g.q_c);
        assert_eq!(q_m.on_h[i], g.q_m);
    }
    // padding rows are empty gates
    for i in c.num_gates()..pk.vk.n {
        let w = pk.domain.element(i);
        assert!(q_l.poly.evaluate(&w).is_zero());
        assert!(q_c.poly.evaluate(&w).is_zero());
    }
    // coset evaluations agree with the polynomial
    for (x, v) in pk.coset_points.iter().zip(&q_m.on_coset) {
        assert_eq!(q_m.poly.evaluate(x), *v);
    }
    for (i, x) in pk.coset_points.iter().enumerate() {
        assert_eq!(pk.z_h_inv_coset[i % 4].times(&pk.domain.evaluate_vanishing_polynomial(x)), Scalar::one());
    }
}

#[test]
fn verifier_key_is_witness_independent() {
    let mut rng = test_rng();
    let srs = Srs::setup(16, &mut rng);
    let a = preprocess(&circuit(3, 4), &srs).unwrap();
    let b = preprocess(&circuit(5, 2), &srs).unwrap();
    assert_eq!(a.vk.q_l, b.vk.q_l);
    assert_eq!(a.vk.q_m, b.vk.q_m);
    assert_eq!(a.vk.s_sigma, b.vk.s_sigma);
    assert_eq!(a.permutation, b.permutation);
}

#[test]
fn domain_sizes() {
    assert_eq!(domain_size(0), 8);
    assert_eq!(domain_size(1), 8);
    assert_eq!(domain_size(8), 8);
    assert_eq!(domain_size(9), 16);
    assert_eq!(domain_size(300), 512);
    assert_eq!(domain_size(1024), 1024);
    assert_eq!(required_srs_degree(64), 69);
    assert_eq!(required_srs_degree(3), 13);
}

#[test]
fn small_srs_is_an_error() {
    let mut rng = test_rng();
    let srs = Srs::setup(12, &mut rng);
    assert_eq!(
        preprocess(&circuit(3, 4), &srs).err(),
        Some(PreprocessError::SrsTooSmall { max_degree: 12, required: 13 })
    );
    let srs = Srs::setup(13, &mut rng);
    assert!(preprocess(&circuit(3, 4), &srs).is_ok());
}

#[test]
fn key_commits_to_the_selectors() {
    let mut rng = test_rng();
    let srs = Srs::setup(16, &mut rng);
    let c = circuit(3, 4);
    let pk = preprocess(&c, &srs).unwrap();
    assert_eq!(pk.vk.q_m, srs.commit(&pk.selectors[3].poly));
    assert_eq!(pk.vk.s_sigma[2], srs.commit(&pk.s_sigma[2].poly));
    assert_eq!(pk.vk.kzg, srs.verifier_key());
    assert_eq!(pk.vk.num_public_inputs, 0);
    assert_eq!(pk.l1.poly.evaluate(&pk.domain.element(0)), Scalar::one());
    assert!(pk.l1.poly.evaluate(&pk.domain.element(3)).is_zero());
}
