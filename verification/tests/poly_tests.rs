use ark_bls12_381::Fr;
use ark_poly::{EvaluationDomain, Radix2EvaluationDomain};
use ark_serialize::{CanonicalDeserialize, CanonicalSerialize};
use ark_std::test_rng;
use plonk::field::Scalar;
use plonk::poly::{interpolate, lagrange_at, vanishing_at, Domain, Poly};

fn to_fr(s: &Scalar) -> Fr {
    Fr::deserialize_compressed(&s.to_bytes()[..]).unwrap()
}

fn from_fr(f: &Fr) -> Scalar {
    let mut bytes = Vec::new();
    f.serialize_compressed(&mut bytes).unwrap();
    Scalar::from_bytes(&bytes).unwrap()
}

fn fr(x: u64) -> Scalar {
    Scalar::from_u64(x)
}

#[test]
fn lagrange_matches_arkworks() {
    let mut rng = test_rng();
    let ark_domain = Radix2EvaluationDomain::<Fr>::new(16).unwrap();
    let domain = Domain::new(16).unwrap();
    let zeta = Scalar::random(&mut rng);
    let all: Vec<Scalar> = ark_domain.evaluate_all_lagrange_coefficients(to_fr(&zeta)).iter().map(from_fr).collect();
    assert_eq!(lagrange_at(&domain, &zeta, 5), all[..5]);
    assert_eq!(lagrange_at(&domain, &zeta, 16), all);
    let (_, z_h, l0) = vanishing_at(16, &zeta);
    assert_eq!(l0, all[0]);
    assert_eq!(z_h, from_fr(&ark_domain.evaluate_vanishing_polynomial(to_fr(&zeta))));
    // no panic at zeta = 1
    let (_, z_h, _) = vanishing_at(16, &fr(1));
    assert!(z_h.is_zero());
}

#[test]
fn interpolation_hits_the_values() {
    let mut rng = test_rng();
    let domain = Domain::new(8).unwrap();
    let evals: Vec<Scalar> = (0..8).map(|_| Scalar::random(&mut rng)).collect();
    let p = interpolate(&domain, &evals);
    for (i, e) in evals.iter().enumerate() {
        assert_eq!(p.evaluate(&domain.element(i)), *e);
    }
    let back = domain.fft(p.coeffs());
    assert_eq!(back, evals);
}

#[test]
fn domains_round_up_to_powers_of_two() {
    assert_eq!(Domain::new(5).unwrap().size(), 8);
    assert_eq!(Domain::new(0).unwrap().size(), 1);
    assert_eq!(Domain::new(1 << 20).unwrap().size(), 1 << 20);
    assert!(Domain::new((1usize << 32) + 1).is_none());
    let d = Domain::new(4).unwrap();
    assert_eq!(d.group_gen().pow(4), fr(1));
    assert!(d.get_coset(fr(0)).is_none());
    assert_eq!(d.get_coset(fr(7)).unwrap().element(1), d.group_gen().times(&fr(7)));
}

#[test]
fn polynomial_arithmetic() {
    let p = Poly::from_coefficients_vec(vec![fr(1), fr(2), fr(0)]);
    assert_eq!(p.coeffs().len(), 2);
    assert_eq!(p.degree(), 1);
    assert_eq!(p.evaluate(&fr(3)), fr(7));
    let q = Poly::from_coefficients_vec(vec![fr(5), Scalar::zero().minus(&fr(2))]);
    assert_eq!(p.plus(&q), Poly::from_coefficients_vec(vec![fr(6)]));
    assert_eq!(p.minus(&p), Poly::zero());
    assert_eq!(p.scale(&fr(3)), Poly::from_coefficients_vec(vec![fr(3), fr(6)]));
    assert!(p.scale(&fr(0)).is_zero());
    // (1 + 2X)(X^2 - 1) = -1 - 2X + X^2 + 2X^3
    let v = p.mul_by_vanishing_poly(2);
    assert_eq!(v.evaluate(&fr(2)), fr(15));
    assert_eq!(v.degree(), 3);
    assert_eq!(Poly::zero().degree(), 0);
}
