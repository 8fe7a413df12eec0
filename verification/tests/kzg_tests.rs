use ark_std::rand::RngCore;
use ark_std::test_rng;
use plonk::curve::{G1, G2};
use plonk::field::Scalar;
use plonk::kzg::{divide_by_linear, Opening, Srs, SrsError};
use plonk::poly::Poly;

fn fr(x: u64) -> Scalar {
    Scalar::from_u64(x)
}

/// A polynomial with `degree + 1` random coefficients.
fn rand_poly<R: RngCore>(degree: usize, rng: &mut R) -> Poly {
    Poly::from_coefficients_vec((0..=degree).map(|_| Scalar::random(rng)).collect())
}

/// `q * (X - z)`
fn times_x_minus(q: &Poly, z: &Scalar) -> Poly {
    let c = q.coeffs();
    let mut out = vec![Scalar::zero(); c.len() + 1];
    for (i, x) in c.iter().enumerate() {
        out[i + 1] = out[i + 1].plus(x);
        out[i] = out[i].minus(&x.times(z));
    }
    Poly::from_coefficients_vec(out)
}

#[test]
fn linear_division() {
    let mut rng = test_rng();
    let p = rand_poly(17, &mut rng);
    let z = Scalar::random(&mut rng);
    let (q, r) = divide_by_linear(&p, &z);
    assert_eq!(r, p.evaluate(&z));
    let back = times_x_minus(&q, &z).plus(&Poly::from_coefficients_vec(vec![r]));
    assert_eq!(back, p);
}

#[test]
fn commit_open_verify() {
    let mut rng = test_rng();
    let srs = Srs::setup(32, &mut rng);
    let vk = srs.verifier_key();

    let p = rand_poly(20, &mut rng);
    let c = srs.commit(&p);
    let z = Scalar::random(&mut rng);
    let (v, proof) = srs.open(&p, &z);
    assert_eq!(v, p.evaluate(&z));
    assert!(vk.verify(&c, &z, &v, &proof));

    // wrong value
    assert!(!vk.verify(&c, &z, &v.plus(&Scalar::one()), &proof));
    // wrong point
    assert!(!vk.verify(&c, &z.plus(&Scalar::one()), &v, &proof));
    // wrong commitment
    let c2 = srs.commit(&rand_poly(20, &mut rng));
    assert!(!vk.verify(&c2, &z, &v, &proof));
}

#[test]
fn batch_open() {
    let mut rng = test_rng();
    let srs = Srs::setup(32, &mut rng);
    let vk = srs.verifier_key();

    let polys: Vec<Poly> = (0..4).map(|i| rand_poly(10 + i, &mut rng)).collect();
    let refs: Vec<&Poly> = polys.iter().collect();
    let comms: Vec<_> = polys.iter().map(|p| srs.commit(p)).collect();

    let z = Scalar::random(&mut rng);
    let gamma = Scalar::random(&mut rng);
    let proof = srs.open_batch(&refs, &z, &gamma);
    let values: Vec<Scalar> = polys.iter().map(|p| p.evaluate(&z)).collect();
    assert!(vk.verify_batch(&comms, &z, &values, &gamma, &proof));

    let mut bad = values.clone();
    bad[2] = bad[2].plus(&Scalar::one());
    assert!(!vk.verify_batch(&comms, &z, &bad, &gamma, &proof));
    assert!(!vk.verify_batch(&comms, &z, &values, &gamma.plus(&Scalar::one()), &proof));
}

#[test]
fn multi_point() {
    let mut rng = test_rng();
    let srs = Srs::setup(32, &mut rng);
    let vk = srs.verifier_key();
    let p = rand_poly(12, &mut rng);
    let q = rand_poly(12, &mut rng);
    let (cp, cq) = (srs.commit(&p), srs.commit(&q));
    let (z1, z2) = (Scalar::random(&mut rng), Scalar::random(&mut rng));
    let (vp, wp) = srs.open(&p, &z1);
    let (vq, wq) = srs.open(&q, &z2);
    let u = Scalar::random(&mut rng);
    let op = |comm, point, value, proof| Opening { comm, point, value, proof };
    assert!(vk.verify_multi_point(&[op(cp, z1, vp, wp), op(cq, z2, vq, wq)], &u));
    assert!(!vk.verify_multi_point(&[op(cp, z1, vp, wp), op(cq, z2, vq.plus(&Scalar::one()), wq)], &u));
    assert!(!vk.verify_multi_point(&[op(cp, z1, vp, wq), op(cq, z2, vq, wp)], &u));
    assert!(!vk.verify_multi_point(&[op(cp, z2, vp, wp), op(cq, z1, vq, wq)], &u));
}

#[test]
fn ceremony_text_round_trip() {
    let mut rng = test_rng();
    let srs = Srs::setup(20, &mut rng);
    let text = srs.to_ceremony_text();
    assert!(text.starts_with("21\n2\n"));
    let back = Srs::from_ceremony_text(&text, &mut rng).unwrap();
    assert_eq!(back.powers_of_g, srs.powers_of_g);
    assert_eq!((back.h, back.tau_h), (srs.h, srs.tau_h));

    // a power from a different tau is caught
    let other = Srs::setup(20, &mut rng);
    let mut powers = srs.powers_of_g.clone();
    powers[7] = other.powers_of_g[7];
    assert_eq!(Srs::from_powers(powers, srs.h, srs.tau_h, &mut rng).err(), Some(SrsError::Inconsistent));
    assert_eq!(
        Srs::from_powers(srs.powers_of_g.clone(), srs.h, other.tau_h, &mut rng).err(),
        Some(SrsError::Inconsistent)
    );

    // garbage
    assert!(matches!(Srs::from_ceremony_text("2\n2\nzz\n", &mut rng), Err(SrsError::Parse(_))));
    assert!(matches!(Srs::from_ceremony_text(&text[..text.len() - 10], &mut rng), Err(SrsError::Parse(_))));
}

#[test]
fn constant_and_zero_polys() {
    let mut rng = test_rng();
    let srs = Srs::setup(4, &mut rng);
    let vk = srs.verifier_key();
    let z = Scalar::random(&mut rng);

    let zero = Poly::zero();
    let c = srs.commit(&zero);
    let (v, pi) = srs.open(&zero, &z);
    assert!(v.is_zero());
    assert!(vk.verify(&c, &z, &v, &pi));

    let k = Poly::from_coefficients_vec(vec![fr(7)]);
    let c = srs.commit(&k);
    let (v, pi) = srs.open(&k, &z);
    assert_eq!(v, fr(7));
    assert!(vk.verify(&c, &z, &v, &pi));
}

#[test]
fn division_of_a_known_polynomial() {
    // (X^2 + 3X + 2) / (X - 1) = X + 4, remainder 6
    let p = Poly::from_coefficients_vec(vec![fr(2), fr(3), fr(1)]);
    let (q, r) = divide_by_linear(&p, &fr(1));
    assert_eq!(q, Poly::from_coefficients_vec(vec![fr(4), fr(1)]));
    assert_eq!(r, fr(6));
    let (q, r) = divide_by_linear(&Poly::zero(), &fr(5));
    assert!(q.is_zero());
    assert!(r.is_zero());
}

#[test]
fn fold_weights_by_powers() {
    // p0 + 2 p1 + 4 p2 with constant polynomials 1, 1, 1
    let one = Poly::from_coefficients_vec(vec![fr(1)]);
    let f = plonk::kzg::fold(&[&one, &one, &one], &fr(2));
    assert_eq!(f, Poly::from_coefficients_vec(vec![fr(7)]));
}

#[test]
fn setup_sizes_and_short_powers() {
    let mut rng = test_rng();
    let srs = Srs::setup(9, &mut rng);
    assert_eq!(srs.max_degree(), 9);
    assert_eq!(srs.powers_of_g.len(), 10);
    assert_eq!(srs.verifier_key().g, srs.powers_of_g[0]);
    assert!(matches!(Srs::from_powers(vec![srs.powers_of_g[0]], srs.h, srs.tau_h, &mut rng), Err(SrsError::Parse(_))));
    let ok = Srs::from_powers(srs.powers_of_g.clone(), srs.h, srs.tau_h, &mut rng).unwrap();
    assert_eq!(ok.powers_of_g, srs.powers_of_g);
}

#[test]
fn ceremony_text_with_both_sections() {
    let mut rng = test_rng();
    let srs = Srs::setup(3, &mut rng);
    let text = srs.to_ceremony_text();
    let lines: Vec<&str> = text.lines().collect();
    // the long layout: a (here meaningless) Lagrange section before the G2
    // points, the monomial powers after them; blank lines and spaces are
    // ignored
    let mut long = String::from("4\n 2 \n\n");
    for _ in 0..4 {
        long.push_str(lines[2]);
        long.push('\n');
    }
    long.push_str(lines[6]);
    long.push('\n');
    long.push_str(lines[7]);
    long.push('\n');
    for l in &lines[2..6] {
        long.push_str("0x");
        long.push_str(l);
        long.push_str("\r\n");
    }
    let back = Srs::from_ceremony_text(&long, &mut rng).unwrap();
    assert_eq!(back.powers_of_g, srs.powers_of_g);
    // a G2 count below two is refused
    assert!(matches!(Srs::from_ceremony_text("4\n1\n", &mut rng), Err(SrsError::Parse(_))));
    assert!(matches!(Srs::from_ceremony_text("", &mut rng), Err(SrsError::Parse(_))));
}

#[test]
fn ceremony_text_with_unicode_whitespace() {
    let mut rng = test_rng();
    let srs = Srs::setup(4, &mut rng);
    let text = srs.to_ceremony_text().replace('\n', "\u{a0}\n");
    let back = Srs::from_ceremony_text(&text, &mut rng).unwrap();
    assert_eq!(back.powers_of_g, srs.powers_of_g);
    assert_eq!((back.h, back.tau_h), (srs.h, srs.tau_h));
}

#[test]
fn powers_over_other_base_points_are_accepted() {
    let mut rng = test_rng();
    let tau = fr(1234567);
    let srs = Srs::setup_with_tau(6, &tau);
    let (s, e) = (fr(11), fr(29));
    let scaled: Vec<G1> = srs.powers_of_g.iter().map(|p| p.scale(&s)).collect();
    let h = G2::generator_times(&e);
    let tau_h = G2::generator_times(&e.times(&tau));
    let back = Srs::from_powers(scaled.clone(), h, tau_h, &mut rng).unwrap();
    assert_eq!(back.powers_of_g, scaled);
    assert_eq!(back.h, h);
    assert_eq!(back.tau_h, tau_h);
    // the same points with `tau_h` for another `tau` are refused
    let wrong = G2::generator_times(&e.times(&tau.plus(&Scalar::one())));
    assert_eq!(Srs::from_powers(scaled, h, wrong, &mut rng).err(), Some(SrsError::Inconsistent));
}

#[test]
fn constant_opening_holds_at_every_point() {
    let mut rng = test_rng();
    let srs = Srs::setup(8, &mut rng);
    let vk = srs.verifier_key();
    let p = Poly::from_coefficients_vec(vec![fr(7)]);
    let c = srs.commit(&p);
    let z = fr(5);
    let (v, proof) = srs.open(&p, &z);
    assert_eq!(v, fr(7));
    assert!(vk.verify(&c, &z, &v, &proof));
    assert!(vk.verify(&c, &fr(6), &v, &proof));
    assert!(!vk.verify(&c, &z, &fr(8), &proof));
}

#[test]
fn ceremony_errors_name_the_section() {
    let mut rng = test_rng();
    let srs = Srs::setup(3, &mut rng);
    let hex: String = srs.powers_of_g[0].to_compressed().iter().map(|b| format!("{:02x}", b)).collect();
    let parse = |t: &str| -> Option<String> {
        let mut r = test_rng();
        match Srs::from_ceremony_text(t, &mut r) {
            Err(SrsError::Parse(m)) => Some(m),
            _ => None,
        }
    };
    assert_eq!(parse("2\n2\nzz\n").as_deref(), Some("bad hex in g1 lagrange"));
    assert_eq!(parse("1\n2\nabcd\n").as_deref(), Some("bad g1 point"));
    assert_eq!(parse(&format!("1\n2\n{}\n", hex)).as_deref(), Some("file ends inside g2"));
    assert_eq!(parse("x\n2\n").as_deref(), Some("bad g1 count: invalid digit found in string"));
    assert_eq!(
        parse("1\n99999999999999999999999\n").as_deref(),
        Some("bad g2 count: number too large to fit in target type")
    );
    assert_eq!(parse("").as_deref(), Some("missing g1 count"));
}

#[test]
fn commitment_is_linear() {
    let mut rng = test_rng();
    let srs = Srs::setup(16, &mut rng);
    let p = rand_poly(9, &mut rng);
    let q = rand_poly(12, &mut rng);
    let k = fr(77);
    let (cp, cq) = (srs.commit(&p).0, srs.commit(&q).0);
    assert_eq!(srs.commit(&p.plus(&q)).0, cp.plus(&cq));
    assert_eq!(srs.commit(&p.scale(&k)).0, cp.scale(&k));
    assert_eq!(srs.commit(&Poly::zero()).0, G1::identity());
}
