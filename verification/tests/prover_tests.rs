use ark_std::test_rng;
use plonk::circuit::Circuit;
use plonk::field::Scalar;
use plonk::kzg::Srs;
use plonk::poly::{interpolate, Domain};
use plonk::preprocess::preprocess;
use plonk::prover::{accumulator, blind, public_input_poly, quotient, quotient_with, wire_polys, ProveError, Witness};

fn fr(x: u64) -> Scalar {
    Scalar::from_u64(x)
}

fn circuit() -> Circuit {
    let mut c = Circuit::new();
    let x = c.allocate(fr(3));
    let y = c.public_input(fr(4));
    let xy = c.mul(x, y);
    let s = c.add(xy, x);
    let k = c.constant(fr(15));
    c.assert_equal(s, k);
    let y2 = c.mul(y, y);
    let _ = c.add(y2, s);
    c
}

/// `x + beta * l + gamma`
fn term(x: &Scalar, beta: &Scalar, l: &Scalar, gamma: &Scalar) -> Scalar {
    x.plus(&beta.times(l)).plus(gamma)
}

#[test]
fn accumulator_closes() {
    let mut rng = test_rng();
    let srs = Srs::setup(32, &mut rng);
    let c = circuit();
    let pk = preprocess(&c, &srs).unwrap();
    let w = Witness::from_circuit(&c, pk.domain.size());
    let (beta, gamma) = (Scalar::random(&mut rng), Scalar::random(&mut rng));
    let z = accumulator(&pk, &w, &beta, &gamma, &mut rng).unwrap();
    assert_eq!(z.evaluate(&Scalar::one()), Scalar::one());
    // z(omega^n) = z(1) = 1 is the wrap-around; check the recurrence too
    let n = pk.domain.size();
    let (id, perm) = pk.permutation.labels(&pk.domain, &pk.k1, &pk.k2);
    for i in 0..n {
        let x = pk.domain.element(i);
        let num = term(&w.a[i], &beta, &id[i], &gamma)
            .times(&term(&w.b[i], &beta, &id[n + i], &gamma))
            .times(&term(&w.c[i], &beta, &id[2 * n + i], &gamma));
        let den = term(&w.a[i], &beta, &perm[i], &gamma)
            .times(&term(&w.b[i], &beta, &perm[n + i], &gamma))
            .times(&term(&w.c[i], &beta, &perm[2 * n + i], &gamma));
        assert_eq!(z.evaluate(&x.times(&pk.domain.group_gen())).times(&den), z.evaluate(&x).times(&num));
    }
}

#[test]
fn blinding_keeps_domain_values() {
    let mut rng = test_rng();
    let domain = Domain::new(8).unwrap();
    let evals: Vec<Scalar> = (0..8).map(|_| Scalar::random(&mut rng)).collect();
    let p = interpolate(&domain, &evals);
    let q = blind(&domain, p.clone(), 2, &mut rng);
    assert_ne!(p, q);
    assert_eq!(q.degree(), 10);
    for (i, e) in evals.iter().enumerate() {
        assert_eq!(q.evaluate(&domain.element(i)), *e);
    }
}

#[test]
fn quotient_divides_exactly() {
    let mut rng = test_rng();
    let srs = Srs::setup(32, &mut rng);
    let c = circuit();
    let pk = preprocess(&c, &srs).unwrap();
    let n = pk.domain.size();
    let w = Witness::from_circuit(&c, n);
    let (beta, gamma, alpha) = (Scalar::random(&mut rng), Scalar::random(&mut rng), Scalar::random(&mut rng));
    let wires = wire_polys(&pk, &w, &mut rng);
    let z = accumulator(&pk, &w, &beta, &gamma, &mut rng).unwrap();
    let pi = public_input_poly(&pk.domain, &c.public_inputs());
    let [t_lo, t_mid, t_hi] = quotient(&pk, &wires, &z, &pi, &beta, &gamma, &alpha, &mut rng).unwrap();
    assert!(t_lo.degree() <= n && t_mid.degree() <= n && t_hi.degree() < n + 6);

    // reassemble and spot-check the identity at a random point
    let zeta = Scalar::random(&mut rng);
    let zn = zeta.pow(n as u64);
    let t = t_lo.evaluate(&zeta).plus(&zn.times(&t_mid.evaluate(&zeta))).plus(&zn.times(&zn).times(&t_hi.evaluate(&zeta)));
    let zh = pk.domain.evaluate_vanishing_polynomial(&zeta);
    let [a, b, cc] = [wires[0].evaluate(&zeta), wires[1].evaluate(&zeta), wires[2].evaluate(&zeta)];
    let [s1, s2, s3] = [
        pk.s_sigma[0].poly.evaluate(&zeta),
        pk.s_sigma[1].poly.evaluate(&zeta),
        pk.s_sigma[2].poly.evaluate(&zeta),
    ];
    let q: Vec<Scalar> = pk.selectors.iter().map(|s| s.poly.evaluate(&zeta)).collect();
    let (q_l, q_r, q_o, q_m, q_c) = (q[0], q[1], q[2], q[3], q[4]);
    let gate = a
        .times(&b)
        .times(&q_m)
        .plus(&a.times(&q_l))
        .plus(&b.times(&q_r))
        .plus(&cc.times(&q_o))
        .plus(&q_c)
        .plus(&pi.evaluate(&zeta));
    let f = term(&a, &beta, &zeta, &gamma)
        .times(&term(&b, &beta, &pk.k1.times(&zeta), &gamma))
        .times(&term(&cc, &beta, &pk.k2.times(&zeta), &gamma));
    let g = term(&a, &beta, &s1, &gamma).times(&term(&b, &beta, &s2, &gamma)).times(&term(&cc, &beta, &s3, &gamma));
    let zz = z.evaluate(&zeta);
    let zw = z.evaluate(&zeta.times(&pk.domain.group_gen()));
    let l1 = pk.l1.poly.evaluate(&zeta);
    let lhs = gate
        .plus(&alpha.times(&f.times(&zz).minus(&g.times(&zw))))
        .plus(&alpha.times(&alpha).times(&zz.minus(&Scalar::one())).times(&l1));
    assert_eq!(lhs, t.times(&zh));
}

#[test]
fn bad_witness_has_remainder() {
    let mut rng = test_rng();
    let srs = Srs::setup(32, &mut rng);
    let mut c = Circuit::new();
    let x = c.allocate(fr(3));
    let y = c.allocate(fr(4));
    let xy = c.mul(x, y);
    let k = c.constant(fr(13));
    c.assert_equal(xy, k);
    let pk = preprocess(&c, &srs).unwrap();
    let w = Witness::from_circuit(&c, pk.domain.size());
    let (beta, gamma, alpha) = (Scalar::random(&mut rng), Scalar::random(&mut rng), Scalar::random(&mut rng));
    let wires = wire_polys(&pk, &w, &mut rng);
    let z = accumulator(&pk, &w, &beta, &gamma, &mut rng).unwrap();
    let pi = public_input_poly(&pk.domain, &[]);
    assert_eq!(quotient(&pk, &wires, &z, &pi, &beta, &gamma, &alpha, &mut rng).err(), Some(ProveError::Unsatisfied));
}

#[test]
fn witness_pads_with_zeros() {
    let c = circuit();
    let w = Witness::from_circuit(&c, 16);
    assert_eq!(w.a.len(), 16);
    assert!(w.c[15].is_zero());
    // row 0 is the public input, row 1 the zero gate
    assert_eq!(w.a[0], fr(4));
    assert!(w.a[1].is_zero());
}

#[test]
fn public_input_polynomial_holds_negated_inputs() {
    let domain = Domain::new(8).unwrap();
    let p = public_input_poly(&domain, &[fr(4), fr(9)]);
    assert_eq!(p.evaluate(&domain.element(0)), Scalar::zero().minus(&fr(4)));
    assert_eq!(p.evaluate(&domain.element(1)), Scalar::zero().minus(&fr(9)));
    assert!(p.evaluate(&domain.element(2)).is_zero());
}

#[test]
fn quotient_pieces_blinding_cancels() {
    let mut rng = test_rng();
    let srs = Srs::setup(32, &mut rng);
    let c = circuit();
    let pk = preprocess(&c, &srs).unwrap();
    let n = pk.domain.size();
    let w = Witness::from_circuit(&c, n);
    let (beta, gamma, alpha) = (Scalar::random(&mut rng), Scalar::random(&mut rng), Scalar::random(&mut rng));
    let wires = wire_polys(&pk, &w, &mut rng);
    let z = accumulator(&pk, &w, &beta, &gamma, &mut rng).unwrap();
    let pi = public_input_poly(&pk.domain, &c.public_inputs());
    let zero = Scalar::zero();
    let plain = quotient_with(&pk, &wires, &z, &pi, &beta, &gamma, &alpha, &zero, &zero).unwrap();
    let (b10, b11) = (Scalar::random(&mut rng), Scalar::random(&mut rng));
    let blinded = quotient_with(&pk, &wires, &z, &pi, &beta, &gamma, &alpha, &b10, &b11).unwrap();
    assert_ne!(plain[0], blinded[0]);
    assert_ne!(plain[1], blinded[1]);
    let x = Scalar::random(&mut rng);
    let xn = x.pow(n as u64);
    let whole = |t: &[plonk::poly::Poly; 3]| {
        t[0].evaluate(&x).plus(&xn.times(&t[1].evaluate(&x))).plus(&xn.times(&xn).times(&t[2].evaluate(&x)))
    };
    assert_eq!(whole(&plain), whole(&blinded));
}
