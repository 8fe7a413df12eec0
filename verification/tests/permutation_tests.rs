use ark_std::test_rng;
use plonk::circuit::{Circuit, Variable};
use plonk::field::Scalar;
use plonk::permutation::{coset_generators, Permutation};
use plonk::poly::Domain;

fn fr(x: u64) -> Scalar {
    Scalar::from_u64(x)
}

fn small_circuit() -> Circuit {
    let mut c = Circuit::new();
    let x = c.allocate(fr(3));
    let y = c.allocate(fr(4));
    let xy = c.mul(x, y);
    let s = c.add(xy, x);
    let k = c.constant(fr(15));
    c.assert_equal(s, k);
    c
}

#[test]
fn sigma_is_a_permutation() {
    let c = small_circuit();
    let n = 8;
    let p = Permutation::from_circuit(&c, n);
    let mut seen = vec![false; 3 * n];
    for &s in p.sigma() {
        assert!(!seen[s]);
        seen[s] = true;
    }
    assert!(seen.iter().all(|&b| b));
}

#[test]
fn cycles_follow_variables() {
    let c = small_circuit();
    let n = 8;
    let p = Permutation::from_circuit(&c, n);
    let mut slots = vec![Variable::zero(); 3 * n];
    for (row, g) in c.gates().iter().enumerate() {
        slots[row] = g.a;
        slots[n + row] = g.b;
        slots[2 * n + row] = g.c;
    }
    for (pos, &next) in p.sigma().iter().enumerate() {
        assert_eq!(slots[pos], slots[next]);
    }
}

#[test]
fn cosets_are_disjoint() {
    for log in 1..8 {
        let domain = Domain::new(1 << log).unwrap();
        let (k1, k2) = coset_generators(&domain).unwrap();
        let n = domain.size() as u64;
        assert!(!k1.pow(n).is_one());
        assert!(!k2.pow(n).is_one());
        assert!(!k2.times(&k1.inverse().unwrap()).pow(n).is_one());
    }
}

/// The whole point: the product over slots of `(w + beta*id + gamma)` equals
/// the product of `(w + beta*perm + gamma)` iff wires respect the copies.
#[test]
fn grand_product_identity() {
    let mut rng = test_rng();
    let c = small_circuit();
    let n = 8;
    let domain = Domain::new(n).unwrap();
    let (k1, k2) = coset_generators(&domain).unwrap();
    let p = Permutation::from_circuit(&c, n);
    let (id, perm) = p.labels(&domain, &k1, &k2);

    let mut w = vec![fr(0); 3 * n];
    for (row, g) in c.gates().iter().enumerate() {
        w[row] = c.value(g.a);
        w[n + row] = c.value(g.b);
        w[2 * n + row] = c.value(g.c);
    }
    let beta = Scalar::random(&mut rng);
    let gamma = Scalar::random(&mut rng);
    let prod = |labels: &[Scalar], w: &[Scalar]| {
        w.iter().zip(labels).fold(Scalar::one(), |acc, (w, l)| acc.times(&w.plus(&beta.times(l)).plus(&gamma)))
    };
    assert_eq!(prod(&id, &w), prod(&perm, &w));

    // break one copy: gate 1 is `x*y = xy`, gate 2 uses xy again
    let mut bad = w.clone();
    bad[2 * n + 1] = bad[2 * n + 1].plus(&fr(1));
    assert_ne!(prod(&id, &bad), prod(&perm, &bad));
}

#[test]
fn from_slots_links_each_variable_in_order() {
    let v = |i: usize| Variable(i);
    let slots = [v(1), v(2), v(1), v(0), v(1), v(2)];
    let p = Permutation::from_slots(&slots, 2);
    assert_eq!(p.n(), 2);
    assert_eq!(p.sigma(), &[2, 5, 4, 3, 0, 1]);
}

#[test]
fn coset_generators_are_the_smallest() {
    let domain = Domain::new(8).unwrap();
    let (k1, k2) = coset_generators(&domain).unwrap();
    assert_eq!(k1, fr(2));
    assert_eq!(k2, fr(3));
}

#[test]
fn sigma_polys_take_the_permuted_labels() {
    let c = small_circuit();
    let n = 8;
    let domain = Domain::new(n).unwrap();
    let (k1, k2) = coset_generators(&domain).unwrap();
    let p = Permutation::from_circuit(&c, n);
    let (_, perm) = p.labels(&domain, &k1, &k2);
    let polys = p.sigma_polys(&domain, &k1, &k2);
    for col in 0..3 {
        for i in 0..n {
            assert_eq!(polys[col].evaluate(&domain.element(i)), perm[col * n + i]);
        }
    }
}
