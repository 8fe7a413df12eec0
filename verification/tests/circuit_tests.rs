use plonk::circuit::{Circuit, Variable};
use plonk::field::Scalar;

fn fr(x: u64) -> Scalar {
    Scalar::from_u64(x)
}

#[test]
fn arithmetic() {
    let mut c = Circuit::new();
    let x = c.allocate(fr(3));
    let y = c.allocate(fr(4));
    let xy = c.mul(x, y);
    let s = c.add(xy, x);
    let fifteen = c.constant(fr(15));
    c.assert_equal(s, fifteen);
    assert!(c.is_satisfied());
    assert_eq!(c.value(s), fr(15));
    assert_eq!(c.root(s), c.root(fifteen));
    assert_eq!(c.constant(fr(15)), fifteen);
}

#[test]
fn merged_variables_must_agree() {
    let mut c = Circuit::new();
    let x = c.allocate(fr(3));
    let y = c.allocate(fr(4));
    assert!(c.is_satisfied());
    c.assert_equal(x, y);
    assert!(!c.is_satisfied());
    // chains resolve to one root
    let mut c = Circuit::new();
    let vs: Vec<Variable> = (0..5).map(|_| c.allocate(fr(9))).collect();
    for w in vs.windows(2) {
        c.assert_equal(w[1], w[0]);
    }
    assert!(vs.iter().all(|v| c.root(*v) == c.root(vs[0])));
    assert!(c.is_satisfied());
}

#[test]
fn helpers() {
    let mut c = Circuit::new();
    let x = c.allocate(fr(10));
    let y = c.allocate(fr(3));
    let d = c.sub(x, y);
    c.assert_const(d, fr(7));
    let e = c.add_const(d, fr(5));
    c.assert_const(e, fr(12));
    let f = c.mul_const(e, fr(2));
    c.assert_const(f, fr(24));
    let g = c.mul_add(x, y, f);
    c.assert_const(g, fr(54));
    assert!(c.is_satisfied());
}

#[test]
fn booleans_and_bits() {
    let mut c = Circuit::new();
    let one = c.allocate(fr(1));
    c.assert_bool(one);
    let two = c.allocate(fr(2));
    c.assert_bool(two);
    assert!(!c.is_satisfied());

    let mut c = Circuit::new();
    let x = c.allocate(fr(0b1011));
    let bits = c.to_bits(x, 4);
    assert!(c.is_satisfied());
    assert_eq!(bits.iter().map(|b| c.value(*b)).collect::<Vec<_>>(), vec![fr(1), fr(1), fr(0), fr(1)]);
    // doesn't fit in 3 bits
    let mut c = Circuit::new();
    let x = c.allocate(fr(0b1011));
    c.to_bits(x, 3);
    assert!(!c.is_satisfied());
}

#[test]
fn public_inputs_come_first() {
    let mut c = Circuit::new();
    let x = c.allocate(fr(3));
    let y = c.public_input(fr(4));
    let xy = c.mul(x, y);
    let out = c.public_input(fr(12));
    c.assert_equal(xy, out);
    assert!(c.is_satisfied());
    assert_eq!(c.num_public_inputs(), 2);
    assert_eq!(c.public_inputs(), vec![fr(4), fr(12)]);
    assert_eq!(c.gates()[0].a, y);
    assert_eq!(c.gates()[1].a, out);
    assert_eq!(c.gates()[2].a, Variable::zero());
}

#[test]
fn bad_witness() {
    let mut c = Circuit::new();
    let x = c.allocate(fr(3));
    let y = c.allocate(fr(4));
    let xy = c.mul(x, y);
    let thirteen = c.constant(fr(13));
    c.assert_equal(xy, thirteen);
    assert!(!c.is_satisfied());
}

#[test]
fn constants_are_shared_and_fixed() {
    let mut c = Circuit::new();
    let a = c.constant(fr(5));
    let b = c.constant(fr(5));
    let d = c.constant(fr(6));
    assert_eq!(a, b);
    assert_ne!(a, d);
    assert_eq!(c.value(a), fr(5));
    assert!(c.is_satisfied());
}

#[test]
fn new_circuit_has_the_zero_gate() {
    let c = Circuit::new();
    assert_eq!(c.num_gates(), 1);
    assert_eq!(c.num_variables(), 1);
    assert_eq!(c.value(Variable::zero()), fr(0));
    assert!(c.is_satisfied());
}
