use plonk::field::Scalar;
use plonk::transcript::Transcript;

fn fr(x: u64) -> Scalar {
    Scalar::from_u64(x)
}

#[test]
fn deterministic() {
    let mut a = Transcript::new(b"test");
    let mut b = Transcript::new(b"test");
    a.absorb(b"x", &fr(5));
    b.absorb(b"x", &fr(5));
    assert_eq!(a.challenge(b"c"), b.challenge(b"c"));
}

#[test]
fn different_inputs_different_challenges() {
    let mut a = Transcript::new(b"test");
    let mut b = Transcript::new(b"test");
    a.absorb(b"x", &fr(5));
    b.absorb(b"x", &fr(6));
    assert_ne!(a.challenge(b"c"), b.challenge(b"c"));

    let mut c = Transcript::new(b"test");
    c.absorb(b"y", &fr(5));
    let mut a2 = Transcript::new(b"test");
    a2.absorb(b"x", &fr(5));
    assert_ne!(a2.challenge(b"c"), c.challenge(b"c"));
}

#[test]
fn consecutive_challenges_differ() {
    let mut t = Transcript::new(b"test");
    let c1 = t.challenge(b"c");
    let c2 = t.challenge(b"c");
    assert_ne!(c1, c2);
}

#[test]
fn labels_matter() {
    let mut a = Transcript::new(b"one");
    let mut b = Transcript::new(b"two");
    assert_ne!(a.challenge(b"c"), b.challenge(b"c"));
    let mut a = Transcript::new(b"t");
    let mut b = Transcript::new(b"t");
    a.absorb_bytes(b"m", b"abc");
    b.absorb_bytes(b"m", b"abd");
    assert_ne!(a.challenge(b"c"), b.challenge(b"c"));
}
