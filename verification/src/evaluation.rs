//! Identities of polynomial evaluation: trailing zeros, sums and products
//! with the vanishing polynomial of a subgroup.
//!
//! `poly_eval` reduces modulo the field's order at every step. The proofs
//! go through `horner`, the same evaluation over the integers, which is
//! linear in the coefficients, and reduce once at the end.

use vstd::prelude::*;
use crate::field::{fadd, field_dot, fmul, fpow, modulus, lemma_modulus_pos};
use crate::poly::{coeff, max_len, poly_add, poly_eval, poly_mul_vanishing, trim, lemma_trim_props};
use vstd::arithmetic::power::pow;

verus! {

/// Horner evaluation at `x` of the coefficients `f(0), ..., f(len - 1)`,
/// over the integers.
pub open spec fn horner(f: spec_fn(int) -> int, len: nat, x: int) -> int
    decreases len,
{
    if len == 0 {
        0
    } else {
        horner(|i: int| f(i + 1), (len - 1) as nat, x) * x + f(0)
    }
}

/// The coefficients of `s`, zero past the end.
pub open spec fn coeffs_of(s: Seq<nat>) -> spec_fn(int) -> int {
    |i: int| coeff(s, i) as int
}

/// `horner` reads only the first `len` coefficients.
pub proof fn lemma_horner_ext(f: spec_fn(int) -> int, g: spec_fn(int) -> int, len: nat, x: int)
    requires
        forall|i: int| 0 <= i < len ==> #[trigger] f(i) == g(i),
    ensures
        horner(f, len, x) == horner(g, len, x),
    decreases len,
{
    if len > 0 {
        lemma_horner_ext(|i: int| f(i + 1), |i: int| g(i + 1), (len - 1) as nat, x);
    }
}

/// Coefficients that are zero from `k` on can be left out.
pub proof fn lemma_horner_zeros(f: spec_fn(int) -> int, k: nat, len: nat, x: int)
    requires
        k <= len,
        forall|i: int| k <= i < len ==> #[trigger] f(i) == 0,
    ensures
        horner(f, len, x) == horner(f, k, x),
    decreases k, len,
{
    if k == 0 {
        if len > 0 {
            lemma_horner_zeros(|i: int| f(i + 1), 0, (len - 1) as nat, x);
        }
    } else {
        lemma_horner_zeros(|i: int| f(i + 1), (k - 1) as nat, (len - 1) as nat, x);
    }
}

/// `horner` is additive in the coefficients.
pub proof fn lemma_horner_add(f: spec_fn(int) -> int, g: spec_fn(int) -> int, len: nat, x: int)
    ensures
        horner(|i: int| f(i) + g(i), len, x) == horner(f, len, x) + horner(g, len, x),
    decreases len,
{
    if len > 0 {
        let (f1, g1) = (|i: int| f(i + 1), |i: int| g(i + 1));
        lemma_horner_add(f1, g1, (len - 1) as nat, x);
        let h = |i: int| f(i) + g(i);
        lemma_horner_ext(|i: int| f1(i) + g1(i), |i: int| h(i + 1), (len - 1) as nat, x);
        assert(horner(h, len, x) == horner(|i: int| h(i + 1), (len - 1) as nat, x) * x + h(0));
        let (a, b) = (horner(f1, (len - 1) as nat, x), horner(g1, (len - 1) as nat, x));
        assert((a + b) * x == a * x + b * x) by (nonlinear_arith);
    }
}

/// `horner` is subtractive in the coefficients.
proof fn lemma_horner_sub(f: spec_fn(int) -> int, g: spec_fn(int) -> int, len: nat, x: int)
    ensures
        horner(|i: int| f(i) - g(i), len, x) == horner(f, len, x) - horner(g, len, x),
    decreases len,
{
    if len > 0 {
        let (f1, g1) = (|i: int| f(i + 1), |i: int| g(i + 1));
        lemma_horner_sub(f1, g1, (len - 1) as nat, x);
        let h = |i: int| f(i) - g(i);
        lemma_horner_ext(|i: int| f1(i) - g1(i), |i: int| h(i + 1), (len - 1) as nat, x);
        assert(horner(h, len, x) == horner(|i: int| h(i + 1), (len - 1) as nat, x) * x + h(0));
        let (a, b) = (horner(f1, (len - 1) as nat, x), horner(g1, (len - 1) as nat, x));
        assert((a - b) * x == a * x - b * x) by (nonlinear_arith);
    }
}

/// `horner` is homogeneous in the coefficients.
pub proof fn lemma_horner_scale(f: spec_fn(int) -> int, k: int, len: nat, x: int)
    ensures
        horner(|i: int| k * f(i), len, x) == k * horner(f, len, x),
    decreases len,
{
    if len > 0 {
        let f1 = |i: int| f(i + 1);
        lemma_horner_scale(f1, k, (len - 1) as nat, x);
        let h = |i: int| k * f(i);
        lemma_horner_ext(|i: int| k * f1(i), |i: int| h(i + 1), (len - 1) as nat, x);
        assert(horner(h, len, x) == horner(|i: int| h(i + 1), (len - 1) as nat, x) * x + h(0));
        let a = horner(f1, (len - 1) as nat, x);
        assert((k * a) * x + k * f(0) == k * (a * x + f(0))) by (nonlinear_arith);
    }
}

/// Shifting the coefficients up by `n` places multiplies by `x^n`.
proof fn lemma_horner_shift(f: spec_fn(int) -> int, n: nat, len: nat, x: int)
    ensures
        horner(|i: int| if i >= n { f(i - n) } else { 0 }, n + len, x) == pow(x, n) * horner(f, len, x),
    decreases n,
{
    let sh = |i: int| if i >= n { f(i - n) } else { 0 };
    if n == 0 {
        lemma_horner_ext(sh, f, len, x);
        assert(pow(x, 0) == 1) by {
            vstd::arithmetic::power::lemma_pow0(x);
        }
    } else {
        let n1 = (n - 1) as nat;
        lemma_horner_shift(f, n1, len, x);
        lemma_horner_ext(|i: int| sh(i + 1), |i: int| if i >= n1 { f(i - n1) } else { 0 }, n1 + len, x);
        let h = horner(f, len, x);
        assert(pow(x, n) == x * pow(x, n1)) by {
            reveal(pow);
        }
        assert(pow(x, n1) * h * x == pow(x, n) * h) by (nonlinear_arith)
            requires pow(x, n) == x * pow(x, n1);
    }
}

/// Splitting the coefficients at `k`: `f = f_low + x^k f_high`.
pub proof fn lemma_horner_split(f: spec_fn(int) -> int, k: nat, m: nat, x: int)
    ensures
        horner(f, k + m, x) == horner(f, k, x) + pow(x, k) * horner(|i: int| f(i + k), m, x),
    decreases k,
{
    if k == 0 {
        lemma_horner_ext(f, |i: int| f(i + k), m, x);
        assert(pow(x, 0) == 1) by {
            vstd::arithmetic::power::lemma_pow0(x);
        }
    } else {
        let k1 = (k - 1) as nat;
        let f1 = |i: int| f(i + 1);
        lemma_horner_split(f1, k1, m, x);
        lemma_horner_ext(|i: int| f1(i + k1), |i: int| f(i + k), m, x);
        let (a, b) = (horner(f1, k1, x), horner(|i: int| f(i + k), m, x));
        assert(pow(x, k) == x * pow(x, k1)) by {
            reveal(pow);
        }
        assert((a + pow(x, k1) * b) * x == a * x + pow(x, k) * b) by (nonlinear_arith)
            requires pow(x, k) == x * pow(x, k1);
    }
}

/// Changing the constant coefficient changes the value by the difference.
pub proof fn lemma_horner_first(f: spec_fn(int) -> int, g: spec_fn(int) -> int, len: nat, x: int)
    requires
        len >= 1,
        forall|i: int| 1 <= i < len ==> #[trigger] f(i) == g(i),
    ensures
        horner(f, len, x) - f(0) == horner(g, len, x) - g(0),
{
    lemma_horner_ext(|i: int| f(i + 1), |i: int| g(i + 1), (len - 1) as nat, x);
}

/// Coefficients that agree modulo the field's order give evaluations that
/// agree modulo it.
pub proof fn lemma_horner_cong(f: spec_fn(int) -> int, g: spec_fn(int) -> int, len: nat, x: int)
    requires
        forall|i: int| 0 <= i < len ==> #[trigger] f(i) % (modulus() as int) == g(i) % (modulus() as int),
    ensures
        horner(f, len, x) % (modulus() as int) == horner(g, len, x) % (modulus() as int),
    decreases len,
{
    let m = modulus() as int;
    lemma_modulus_pos();
    if len > 0 {
        let (f1, g1) = (|i: int| f(i + 1), |i: int| g(i + 1));
        assert forall|i: int| 0 <= i < len - 1 implies #[trigger] f1(i) % m == g1(i) % m by {
            assert(f(i + 1) % m == g(i + 1) % m);
        }
        lemma_horner_cong(f1, g1, (len - 1) as nat, x);
        let (a, b) = (horner(f1, (len - 1) as nat, x), horner(g1, (len - 1) as nat, x));
        vstd::arithmetic::div_mod::lemma_mul_mod_noop_left(a, x, m);
        vstd::arithmetic::div_mod::lemma_mul_mod_noop_left(b, x, m);
        vstd::arithmetic::div_mod::lemma_add_mod_noop(a * x, f(0), m);
        vstd::arithmetic::div_mod::lemma_add_mod_noop(b * x, g(0), m);
        assert(f(0) % m == g(0) % m);
    }
}

/// `poly_eval` is `horner` reduced once.
pub proof fn lemma_eval_horner(s: Seq<nat>, x: nat)
    ensures
        poly_eval(s, x) as int == horner(coeffs_of(s), s.len(), x as int) % (modulus() as int),
    decreases s.len(),
{
    let m = modulus() as int;
    lemma_modulus_pos();
    if s.len() > 0 {
        let t = s.drop_first();
        lemma_eval_horner(t, x);
        lemma_horner_ext(|i: int| coeffs_of(s)(i + 1), coeffs_of(t), t.len(), x as int);
        let h = horner(coeffs_of(t), t.len(), x as int);
        vstd::arithmetic::div_mod::lemma_mul_mod_noop_left(h, x as int, m);
        vstd::arithmetic::div_mod::lemma_add_mod_noop(h * x, s[0] as int, m);
        vstd::arithmetic::div_mod::lemma_add_mod_noop((h * x) % m, s[0] as int, m);
        vstd::arithmetic::div_mod::lemma_mod_twice(h * x, m);
    }
}

/// A value is a reduced field element.
pub proof fn lemma_eval_reduced(s: Seq<nat>, x: nat)
    ensures
        poly_eval(s, x) < modulus(),
{
    lemma_modulus_pos();
    lemma_eval_horner(s, x);
    vstd::arithmetic::div_mod::lemma_mod_bound(horner(coeffs_of(s), s.len(), x as int), modulus() as int);
}

/// One Horner step, modulo the field's order: `s(x) = s'(x) x + s_0` for the
/// tail `s'` of `s`.
pub proof fn lemma_eval_step(s: Seq<nat>, x: nat)
    requires
        s.len() > 0,
    ensures
        (poly_eval(s, x) as int) % (modulus() as int) == (poly_eval(s.drop_first(), x) * x + s[0]) as int % (
        modulus() as int),
{
    let m = modulus() as int;
    lemma_modulus_pos();
    let e = poly_eval(s.drop_first(), x) as int;
    vstd::arithmetic::div_mod::lemma_add_mod_noop((e * x) % m, s[0] as int, m);
    vstd::arithmetic::div_mod::lemma_add_mod_noop(e * x, s[0] as int, m);
    vstd::arithmetic::div_mod::lemma_mod_twice(e * x, m);
    vstd::arithmetic::div_mod::lemma_mod_twice(((e * x) % m + s[0]) as int, m);
}

/// Congruent factors give congruent products.
pub proof fn lemma_cong_mul(a: int, b: int, k: int)
    requires
        a % (modulus() as int) == b % (modulus() as int),
    ensures
        (a * k) % (modulus() as int) == (b * k) % (modulus() as int),
{
    let m = modulus() as int;
    lemma_modulus_pos();
    vstd::arithmetic::div_mod::lemma_mul_mod_noop_left(a, k, m);
    vstd::arithmetic::div_mod::lemma_mul_mod_noop_left(b, k, m);
}

/// Congruent summands give congruent sums.
pub proof fn lemma_cong_add(a: int, b: int, c: int, d: int)
    requires
        a % (modulus() as int) == b % (modulus() as int),
        c % (modulus() as int) == d % (modulus() as int),
    ensures
        (a + c) % (modulus() as int) == (b + d) % (modulus() as int),
{
    let m = modulus() as int;
    lemma_modulus_pos();
    vstd::arithmetic::div_mod::lemma_add_mod_noop(a, c, m);
    vstd::arithmetic::div_mod::lemma_add_mod_noop(b, d, m);
}

/// Congruent factors on both sides give congruent products.
pub proof fn lemma_cong_mul2(a: int, a2: int, b: int, b2: int)
    requires
        a % (modulus() as int) == a2 % (modulus() as int),
        b % (modulus() as int) == b2 % (modulus() as int),
    ensures
        (a * b) % (modulus() as int) == (a2 * b2) % (modulus() as int),
{
    lemma_cong_mul(a, a2, b);
    lemma_cong_mul(b, b2, a2);
    assert(a2 * b == b * a2 && a2 * b2 == b2 * a2) by (nonlinear_arith);
}

/// A value is congruent to `horner` of its coefficients, whatever trailing
/// zeros were trimmed.
pub proof fn lemma_eval_cong(s: Seq<nat>, x: nat)
    ensures
        (poly_eval(trim(s), x) as int) % (modulus() as int) == horner(coeffs_of(s), s.len(), x as int) % (modulus() as int),
{
    lemma_modulus_pos();
    lemma_eval_trim(s, x);
    lemma_eval_horner(s, x);
    vstd::arithmetic::div_mod::lemma_mod_twice(horner(coeffs_of(s), s.len(), x as int), modulus() as int);
}

/// The sum `sum_i s_i t^(i + k)` is `t^k s(t)`.
pub proof fn lemma_dot_powers(s: Seq<nat>, t: nat, k: nat)
    ensures
        field_dot(s, Seq::new(s.len(), |i: int| fpow(t, (i + k) as nat))) == fmul(fpow(t, k), poly_eval(s, t)),
    decreases s.len(),
{
    let m = modulus() as int;
    lemma_modulus_pos();
    let e = Seq::new(s.len(), |i: int| fpow(t, (i + k) as nat));
    let tk = fpow(t, k);
    if s.len() == 0 {
        assert(tk * 0 == 0) by (nonlinear_arith);
        vstd::arithmetic::div_mod::lemma_small_mod(0, modulus());
    } else {
        let s1 = s.drop_first();
        let e1 = Seq::new(s1.len(), |i: int| fpow(t, (i + (k + 1)) as nat));
        assert(e.drop_first() =~= e1) by {
            assert forall|i: int| 0 <= i < e1.len() implies e.drop_first()[i] == e1[i] by {
                assert((i + 1 + k) as nat == (i + (k + 1)) as nat);
            }
        }
        lemma_dot_powers(s1, t, k + 1);
        let ev1 = poly_eval(s1, t) as int;
        let tk1 = fpow(t, k + 1) as int;
        assert(fpow(t, k + 1) == fmul(tk, t));
        // the sum: s0 t^k + t^(k+1) s1(t)
        let d1 = field_dot(s1, e1) as int;
        vstd::arithmetic::div_mod::lemma_mod_twice((s[0] * tk) as int, m);
        lemma_cong_mul(tk1, (tk * t) as int, ev1);
        vstd::arithmetic::div_mod::lemma_mod_twice(tk1 * ev1, m);
        vstd::arithmetic::div_mod::lemma_mod_twice((tk * t) as int, m);
        lemma_cong_add(fmul(s[0], tk) as int, (s[0] * tk) as int, d1, tk * t * ev1);
        vstd::arithmetic::div_mod::lemma_mod_twice(fmul(s[0], tk) + d1, m);
        // t^k s(t), with s(t) = s1(t) t + s0
        lemma_eval_step(s, t);
        assert(s.drop_first() == s1);
        lemma_cong_mul2(tk as int, tk as int, poly_eval(s, t) as int, ev1 * t + s[0]);
        vstd::arithmetic::div_mod::lemma_mod_twice((tk * poly_eval(s, t)) as int, m);
        assert(s[0] * tk + tk * t * ev1 == tk * (ev1 * t + s[0])) by (nonlinear_arith);
        lemma_eval_reduced(s, t);
        vstd::arithmetic::div_mod::lemma_mod_bound((tk * poly_eval(s, t)) as int, m);
        vstd::arithmetic::div_mod::lemma_mod_bound(fmul(s[0], tk) + d1, m);
    }
}

/// A weighted sum is a reduced field element.
pub proof fn lemma_dot_reduced(w: Seq<nat>, a: Seq<nat>)
    ensures
        field_dot(w, a) < modulus(),
{
    lemma_modulus_pos();
    if w.len() > 0 && a.len() > 0 {
        vstd::arithmetic::div_mod::lemma_mod_bound(
            (fmul(w[0], a[0]) + field_dot(w.drop_first(), a.drop_first())) as int,
            modulus() as int,
        );
    }
}

/// Scaling every factor by `s` scales the weighted sum by `s`.
pub proof fn lemma_dot_scaled(w: Seq<nat>, a: Seq<nat>, s: nat)
    ensures
        field_dot(w, Seq::new(a.len(), |i: int| fmul(s, a[i]))) == fmul(s, field_dot(w, a)),
    decreases w.len(),
{
    let m = modulus() as int;
    lemma_modulus_pos();
    let sa = Seq::new(a.len(), |i: int| fmul(s, a[i]));
    if w.len() == 0 || a.len() == 0 {
        assert(s * 0 == 0) by (nonlinear_arith);
        vstd::arithmetic::div_mod::lemma_small_mod(0, modulus());
    } else {
        let a1 = a.drop_first();
        let w1 = w.drop_first();
        assert(sa.drop_first() =~= Seq::new(a1.len(), |i: int| fmul(s, a1[i])));
        lemma_dot_scaled(w1, a1, s);
        let d1 = field_dot(w1, a1) as int;
        let w0 = w[0] as int;
        let a0 = a[0] as int;
        let si = s as int;
        // left: w0 (s a0) + s d1
        vstd::arithmetic::div_mod::lemma_mod_twice(si * a0, m);
        lemma_cong_mul(fmul(s, a[0]) as int, si * a0, w0);
        assert(fmul(s, a[0]) * w0 == w0 * fmul(s, a[0])) by (nonlinear_arith);
        assert((si * a0) * w0 == w0 * (si * a0)) by (nonlinear_arith);
        vstd::arithmetic::div_mod::lemma_mod_twice(w0 * fmul(s, a[0]), m);
        vstd::arithmetic::div_mod::lemma_mod_twice(si * d1, m);
        lemma_cong_add(fmul(w[0], sa[0]) as int, w0 * (si * a0), fmul(s, d1 as nat) as int, si * d1);
        // right: s (w0 a0 + d1)
        vstd::arithmetic::div_mod::lemma_mod_twice(w0 * a0, m);
        lemma_cong_add(fmul(w[0], a[0]) as int, w0 * a0, d1, d1);
        let inner = fadd(fmul(w[0], a[0]), d1 as nat) as int;
        vstd::arithmetic::div_mod::lemma_mod_twice(fmul(w[0], a[0]) + d1, m);
        lemma_cong_mul(inner, w0 * a0 + d1, si);
        assert(inner * si == si * inner) by (nonlinear_arith);
        assert((w0 * a0 + d1) * si == w0 * (si * a0) + si * d1) by (nonlinear_arith);
    }
}

/// Trailing zero coefficients do not change a value.
pub proof fn lemma_eval_trim(s: Seq<nat>, x: nat)
    ensures
        poly_eval(trim(s), x) == poly_eval(s, x),
{
    lemma_trim_props(s);
    let t = trim(s);
    lemma_eval_horner(s, x);
    lemma_eval_horner(t, x);
    lemma_horner_zeros(coeffs_of(s), t.len(), s.len(), x as int);
    lemma_horner_ext(coeffs_of(s), coeffs_of(t), t.len(), x as int);
}

/// Zero coefficients past the end do not change `horner`.
pub proof fn lemma_horner_pad(s: Seq<nat>, len: nat, x: int)
    requires
        s.len() <= len,
    ensures
        horner(coeffs_of(s), len, x) == horner(coeffs_of(s), s.len(), x),
{
    lemma_horner_zeros(coeffs_of(s), s.len(), len, x);
}

/// The value of a sum is the sum of the values.
pub proof fn lemma_eval_add(a: Seq<nat>, b: Seq<nat>, x: nat)
    ensures
        poly_eval(poly_add(a, b), x) == fadd(poly_eval(a, x), poly_eval(b, x)),
{
    let m = modulus() as int;
    lemma_modulus_pos();
    let len = max_len(a, b);
    let raw = Seq::new(len, |i: int| fadd(coeff(a, i), coeff(b, i)));
    lemma_eval_trim(raw, x);
    lemma_eval_horner(raw, x);
    let sum = |i: int| coeffs_of(a)(i) + coeffs_of(b)(i);
    assert forall|i: int| 0 <= i < len implies #[trigger] coeffs_of(raw)(i) % m == sum(i) % m by {
        vstd::arithmetic::div_mod::lemma_mod_twice((coeff(a, i) + coeff(b, i)) as int, m);
    }
    lemma_horner_cong(coeffs_of(raw), sum, len, x as int);
    lemma_horner_add(coeffs_of(a), coeffs_of(b), len, x as int);
    lemma_horner_pad(a, len, x as int);
    lemma_horner_pad(b, len, x as int);
    lemma_eval_horner(a, x);
    lemma_eval_horner(b, x);
    let (ha, hb) = (horner(coeffs_of(a), a.len(), x as int), horner(coeffs_of(b), b.len(), x as int));
    vstd::arithmetic::div_mod::lemma_add_mod_noop(ha, hb, m);
}

/// `a * (X^n - 1)` vanishes wherever `x^n = 1`.
pub proof fn lemma_eval_mul_vanishing(a: Seq<nat>, n: nat, x: nat)
    requires
        fpow(x, n) == 1,
    ensures
        poly_eval(poly_mul_vanishing(a, n), x) == 0,
{
    let m = modulus() as int;
    lemma_modulus_pos();
    let xi = x as int;
    let len = a.len();
    let raw = Seq::new(n + len, |i: int| crate::field::fsub(coeff(a, i - n), coeff(a, i)));
    lemma_eval_trim(raw, x);
    lemma_eval_horner(raw, x);
    let up = |i: int| if i >= n { coeffs_of(a)(i - n) } else { 0 };
    let diff = |i: int| up(i) - coeffs_of(a)(i);
    assert forall|i: int| 0 <= i < n + len implies #[trigger] coeffs_of(raw)(i) % m == diff(i) % m by {
        vstd::arithmetic::div_mod::lemma_mod_twice(coeff(a, i - n) as int - coeff(a, i) as int, m);
    }
    lemma_horner_cong(coeffs_of(raw), diff, n + len, xi);
    lemma_horner_sub(up, coeffs_of(a), n + len, xi);
    lemma_horner_shift(coeffs_of(a), n, len, xi);
    lemma_horner_zeros(coeffs_of(a), len, n + len, xi);
    let h = horner(coeffs_of(a), len, xi);
    lemma_pow_mod(x, n);
    // x^n h - h = 0 modulo the order, x^n being 1 there
    vstd::arithmetic::div_mod::lemma_mul_mod_noop_left(pow(xi, n), h, m);
    vstd::arithmetic::div_mod::lemma_sub_mod_noop(pow(xi, n) * h, h, m);
    let pm = pow(xi, n) % m;
    assert(pm == 1);
    assert(pm * h == h) by (nonlinear_arith)
        requires
            pm == 1,
    ;
    vstd::arithmetic::div_mod::lemma_sub_mod_noop(h, h, m);
}

/// Every power of an `n`-th root of unity is an `n`-th root of unity.
pub proof fn lemma_root_power(g: nat, n: nat, i: nat)
    requires
        fpow(g, n) == 1,
    ensures
        fpow(fpow(g, i), n) == 1,
{
    let m = modulus() as int;
    lemma_modulus_pos();
    let gi = pow(g as int, i);
    lemma_pow_mod(g, i);
    lemma_pow_mod(fpow(g, i), n);
    lemma_pow_mod(g, n);
    vstd::arithmetic::power::lemma_pow_mod_noop(gi, n, m);
    vstd::arithmetic::power::lemma_pow_multiplies(g as int, i, n);
    vstd::arithmetic::power::lemma_pow_multiplies(g as int, n, i);
    assert(i * n == n * i) by (nonlinear_arith);
    vstd::arithmetic::power::lemma_pow_mod_noop(pow(g as int, n), i, m);
    vstd::arithmetic::power::lemma1_pow(i);
    vstd::arithmetic::div_mod::lemma_small_mod(1, modulus());
}

/// The `i`-th element of a subgroup whose generator is an `n`-th root of
/// unity is an `n`-th root of unity.
pub proof fn lemma_element_is_root(g: nat, n: nat, i: nat)
    requires
        fpow(g, n) == 1,
    ensures
        fpow(fmul(fpow(g, i), 1), n) == 1,
{
    lemma_root_power(g, n, i);
    lemma_modulus_pos();
    lemma_pow_mod(g, i);
    vstd::arithmetic::div_mod::lemma_mod_bound(pow(g as int, i), modulus() as int);
    vstd::arithmetic::div_mod::lemma_small_mod(fpow(g, i), modulus());
}

/// A power is a reduced field element.
pub proof fn lemma_fpow_reduced(x: nat, e: nat)
    ensures
        fpow(x, e) < modulus(),
{
    lemma_modulus_pos();
    if e > 0 {
        vstd::arithmetic::div_mod::lemma_mod_bound((fpow(x, (e - 1) as nat) * x) as int, modulus() as int);
    }
}

/// `fpow` is the integer power reduced.
pub proof fn lemma_pow_mod(x: nat, e: nat)
    ensures
        fpow(x, e) as int == pow(x as int, e) % (modulus() as int),
    decreases e,
{
    let m = modulus() as int;
    lemma_modulus_pos();
    if e == 0 {
        vstd::arithmetic::power::lemma_pow0(x as int);
        vstd::arithmetic::div_mod::lemma_small_mod(1, modulus());
    } else {
        lemma_pow_mod(x, (e - 1) as nat);
        let p = pow(x as int, (e - 1) as nat);
        assert(pow(x as int, e) == x * p) by {
            reveal(pow);
        }
        vstd::arithmetic::div_mod::lemma_mul_mod_noop_left(p, x as int, m);
        assert(p * x == x * p) by (nonlinear_arith);
    }
}

/// `x^(a + b) = x^a x^b` in the field.
pub proof fn lemma_fpow_adds(x: nat, a: nat, b: nat)
    ensures
        fpow(x, a + b) == fmul(fpow(x, a), fpow(x, b)),
{
    let m = modulus() as int;
    lemma_modulus_pos();
    lemma_pow_mod(x, a + b);
    lemma_pow_mod(x, a);
    lemma_pow_mod(x, b);
    vstd::arithmetic::power::lemma_pow_adds(x as int, a, b);
    vstd::arithmetic::div_mod::lemma_mul_mod_noop(pow(x as int, a), pow(x as int, b), m);
}

/// `x^(a b) = (x^a)^b` in the field.
pub proof fn lemma_fpow_multiplies(x: nat, a: nat, b: nat)
    ensures
        fpow(x, a * b) == fpow(fpow(x, a), b),
{
    let m = modulus() as int;
    lemma_modulus_pos();
    lemma_pow_mod(x, a * b);
    lemma_pow_mod(x, a);
    lemma_pow_mod(fpow(x, a), b);
    vstd::arithmetic::power::lemma_pow_multiplies(x as int, a, b);
    vstd::arithmetic::power::lemma_pow_mod_noop(pow(x as int, a), b, m);
}

/// `(x y)^e = x^e y^e` in the field.
pub proof fn lemma_fpow_distributes(x: nat, y: nat, e: nat)
    ensures
        fpow(fmul(x, y), e) == fmul(fpow(x, e), fpow(y, e)),
{
    let m = modulus() as int;
    lemma_modulus_pos();
    lemma_pow_mod(fmul(x, y), e);
    lemma_pow_mod(x, e);
    lemma_pow_mod(y, e);
    vstd::arithmetic::power::lemma_pow_mod_noop((x * y) as int, e, m);
    vstd::arithmetic::power::lemma_pow_distributes(x as int, y as int, e);
    vstd::arithmetic::div_mod::lemma_mul_mod_noop(pow(x as int, e), pow(y as int, e), m);
}

/// Multiplying a reduced element by one leaves it.
proof fn lemma_fmul_one(x: nat)
    requires
        x < modulus(),
    ensures
        fmul(x, 1) == x,
{
    vstd::arithmetic::div_mod::lemma_small_mod(x, modulus());
}

/// On a coset `off * <g>` with `g` of order dividing `m`, the element four
/// steps on from `off g^i` is `off g^i` times `g^4`.
pub proof fn lemma_coset_step(g: nat, off: nat, m: nat, i: nat)
    requires
        fpow(g, m) == 1,
        4 <= m,
        i < m,
    ensures
        fmul(fpow(g, ((i + 4) % m) as nat), off) == fmul(fmul(fpow(g, i), off), fpow(g, 4)),
{
    let j = ((i + 4) % m) as nat;
    lemma_fpow_adds(g, i, 4);
    if i + 4 >= m {
        vstd::arithmetic::div_mod::lemma_mod_add_multiples_vanish((i + 4 - m) as int, m as int);
        vstd::arithmetic::div_mod::lemma_small_mod((i + 4 - m) as nat, m);
        assert(j == i + 4 - m);
        lemma_fpow_adds(g, j, m);
        assert(j + m == i + 4);
        lemma_fpow_reduced(g, j);
        lemma_fmul_one(fpow(g, j));
    } else {
        vstd::arithmetic::div_mod::lemma_small_mod((i + 4) as nat, m);
    }
    assert(fpow(g, j) == fmul(fpow(g, i), fpow(g, 4)));
    crate::field::lemma_fmul_assoc(fpow(g, i), fpow(g, 4), off);
    crate::field::lemma_fmul_assoc(fpow(g, i), off, fpow(g, 4));
    crate::field::lemma_fmul_comm(fpow(g, 4), off);
}

/// On a coset `off * <g>` with `g` of order dividing `4n`, `x^n` at element
/// `i` depends only on `i mod 4`.
pub proof fn lemma_coset_pow_period(g: nat, off: nat, n: nat, i: nat)
    requires
        fpow(g, 4 * n) == 1,
    ensures
        fpow(fmul(fpow(g, i), off), n) == fpow(fmul(fpow(g, i % 4), off), n),
{
    let q = i / 4;
    let r = i % 4;
    assert(i == r + 4 * q) by {
        vstd::arithmetic::div_mod::lemma_fundamental_div_mod(i as int, 4);
    }
    lemma_fpow_distributes(fpow(g, i), off, n);
    lemma_fpow_distributes(fpow(g, r), off, n);
    lemma_fpow_multiplies(g, i, n);
    lemma_fpow_multiplies(g, r, n);
    assert(i * n == r * n + (4 * n) * q) by (nonlinear_arith)
        requires
            i == r + 4 * q,
    ;
    lemma_fpow_adds(g, r * n, (4 * n) * q);
    lemma_fpow_multiplies(g, 4 * n, q);
    lemma_pow_mod(1, q);
    vstd::arithmetic::power::lemma1_pow(q);
    vstd::arithmetic::div_mod::lemma_small_mod(1, modulus());
    lemma_fpow_reduced(g, r * n);
    lemma_fmul_one(fpow(g, r * n));
}

/// The zero polynomial, however long, is zero everywhere.
pub proof fn lemma_eval_zero(a: Seq<nat>, x: nat)
    requires
        crate::poly::poly_is_zero(a),
    ensures
        poly_eval(a, x) == 0,
{
    lemma_modulus_pos();
    lemma_eval_horner(a, x);
    lemma_horner_zeros(coeffs_of(a), 0, a.len(), x as int);
}

/// The value of `a k` is `a(x) k`.
pub proof fn lemma_eval_scale(a: Seq<nat>, k: nat, x: nat)
    ensures
        poly_eval(crate::poly::poly_scale(a, k), x) == fmul(poly_eval(a, x), k),
{
    let m = modulus() as int;
    lemma_modulus_pos();
    let xi = x as int;
    if crate::poly::poly_is_zero(a) || k == 0 {
        assert(crate::poly::poly_scale(a, k) =~= Seq::<nat>::empty());
        assert(poly_eval(Seq::<nat>::empty(), x) == 0);
        if crate::poly::poly_is_zero(a) {
            lemma_eval_zero(a, x);
            assert(fmul(0, k) == 0);
        } else {
            assert(fmul(poly_eval(a, x), 0) == 0);
        }
    } else {
        let raw = crate::poly::poly_scale(a, k);
        lemma_eval_horner(raw, x);
        let ka = |i: int| k * coeffs_of(a)(i);
        assert forall|i: int| 0 <= i < a.len() implies #[trigger] coeffs_of(raw)(i) % m == ka(i) % m by {
            vstd::arithmetic::div_mod::lemma_mod_twice((a[i] * k) as int, m);
            assert(a[i] * k == k * a[i]) by (nonlinear_arith);
        }
        lemma_horner_cong(coeffs_of(raw), ka, a.len(), xi);
        lemma_horner_scale(coeffs_of(a), k as int, a.len(), xi);
        lemma_eval_horner(a, x);
        let ha = horner(coeffs_of(a), a.len(), xi);
        vstd::arithmetic::div_mod::lemma_mul_mod_noop_left(ha, k as int, m);
        assert(k * ha == ha * k) by (nonlinear_arith);
        assert(raw.len() == a.len());
        assert(poly_eval(raw, x) as int == (k * ha) % m);
        assert(poly_eval(a, x) as int == ha % m);
    }
}

/// The value of a difference is the difference of the values.
pub proof fn lemma_eval_sub(a: Seq<nat>, b: Seq<nat>, x: nat)
    ensures
        poly_eval(crate::poly::poly_sub(a, b), x) == crate::field::fsub(poly_eval(a, x), poly_eval(b, x)),
{
    let m = modulus() as int;
    lemma_modulus_pos();
    let xi = x as int;
    let len = max_len(a, b);
    let raw = Seq::new(len, |i: int| crate::field::fsub(coeff(a, i), coeff(b, i)));
    lemma_eval_trim(raw, x);
    lemma_eval_horner(raw, x);
    let dif = |i: int| coeffs_of(a)(i) - coeffs_of(b)(i);
    assert forall|i: int| 0 <= i < len implies #[trigger] coeffs_of(raw)(i) % m == dif(i) % m by {
        vstd::arithmetic::div_mod::lemma_mod_twice(coeff(a, i) as int - coeff(b, i) as int, m);
    }
    lemma_horner_cong(coeffs_of(raw), dif, len, xi);
    lemma_horner_sub(coeffs_of(a), coeffs_of(b), len, xi);
    lemma_horner_pad(a, len, xi);
    lemma_horner_pad(b, len, xi);
    lemma_eval_horner(a, x);
    lemma_eval_horner(b, x);
    let (ha, hb) = (horner(coeffs_of(a), a.len(), xi), horner(coeffs_of(b), b.len(), xi));
    vstd::arithmetic::div_mod::lemma_sub_mod_noop(ha, hb, m);
}

} // verus!
