//! Copy constraints as a permutation over the 3n wire slots.
//!
//! Slot `(col, row)` is indexed as `col * n + row`. Slots pointing at the same
//! variable form a cycle; `sigma` maps each slot to the next one in its cycle.
//! The three columns are labelled by the cosets `H`, `k1 H`, `k2 H` so that
//! the identity map `id(col, row) = k_col * omega^row` is injective.

use vstd::prelude::*;
use crate::circuit::{Circuit, Gate, Variable};
use crate::field::{Scalar, fmul, fpow, fdiv, finv, vals, copy_range, field_product, lemma_product_reindex};
use crate::proof_format::perm_term;
use crate::poly::{Domain, Poly, coeff, interpolate, poly_eval, spec_ifft, trim};

verus! {

/// `s` is the slot after `p` in `p`'s cycle: the next slot holding the same
/// variable, or, from the last such slot, the first one.
pub open spec fn is_next_occurrence(slots: Seq<Variable>, p: int, s: int) -> bool {
    &&& 0 <= s < slots.len()
    &&& slots[s] == slots[p]
    &&& if exists|q: int| p < q < slots.len() && #[trigger] slots[q] == slots[p] {
        &&& p < s
        &&& forall|q: int| p < q < s ==> #[trigger] slots[q] != slots[p]
    } else {
        forall|q: int| 0 <= q < s ==> #[trigger] slots[q] != slots[p]
    }
}

/// `sigma` sends every slot to the next slot of its cycle.
pub open spec fn is_cycle_map(slots: Seq<Variable>, sigma: Seq<usize>) -> bool {
    &&& sigma.len() == slots.len()
    &&& forall|p: int| 0 <= p < slots.len() ==> is_next_occurrence(slots, p, #[trigger] sigma[p] as int)
}

/// The wire slots of `gates`, padded with the zero variable to `n` rows,
/// column by column.
pub open spec fn wire_slots(gates: Seq<Gate>, n: nat) -> Seq<Variable> {
    Seq::new(
        3 * n,
        |pos: int|
            {
                let col = pos / (n as int);
                let row = pos % (n as int);
                if row < gates.len() {
                    if col == 0 {
                        gates[row].a
                    } else if col == 1 {
                        gates[row].b
                    } else {
                        gates[row].c
                    }
                } else {
                    Variable::spec_zero()
                }
            },
    )
}

#[derive(Clone, Debug, PartialEq, Eq)]
pub struct Permutation {
    n: usize,
    sigma: Vec<usize>,
}

/// Some slot is sent to `x`.
pub open spec fn has_preimage(sigma: Seq<usize>, x: int) -> bool {
    exists|p: int| 0 <= p < sigma.len() && #[trigger] sigma[p] as int == x
}

/// The largest slot with variable `v` strictly below `x`, if any.
spec fn prev_before(slots: Seq<Variable>, v: Variable, x: int) -> int
    decreases x,
{
    if x <= 0 {
        -1
    } else if slots[x - 1] == v {
        x - 1
    } else {
        prev_before(slots, v, x - 1)
    }
}

proof fn lemma_prev_before(slots: Seq<Variable>, v: Variable, x: int)
    requires
        0 <= x <= slots.len(),
    ensures
        -1 <= prev_before(slots, v, x) < x,
        prev_before(slots, v, x) >= 0 ==> slots[prev_before(slots, v, x)] == v,
        forall|q: int| prev_before(slots, v, x) < q < x ==> #[trigger] slots[q] != v,
    decreases x,
{
    if x > 0 && slots[x - 1] != v {
        lemma_prev_before(slots, v, x - 1);
    }
}

/// A cycle map is a permutation of the slots: no two slots share a
/// successor, and every slot is someone's successor.
pub proof fn lemma_cycle_map_is_permutation(slots: Seq<Variable>, sigma: Seq<usize>)
    requires
        is_cycle_map(slots, sigma),
    ensures
        forall|p1: int, p2: int|
            0 <= p1 < slots.len() && 0 <= p2 < slots.len() && p1 != p2 ==> #[trigger] sigma[p1]
                != #[trigger] sigma[p2],
        forall|x: int| 0 <= x < slots.len() ==> #[trigger] has_preimage(sigma, x),
{
    assert forall|p1: int, p2: int|
        0 <= p1 < slots.len() && 0 <= p2 < slots.len() && p1 != p2 implies #[trigger] sigma[p1]
            != #[trigger] sigma[p2] by {
        if p1 < p2 {
            lemma_injective_pair(slots, sigma, p1, p2);
        } else {
            lemma_injective_pair(slots, sigma, p2, p1);
        }
    }
    assert forall|x: int| 0 <= x < slots.len() implies #[trigger] has_preimage(sigma, x) by {
        let v = slots[x];
        lemma_prev_before(slots, v, x);
        let pb = prev_before(slots, v, x);
        if pb >= 0 {
            // the previous slot of the same variable points here
            assert(is_next_occurrence(slots, pb, sigma[pb] as int));
            assert(slots[x] == slots[pb]);
            assert(sigma[pb] as int == x);
        } else {
            // x is the first slot of its variable: the last slot points here
            lemma_prev_before(slots, v, slots.len() as int);
            let pl = prev_before(slots, v, slots.len() as int);
            assert(slots[x] == v);
            assert(pl >= x);
            assert(is_next_occurrence(slots, pl, sigma[pl] as int));
            assert(!(exists|q: int| pl < q < slots.len() && #[trigger] slots[q] == slots[pl]));
            let s = sigma[pl] as int;
            if s < x {
                assert(slots[s] == v);
            } else if s > x {
                assert(slots[x] == slots[pl]);
            }
            assert(sigma[pl] as int == x);
        }
    }
}

proof fn lemma_injective_pair(slots: Seq<Variable>, sigma: Seq<usize>, p1: int, p2: int)
    requires
        is_cycle_map(slots, sigma),
        0 <= p1 < slots.len(),
        0 <= p2 < slots.len(),
        p1 < p2,
    ensures
        sigma[p1] != sigma[p2],
{
    if sigma[p1] != sigma[p2] {
        return;
    }
    let x = sigma[p1] as int;
    assert(is_next_occurrence(slots, p1, x));
    assert(is_next_occurrence(slots, p2, x));
    assert(slots[p1] == slots[p2]);
    // p1 has a later slot of the same variable (namely p2)
    assert(p1 < p2 < slots.len() && slots[p2] == slots[p1]);
    assert(p1 < x);
    if p2 < x {
        assert(slots[p2] != slots[p1]);
    } else {
        if exists|q: int| p2 < q < slots.len() && #[trigger] slots[q] == slots[p2] {
            assert(p2 < x);
        } else {
            assert(slots[p1] != slots[p2]);
        }
    }
}

impl Permutation {
    pub closed spec fn spec_n(self) -> nat {
        self.n as nat
    }

    pub closed spec fn spec_sigma(self) -> Seq<usize> {
        self.sigma@
    }

    /// `sigma` maps the `3n` slots into themselves.
    pub open spec fn wf(self) -> bool {
        &&& self.spec_sigma().len() == 3 * self.spec_n()
        &&& forall|p: int| 0 <= p < self.spec_sigma().len() ==> (#[trigger] self.spec_sigma()[p]) < self.spec_sigma().len()
    }

    /// The label of slot `pos`: `k_col * omega^row` with `k_0 = 1`.
    pub open spec fn spec_id_label(domain: Domain, k1: nat, k2: nat, pos: int) -> nat {
        let n = domain.spec_size() as int;
        let col = pos / n;
        let row = pos % n;
        let k = if col == 0 {
            1
        } else if col == 1 {
            k1
        } else {
            k2
        };
        fmul(k, domain.spec_element(row as nat))
    }

    /// The identity labelling and its permuted version, as field elements,
    /// laid out column by column. `id[col*n+row] = k_col * omega^row` and
    /// `perm[col*n+row] = id[sigma[col*n+row]]`.
    pub fn labels(&self, domain: &Domain, k1: &Scalar, k2: &Scalar) -> (r: (Vec<Scalar>, Vec<Scalar>))
        requires
            self.wf(),
            domain.spec_size() == self.spec_n(),
        ensures
            r.0@.len() == 3 * self.spec_n(),
            r.1@.len() == 3 * self.spec_n(),
            forall|pos: int| 0 <= pos < r.0@.len() ==> (#[trigger] r.0@[pos])@ == Self::spec_id_label(*domain, k1@, k2@, pos),
            forall|pos: int| 0 <= pos < r.1@.len() ==> #[trigger] r.1@[pos] == r.0@[self.spec_sigma()[pos] as int],
    {
        let n = self.n;
        let mut id: Vec<Scalar> = Vec::new();
        let mut col: usize = 0;
        domain.lemma_wf();
        while col < 3
            invariant
                n == self.spec_n(),
                n == domain.spec_size(),
                n >= 1,
                3 * n == self.spec_sigma().len(),
                0 <= col <= 3,
                id@.len() == col * n,
                forall|pos: int| 0 <= pos < id@.len() ==> (#[trigger] id@[pos])@ == Self::spec_id_label(*domain, k1@, k2@, pos),
            decreases 3 - col,
        {
            let k = if col == 0 {
                Scalar::one()
            } else if col == 1 {
                *k1
            } else {
                *k2
            };
            for row in 0..n
                invariant
                    n == domain.spec_size(),
                    n >= 1,
                    0 <= col < 3,
                    3 * n == self.spec_sigma().len(),
                    id@.len() == col * n + row,
                    k@ == (if col == 0 { 1 } else if col == 1 { k1@ } else { k2@ }),
                    forall|pos: int| 0 <= pos < id@.len() ==> (#[trigger] id@[pos])@ == Self::spec_id_label(*domain, k1@, k2@, pos),
            {
                proof {
                    let pos = (col * n + row) as int;
                    let nn = n as int;
                    assert(pos / nn == col as int && pos % nn == row as int) by (nonlinear_arith)
                        requires pos == col * nn + row, 0 <= row < nn, 0 <= col;
                    vstd::arithmetic::mul::lemma_mul_inequality(col as int, 2, nn);
                }
                id.push(k.times(&domain.element(row)));
            }
            proof {
                assert((col + 1) * n == col * n + n) by (nonlinear_arith);
            }
            col = col + 1;
        }
        let mut perm: Vec<Scalar> = Vec::new();
        let total = self.sigma.len();
        for pos in 0..total
            invariant
                total == self.sigma@.len(),
                3 * n == self.spec_sigma().len(),
                id@.len() == 3 * n,
                forall|q: int| 0 <= q < self.spec_sigma().len() ==> (#[trigger] self.spec_sigma()[q]) < self.spec_sigma().len(),
                perm@.len() == pos,
                forall|q: int| 0 <= q < pos ==> #[trigger] perm@[q] == id@[self.spec_sigma()[q] as int],
        {
            perm.push(id[self.sigma[pos]]);
        }
        (id, perm)
    }

    /// Column `col` of the permuted labels: row `i` holds the label of the
    /// slot `sigma` sends `(col, i)` to.
    pub open spec fn perm_column(self, domain: Domain, k1: nat, k2: nat, col: int) -> Seq<nat> {
        let n = self.spec_n() as int;
        Seq::new(self.spec_n(), |row: int| Self::spec_id_label(domain, k1, k2, self.spec_sigma()[col * n + row] as int))
    }

    /// Interpolate `S_sigma1, S_sigma2, S_sigma3` over the domain.
    pub fn sigma_polys(&self, domain: &Domain, k1: &Scalar, k2: &Scalar) -> (r: [Poly; 3])
        requires
            self.wf(),
            domain.spec_size() == self.spec_n(),
        ensures
            forall|col: int| 0 <= col < 3 ==> (#[trigger] r[col])@ == trim(spec_ifft(
                domain.spec_size(),
                domain.spec_offset(),
                self.perm_column(*domain, k1@, k2@, col),
            )),
            forall|col: int, i: int|
                0 <= col < 3 && 0 <= i < domain.spec_size() ==> #[trigger] poly_eval(r[col]@, domain.spec_element(i as nat))
                    == self.perm_column(*domain, k1@, k2@, col)[i],
    {
        let (id, perm) = self.labels(domain, k1, k2);
        let n = self.n;
        let total = self.sigma.len();
        let c0 = copy_range(perm.as_slice(), 0, n);
        let c1 = copy_range(perm.as_slice(), n, 2 * n);
        let c2 = copy_range(perm.as_slice(), 2 * n, 3 * n);
        proof {
            assert forall|col: int| 0 <= col < 3 implies vals(perm@.subrange(col * n, (col + 1) * n)) =~= self.perm_column(*domain, k1@, k2@, col) by {
                assert forall|row: int| 0 <= row < n implies #[trigger] vals(perm@.subrange(col * n, (col + 1) * n))[row] == self.perm_column(*domain, k1@, k2@, col)[row] by {
                    assert(0 <= col * n + row < 3 * n) by (nonlinear_arith)
                        requires 0 <= col < 3, 0 <= row < n;
                    assert((col + 1) * n == col * n + n) by (nonlinear_arith);
                    assert(perm@[col * n + row] == id@[self.spec_sigma()[col * n + row] as int]);
                }
                assert((col + 1) * n - col * n == n) by (nonlinear_arith);
            }
            assert(c0@ == perm@.subrange(0 * n, (0 + 1) * n));
            assert(c1@ == perm@.subrange(1 * n, (1 + 1) * n));
            assert(c2@ == perm@.subrange(2 * n, (2 + 1) * n));
        }
        let p0 = interpolate(domain, c0.as_slice());
        let p1 = interpolate(domain, c1.as_slice());
        let p2 = interpolate(domain, c2.as_slice());
        let r = [p0, p1, p2];
        proof {
            assert(r[0] == p0 && r[1] == p1 && r[2] == p2);
            assert forall|col: int, i: int|
                0 <= col < 3 && 0 <= i < domain.spec_size() implies #[trigger] poly_eval(r[col]@, domain.spec_element(i as nat))
                    == self.perm_column(*domain, k1@, k2@, col)[i] by {
                if col == 0 {
                    assert(coeff(vals(c0@), i) == vals(c0@)[i]);
                } else if col == 1 {
                    assert(coeff(vals(c1@), i) == vals(c1@)[i]);
                } else {
                    assert(coeff(vals(c2@), i) == vals(c2@)[i]);
                }
            }
        }
        r
    }

    pub fn from_slots(slots: &[Variable], n: usize) -> (r: Permutation)
        requires
            slots@.len() == 3 * n,
            3 * n < usize::MAX,
            forall|i: int| 0 <= i < slots@.len() ==> (#[trigger] slots@[i]).0 < usize::MAX,
        ensures
            r.spec_n() == n,
            is_cycle_map(slots@, r.spec_sigma()),
            r.wf(),
    {
        let len = slots.len();
        let mut num_vars: usize = 0;
        for i in 0..len
            invariant
                len == slots@.len(),
                forall|j: int| 0 <= j < slots@.len() ==> (#[trigger] slots@[j]).0 < usize::MAX,
                forall|j: int| 0 <= j < i ==> (#[trigger] slots@[j]).0 < num_vars,
        {
            if slots[i].0 + 1 > num_vars {
                num_vars = slots[i].0 + 1;
            }
        }
        // first[v]: the first slot at or after p holding v; next[q]: the
        // next slot after q holding the same variable.
        let mut first: Vec<usize> = vec![usize::MAX; num_vars];
        let mut next: Vec<usize> = vec![usize::MAX; len];
        let mut p = len;
        while p > 0
            invariant
                len == slots@.len(),
                len < usize::MAX,
                0 <= p <= len,
                first@.len() == num_vars,
                next@.len() == len,
                forall|j: int| 0 <= j < slots@.len() ==> (#[trigger] slots@[j]).0 < num_vars,
                forall|v: int|
                    0 <= v < num_vars ==> {
                        &&& (#[trigger] first@[v]) == usize::MAX ==> forall|q: int|
                            p <= q < len ==> (#[trigger] slots@[q]).0 != v
                        &&& first@[v] != usize::MAX ==> {
                            &&& p <= first@[v] < len
                            &&& slots@[first@[v] as int].0 == v
                            &&& forall|q: int| p <= q < first@[v] ==> (#[trigger] slots@[q]).0 != v
                        }
                    },
                forall|q: int|
                    p <= q < len ==> {
                        &&& (#[trigger] next@[q]) == usize::MAX ==> forall|r: int|
                            q < r < len ==> (#[trigger] slots@[r]) != slots@[q]
                        &&& next@[q] != usize::MAX ==> {
                            &&& q < next@[q] < len
                            &&& slots@[next@[q] as int] == slots@[q]
                            &&& forall|r: int| q < r < next@[q] ==> (#[trigger] slots@[r]) != slots@[q]
                        }
                    },
            decreases p,
        {
            p = p - 1;
            let v = slots[p].0;
            let ghost old_first = first@;
            let ghost old_next = next@;
            next.set(p, first[v]);
            first.set(v, p);
            proof {
                assert forall|w: int| 0 <= w < num_vars implies {
                    &&& (#[trigger] first@[w]) == usize::MAX ==> forall|q: int|
                        p <= q < len ==> (#[trigger] slots@[q]).0 != w
                    &&& first@[w] != usize::MAX ==> {
                        &&& p <= first@[w] < len
                        &&& slots@[first@[w] as int].0 == w
                        &&& forall|q: int| p <= q < first@[w] ==> (#[trigger] slots@[q]).0 != w
                    }
                } by {
                    if w != v as int {
                        assert(first@[w] == old_first[w]);
                    }
                }
                assert forall|q: int|
                    p <= q < len implies {
                        &&& (#[trigger] next@[q]) == usize::MAX ==> forall|r: int|
                            q < r < len ==> (#[trigger] slots@[r]) != slots@[q]
                        &&& next@[q] != usize::MAX ==> {
                            &&& q < next@[q] < len
                            &&& slots@[next@[q] as int] == slots@[q]
                            &&& forall|r: int| q < r < next@[q] ==> (#[trigger] slots@[r]) != slots@[q]
                        }
                    } by {
                    if q == p as int {
                        let f = old_first[v as int];
                        if f == usize::MAX {
                            assert forall|r: int| q < r < len implies (#[trigger] slots@[r]) != slots@[q] by {
                                assert(slots@[r].0 != v);
                            }
                        } else {
                            assert forall|r: int| q < r < next@[q] implies (#[trigger] slots@[r]) != slots@[q] by {
                                assert(slots@[r].0 != v);
                            }
                        }
                    } else {
                        assert(next@[q] == old_next[q]);
                    }
                }
            }
        }
        let mut sigma: Vec<usize> = Vec::with_capacity(len);
        for q in 0..len
            invariant
                len == slots@.len(),
                first@.len() == num_vars,
                next@.len() == len,
                sigma@.len() == q,
                forall|j: int| 0 <= j < slots@.len() ==> (#[trigger] slots@[j]).0 < num_vars,
                forall|v: int|
                    0 <= v < num_vars ==> {
                        &&& (#[trigger] first@[v]) == usize::MAX ==> forall|q: int|
                            0 <= q < len ==> (#[trigger] slots@[q]).0 != v
                        &&& first@[v] != usize::MAX ==> {
                            &&& 0 <= first@[v] < len
                            &&& slots@[first@[v] as int].0 == v
                            &&& forall|q: int| 0 <= q < first@[v] ==> (#[trigger] slots@[q]).0 != v
                        }
                    },
                forall|q: int|
                    0 <= q < len ==> {
                        &&& (#[trigger] next@[q]) == usize::MAX ==> forall|r: int|
                            q < r < len ==> (#[trigger] slots@[r]) != slots@[q]
                        &&& next@[q] != usize::MAX ==> {
                            &&& q < next@[q] < len
                            &&& slots@[next@[q] as int] == slots@[q]
                            &&& forall|r: int| q < r < next@[q] ==> (#[trigger] slots@[r]) != slots@[q]
                        }
                    },
                forall|t: int| 0 <= t < q ==> is_next_occurrence(slots@, t, #[trigger] sigma@[t] as int),
        {
            let s = if next[q] != usize::MAX {
                next[q]
            } else {
                first[slots[q].0]
            };
            proof {
                let v = slots@[q as int].0 as int;
                if next@[q as int] != usize::MAX {
                    assert(q < next@[q as int] < len && slots@[next@[q as int] as int] == slots@[q as int]);
                } else {
                    assert(first@[v] != usize::MAX);
                    assert forall|t: int| 0 <= t < s implies #[trigger] slots@[t] != slots@[q as int] by {
                        assert(slots@[t].0 != v);
                    }
                    assert(!(exists|t: int| q < t < slots@.len() && #[trigger] slots@[t] == slots@[q as int]));
                }
                assert(is_next_occurrence(slots@, q as int, s as int));
            }
            sigma.push(s);
        }
        let r = Permutation { n, sigma };
        proof {
            assert forall|p: int| 0 <= p < r.spec_sigma().len() implies (#[trigger] r.spec_sigma()[p]) < r.spec_sigma().len() by {
                assert(is_next_occurrence(slots@, p, r.spec_sigma()[p] as int));
            }
        }
        r
    }

    /// Build from a circuit, padding with the zero variable up to `n` rows.
    pub fn from_circuit(circuit: &Circuit, n: usize) -> (r: Permutation)
        requires
            circuit.wf(),
            n >= circuit.spec_gates().len(),
            3 * n < usize::MAX,
        ensures
            r.spec_n() == n,
            is_cycle_map(wire_slots(circuit.spec_gates(), n as nat), r.spec_sigma()),
            r.wf(),
    {
        let gates = circuit.gates();
        let mut slots: Vec<Variable> = vec![Variable::zero(); 3 * n];
        proof {
            circuit.lemma_wires_ok();
        }
        for row in 0..gates.len()
            invariant
                gates@ == circuit.spec_gates(),
                n >= gates@.len(),
                3 * n < usize::MAX,
                slots@.len() == 3 * n,
                forall|pos: int|
                    0 <= pos < 3 * n ==> {
                        let col = pos / (n as int);
                        let r = pos % (n as int);
                        #[trigger] slots@[pos] == if r < row {
                            wire_slots(gates@, n as nat)[pos]
                        } else {
                            Variable::spec_zero()
                        }
                    },
        {
            let g = gates[row];
            slots.set(row, g.a);
            slots.set(n + row, g.b);
            slots.set(2 * n + row, g.c);
            proof {
                assert forall|pos: int|
                    0 <= pos < 3 * n implies {
                        let r = pos % (n as int);
                        #[trigger] slots@[pos] == if r < row + 1 {
                            wire_slots(gates@, n as nat)[pos]
                        } else {
                            Variable::spec_zero()
                        }
                    } by {
                    let nn = n as int;
                    let q = pos / nn;
                    let r = pos % nn;
                    let rw = row as int;
                    assert(0 <= q < 3) by (nonlinear_arith)
                        requires 0 <= pos < 3 * nn, nn > 0, q == pos / nn;
                    assert(pos == q * nn + r && 0 <= r < nn) by (nonlinear_arith)
                        requires nn > 0, q == pos / nn, r == pos % nn;
                    if r == rw {
                        if q == 0 {
                            assert(pos == rw) by (nonlinear_arith) requires pos == q * nn + r, q == 0, r == rw;
                        } else if q == 1 {
                            assert(pos == nn + rw) by (nonlinear_arith) requires pos == q * nn + r, q == 1, r == rw;
                        } else {
                            assert(pos == 2 * nn + rw) by (nonlinear_arith) requires pos == q * nn + r, q == 2, r == rw;
                        }
                    } else {
                        assert(pos != rw && pos != nn + rw && pos != 2 * nn + rw) by (nonlinear_arith)
                            requires pos == q * nn + r, 0 <= r < nn, r != rw, 0 <= rw < nn, 0 <= q < 3;
                    }
                }
            }
        }
        proof {
            assert(slots@ =~= wire_slots(gates@, n as nat));
            assert forall|i: int| 0 <= i < slots@.len() implies (#[trigger] slots@[i]).0 < usize::MAX by {
                let nn = n as int;
                assert(0 <= i % nn < nn) by (nonlinear_arith) requires nn > 0;
                assert(0 <= i / nn < 3) by (nonlinear_arith)
                    requires 0 <= i < 3 * nn, nn > 0;
                if i % nn < gates@.len() {
                    assert(circuit.var_ok(gates@[i % nn].a));
                    assert(circuit.var_ok(gates@[i % nn].b));
                    assert(circuit.var_ok(gates@[i % nn].c));
                }
            }
        }
        Self::from_slots(slots.as_slice(), n)
    }

    pub fn n(&self) -> (r: usize)
        ensures
            r == self.spec_n(),
    {
        self.n
    }

    pub fn sigma(&self) -> (r: &[usize])
        ensures
            r@ == self.spec_sigma(),
    {
        self.sigma.as_slice()
    }
}

/// A slot has only one next occurrence.
proof fn lemma_next_occurrence_unique(slots: Seq<Variable>, p: int, a: int, b: int)
    requires
        0 <= p < slots.len(),
        is_next_occurrence(slots, p, a),
        is_next_occurrence(slots, p, b),
    ensures
        a == b,
{
    if a < b {
        assert(slots[a] == slots[p]);
    } else if b < a {
        assert(slots[b] == slots[p]);
    }
}

/// The slots determine their cycle map.
pub proof fn lemma_cycle_map_unique(slots: Seq<Variable>, s1: Seq<usize>, s2: Seq<usize>)
    requires
        is_cycle_map(slots, s1),
        is_cycle_map(slots, s2),
    ensures
        s1 == s2,
{
    assert forall|p: int| 0 <= p < slots.len() implies #[trigger] s1[p] == s2[p] by {
        lemma_next_occurrence_unique(slots, p, s1[p] as int, s2[p] as int);
    }
    assert(s1 =~= s2);
}

/// Each slot's grand-product term `w + beta * label + gamma`.
pub open spec fn slot_terms(w: Seq<nat>, labels: Seq<nat>, beta: nat, gamma: nat) -> Seq<nat> {
    Seq::new(w.len(), |p: int| perm_term(w[p], beta, labels[p], gamma))
}

/// The labels moved along `sigma`: slot `p` gets the label of `sigma[p]`.
pub open spec fn permuted_labels(labels: Seq<nat>, sigma: Seq<usize>) -> Seq<nat> {
    Seq::new(sigma.len(), |p: int| labels[sigma[p] as int])
}

/// The grand product identity behind the copy constraints. When the wire
/// values agree on every two slots holding the same variable, the product
/// over all slots of `w + beta * id + gamma` equals the product in which
/// each slot's label is replaced by the label of the next slot of its
/// cycle, for every `beta` and `gamma`.
pub proof fn lemma_grand_product(
    slots: Seq<Variable>,
    sigma: Seq<usize>,
    w: Seq<nat>,
    id: Seq<nat>,
    beta: nat,
    gamma: nat,
)
    requires
        is_cycle_map(slots, sigma),
        w.len() == slots.len(),
        id.len() == slots.len(),
        forall|p: int, q: int|
            0 <= p < slots.len() && 0 <= q < slots.len() && slots[p] == slots[q] ==> #[trigger] w[p] == #[trigger] w[q],
    ensures
        field_product(slot_terms(w, id, beta, gamma)) == field_product(
            slot_terms(w, permuted_labels(id, sigma), beta, gamma),
        ),
{
    lemma_cycle_map_is_permutation(slots, sigma);
    let s = slot_terms(w, id, beta, gamma);
    let sig = Seq::new(sigma.len(), |p: int| sigma[p] as int);
    assert forall|p: int| 0 <= p < sig.len() implies 0 <= #[trigger] sig[p] < s.len() by {
        assert(is_next_occurrence(slots, p, sigma[p] as int));
    }
    assert forall|p: int, q: int| 0 <= p < q < sig.len() implies #[trigger] sig[p] != #[trigger] sig[q] by {
        assert(sigma[p] != sigma[q]);
    }
    lemma_product_reindex(s, sig);
    let moved = Seq::new(s.len(), |p: int| s[sig[p]]);
    assert forall|p: int| 0 <= p < s.len() implies #[trigger] moved[p] == slot_terms(
        w,
        permuted_labels(id, sigma),
        beta,
        gamma,
    )[p] by {
        assert(is_next_occurrence(slots, p, sigma[p] as int));
        assert(w[sigma[p] as int] == w[p]);
    }
    assert(moved =~= slot_terms(w, permuted_labels(id, sigma), beta, gamma));
}

/// `x` lies in the subgroup of order `n`: `x^n = 1`.
pub open spec fn in_subgroup(x: nat, n: nat) -> bool {
    fpow(x, n) == 1
}

/// `k1` is the first integer from 2 up outside `H`.
pub open spec fn is_first_k1(k1: nat, n: nat) -> bool {
    &&& 2 <= k1
    &&& !in_subgroup(k1, n)
    &&& forall|c: nat| 2 <= c < k1 ==> #[trigger] in_subgroup(c, n)
}

/// `k2` is the first integer after `k1` outside both `H` and `k1 H`.
pub open spec fn is_first_k2(k1: nat, k2: nat, n: nat) -> bool {
    &&& k1 < k2
    &&& !in_subgroup(k2, n)
    &&& !in_subgroup(fdiv(k2, k1), n)
    &&& forall|c: nat| k1 < c < k2 ==> #[trigger] in_subgroup(c, n) || in_subgroup(fdiv(c, k1), n)
}

/// The domain size determines the coset generators.
pub proof fn lemma_coset_generators_unique(n: nat, k1: nat, k2: nat, j1: nat, j2: nat)
    requires
        is_first_k1(k1, n),
        is_first_k2(k1, k2, n),
        is_first_k1(j1, n),
        is_first_k2(j1, j2, n),
    ensures
        k1 == j1,
        k2 == j2,
{
    if k1 < j1 {
        assert(in_subgroup(k1, n));
    } else if j1 < k1 {
        assert(in_subgroup(j1, n));
    }
    if k2 < j2 {
        assert(in_subgroup(k2, n) || in_subgroup(fdiv(k2, k1), n));
    } else if j2 < k2 {
        assert(in_subgroup(j2, n) || in_subgroup(fdiv(j2, k1), n));
    }
}

/// `k` is in `H` or in `k1 H`, given `k1_inv = 1 / k1`.
fn in_one_of(k: u64, k1_inv: &Scalar, n: u64) -> (r: bool)
    ensures
        r == (in_subgroup(k as nat, n as nat) || in_subgroup(fmul(k as nat, k1_inv@), n as nat)),
{
    let ks = Scalar::from_u64(k);
    ks.pow(n).is_one() || ks.times(k1_inv).pow(n).is_one()
}

/// Find `k1, k2` such that `H`, `k1 H`, `k2 H` are disjoint cosets.
///
/// `k` is outside `H` iff `k^n != 1`. Smallest integers that work are chosen
/// so the result is deterministic and cheap to recompute on the verifier side.
/// `None` only if no such integers exist below `2^64 - 1`.
pub fn coset_generators(domain: &Domain) -> (r: Option<(Scalar, Scalar)>)
    ensures
        r matches Some(k) ==> is_first_k1(k.0@, domain.spec_size()) && is_first_k2(k.0@, k.1@, domain.spec_size()),
        r matches Some(k) ==> k.0@ < u64::MAX && k.1@ < u64::MAX,
        r is None ==> (forall|c: nat| 2 <= c < u64::MAX ==> #[trigger] in_subgroup(c, domain.spec_size())) || (exists|k1: nat|
            k1 < u64::MAX && #[trigger] is_first_k1(k1, domain.spec_size()) && forall|c: nat|
                k1 < c < u64::MAX ==> #[trigger] in_subgroup(c, domain.spec_size()) || in_subgroup(fdiv(c, k1), domain.spec_size())),
{
    let n = domain.size() as u64;
    let ghost nn = domain.spec_size();
    let mut k: u64 = 2;
    while k < u64::MAX && Scalar::from_u64(k).pow(n).is_one()
        invariant
            n == nn,
            2 <= k <= u64::MAX,
            forall|c: nat| 2 <= c < k ==> #[trigger] in_subgroup(c, nn),
        decreases u64::MAX - k,
    {
        k = k + 1;
    }
    if k == u64::MAX {
        return None;
    }
    let k1 = k;
    let k1s = Scalar::from_u64(k1);
    let k1_inv = match k1s.inverse() {
        Some(x) => x,
        None => Scalar::zero(),
    };
    proof {
        assert(is_first_k1(k1 as nat, nn));
    }
    k = k + 1;
    while k < u64::MAX && in_one_of(k, &k1_inv, n)
        invariant
            n == nn,
            k1 < k <= u64::MAX,
            k1_inv@ == finv(k1 as nat),
            forall|c: nat| k1 < c < k ==> #[trigger] in_subgroup(c, nn) || in_subgroup(fdiv(c, k1 as nat), nn),
        decreases u64::MAX - k,
    {
        k = k + 1;
    }
    if k == u64::MAX {
        proof {
            assert(is_first_k1(k1 as nat, nn));
        }
        return None;
    }
    Some((k1s, Scalar::from_u64(k)))
}

} // verus!
