//! Circuit builder for the vanilla PLONK gate
//!
//! ```text
//! q_L * a + q_R * b + q_O * c + q_M * a * b + q_C = 0
//! ```
//!
//! Every gate has three wire slots (`a`, `b`, `c`) which each point at a
//! variable. Two slots pointing at the same variable is a copy constraint,
//! enforced later by the permutation argument.
//!
//! Public inputs are the first `l` rows: each is a gate `1 * a + PI_i = 0`
//! where `PI_i = -x_i` lives in the public input polynomial rather than in
//! `q_C`, so the verifier can supply it.

use vstd::prelude::*;
use crate::field::{Scalar, fadd, fmul, fneg, fpow};
use vstd::arithmetic::power2::pow2;

verus! {

#[derive(Clone, Copy, Debug, PartialEq, Eq, Hash, PartialOrd, Ord, Structural)]
pub struct Variable(pub usize);

impl Variable {
    /// Every circuit's variable 0 is a constant zero, used to fill wire
    /// slots a gate doesn't use.
    pub fn zero() -> (r: Variable)
        ensures
            r == Variable::spec_zero(),
    {
        Variable(0)
    }

    pub open spec fn spec_zero() -> Variable {
        Variable(0)
    }

    pub open spec fn index(self) -> int {
        self.0 as int
    }
}

#[derive(Clone, Copy, Debug, PartialEq, Eq)]
pub struct Gate {
    pub a: Variable,
    pub b: Variable,
    pub c: Variable,
    pub q_l: Scalar,
    pub q_r: Scalar,
    pub q_o: Scalar,
    pub q_m: Scalar,
    pub q_c: Scalar,
}

/// `g` has these wires and these selector values.
pub open spec fn gate_is(
    g: Gate,
    a: Variable,
    b: Variable,
    c: Variable,
    q_l: nat,
    q_r: nat,
    q_o: nat,
    q_m: nat,
    q_c: nat,
) -> bool {
    &&& g.a == a
    &&& g.b == b
    &&& g.c == c
    &&& g.q_l@ == q_l
    &&& g.q_r@ == q_r
    &&& g.q_o@ == q_o
    &&& g.q_m@ == q_m
    &&& g.q_c@ == q_c
}

/// `q_l a + q_r b + q_o c + q_m a b + q_c + pi` under the assignment `values`.
pub open spec fn gate_eval(g: Gate, values: Seq<Scalar>, pi: nat) -> nat {
    let a = values[g.a.index()]@;
    let b = values[g.b.index()]@;
    let c = values[g.c.index()]@;
    fadd(
        fadd(
            fadd(fadd(fadd(fmul(g.q_l@, a), fmul(g.q_r@, b)), fmul(g.q_o@, c)), fmul(fmul(g.q_m@, a), b)),
            g.q_c@,
        ),
        pi,
    )
}

/// The parent links form a forest: every non-root points at a node of
/// strictly higher rank, and every rank is below `bound`.
pub open spec fn forest_ok(parent: Seq<usize>, rank: Seq<nat>, bound: nat) -> bool {
    &&& rank.len() == parent.len()
    &&& forall|i: int| 0 <= i < parent.len() ==> (#[trigger] parent[i] as int) < parent.len()
    &&& forall|i: int| 0 <= i < parent.len() ==> #[trigger] rank[i] < bound
    &&& forall|i: int|
        0 <= i < parent.len() && #[trigger] parent[i] as int != i ==> rank[i] < rank[parent[i] as int]
}

/// The node reached by following parent links from `i`.
pub open spec fn find_root(parent: Seq<usize>, rank: Seq<nat>, bound: nat, i: int) -> int
    decreases bound - rank[i],
    when forest_ok(parent, rank, bound) && 0 <= i < parent.len()
{
    if parent[i] as int == i {
        i
    } else {
        find_root(parent, rank, bound, parent[i] as int)
    }
}

proof fn lemma_root_props(parent: Seq<usize>, rank: Seq<nat>, bound: nat, i: int)
    requires
        forest_ok(parent, rank, bound),
        0 <= i < parent.len(),
    ensures
        0 <= find_root(parent, rank, bound, i) < parent.len(),
        parent[find_root(parent, rank, bound, i)] as int == find_root(parent, rank, bound, i),
        parent[i] as int != i ==> find_root(parent, rank, bound, i) == find_root(
            parent,
            rank,
            bound,
            parent[i] as int,
        ),
    decreases bound - rank[i],
{
    if parent[i] as int != i {
        assert(rank[i] < rank[parent[i] as int]);
        lemma_root_props(parent, rank, bound, parent[i] as int);
    }
}

proof fn lemma_root_rank_indep(
    parent: Seq<usize>,
    r1: Seq<nat>,
    b1: nat,
    r2: Seq<nat>,
    b2: nat,
    i: int,
)
    requires
        forest_ok(parent, r1, b1),
        forest_ok(parent, r2, b2),
        0 <= i < parent.len(),
    ensures
        find_root(parent, r1, b1, i) == find_root(parent, r2, b2, i),
    decreases b1 - r1[i],
{
    if parent[i] as int != i {
        assert(r1[i] < r1[parent[i] as int]);
        lemma_root_rank_indep(parent, r1, b1, r2, b2, parent[i] as int);
    }
}

proof fn lemma_root_push(parent: Seq<usize>, rank: Seq<nat>, bound: nat, i: int)
    requires
        forest_ok(parent, rank, bound),
        0 <= i < parent.len(),
        parent.len() < usize::MAX,
    ensures
        forest_ok(
            parent.push(parent.len() as usize),
            rank.push(0),
            if bound == 0 { 1 } else { bound },
        ),
        find_root(
            parent.push(parent.len() as usize),
            rank.push(0),
            if bound == 0 { 1 } else { bound },
            i,
        ) == find_root(parent, rank, bound, i),
    decreases bound - rank[i],
{
    let p2 = parent.push(parent.len() as usize);
    let r2 = rank.push(0);
    let b2: nat = if bound == 0 { 1 } else { bound };
    assert(forest_ok(p2, r2, b2)) by {
        assert forall|j: int| 0 <= j < p2.len() implies (#[trigger] p2[j] as int) < p2.len() by {
            if j < parent.len() {
                assert(p2[j] == parent[j]);
            }
        }
        assert forall|j: int| 0 <= j < p2.len() implies #[trigger] r2[j] < b2 by {
            if j < parent.len() {
                assert(r2[j] == rank[j]);
            }
        }
        assert forall|j: int| 0 <= j < p2.len() && #[trigger] p2[j] as int != j implies r2[j]
            < r2[p2[j] as int] by {
            if j < parent.len() {
                assert(p2[j] == parent[j]);
                assert(r2[j] == rank[j]);
                assert(r2[parent[j] as int] == rank[parent[j] as int]);
            }
        }
    }
    if parent[i] as int != i {
        assert(rank[i] < rank[parent[i] as int]);
        lemma_root_push(parent, rank, bound, parent[i] as int);
    }
}

/// The forest after hanging root `ry` under root `rx`.
pub open spec fn union_parent(parent: Seq<usize>, rx: int, ry: int) -> Seq<usize> {
    parent.update(ry, rx as usize)
}

pub open spec fn union_rank(rank: Seq<nat>, rx: int, ry: int) -> Seq<nat> {
    rank.update(rx, if rank[rx] > rank[ry] { rank[rx] } else { rank[ry] + 1 })
}

pub open spec fn union_bound(rank: Seq<nat>, bound: nat, rx: int, ry: int) -> nat {
    let r = if rank[rx] > rank[ry] { rank[rx] } else { rank[ry] + 1 };
    if r + 1 > bound {
        r + 1
    } else {
        bound
    }
}

proof fn lemma_union_ok(parent: Seq<usize>, rank: Seq<nat>, bound: nat, rx: int, ry: int)
    requires
        forest_ok(parent, rank, bound),
        0 <= rx < parent.len(),
        0 <= ry < parent.len(),
        rx != ry,
        parent[rx] as int == rx,
        parent[ry] as int == ry,
    ensures
        forest_ok(
            union_parent(parent, rx, ry),
            union_rank(rank, rx, ry),
            union_bound(rank, bound, rx, ry),
        ),
{
    let p2 = union_parent(parent, rx, ry);
    let r2 = union_rank(rank, rx, ry);
    let b2 = union_bound(rank, bound, rx, ry);
    assert forall|j: int| 0 <= j < p2.len() implies (#[trigger] p2[j] as int) < p2.len() by {
        if j != ry {
            assert(p2[j] == parent[j]);
        }
    }
    assert forall|j: int| 0 <= j < p2.len() implies #[trigger] r2[j] < b2 by {
        if j != rx {
            assert(r2[j] == rank[j]);
        }
    }
    assert forall|j: int| 0 <= j < p2.len() && #[trigger] p2[j] as int != j implies r2[j]
        < r2[p2[j] as int] by {
        if j != ry {
            assert(p2[j] == parent[j]);
            assert(j != rx);
            assert(rank[j] < rank[parent[j] as int]);
        }
    }
}

proof fn lemma_union_root(parent: Seq<usize>, rank: Seq<nat>, bound: nat, rx: int, ry: int, j: int)
    requires
        forest_ok(parent, rank, bound),
        0 <= rx < parent.len(),
        0 <= ry < parent.len(),
        rx != ry,
        parent[rx] as int == rx,
        parent[ry] as int == ry,
        0 <= j < parent.len(),
    ensures
        find_root(
            union_parent(parent, rx, ry),
            union_rank(rank, rx, ry),
            union_bound(rank, bound, rx, ry),
            j,
        ) == if find_root(parent, rank, bound, j) == ry {
            rx
        } else {
            find_root(parent, rank, bound, j)
        },
    decreases bound - rank[j],
{
    let p2 = union_parent(parent, rx, ry);
    let r2 = union_rank(rank, rx, ry);
    let b2 = union_bound(rank, bound, rx, ry);
    lemma_union_ok(parent, rank, bound, rx, ry);
    if parent[j] as int == j {
        if j == ry {
            assert(p2[ry] as int == rx);
            assert(p2[rx] as int == rx);
            assert(find_root(p2, r2, b2, rx) == rx);
        } else {
            assert(p2[j] == parent[j]);
        }
    } else {
        assert(j != ry);
        assert(p2[j] == parent[j]);
        assert(rank[j] < rank[parent[j] as int]);
        lemma_union_root(parent, rank, bound, rx, ry, parent[j] as int);
    }
}

/// The `i`-th bit variable `to_bits` allocates when the circuit had `n0` variables.
pub open spec fn bits_var(n0: nat, i: nat) -> Variable {
    Variable((n0 + 2 * i) as usize)
}

/// `sum_{i < k} 2^i bit_i(v)` in the field: the running sum `to_bits`
/// builds from the bits of `v`.
pub open spec fn bits_sum(v: Scalar, k: nat) -> nat
    decreases k,
{
    if k == 0 {
        0
    } else {
        fadd(bits_sum(v, (k - 1) as nat), fmul(fpow(2, (k - 1) as nat), bit_value(v.spec_bit((k - 1) as nat))))
    }
}

/// The range law of [`Circuit::to_bits`]: the running sum of the low `k`
/// bits of `x` is `x mod 2^k`, so the final gate `acc - x = 0` holds exactly
/// when `x < 2^k`.
pub proof fn lemma_bits_sum_range(v: Scalar, k: nat)
    requires
        v@ < crate::field::modulus(),
    ensures
        bits_sum(v, k) == v@ % pow2(k),
        bits_sum(v, k) == v@ <==> v@ < pow2(k),
    decreases k,
{
    let p = crate::field::modulus();
    vstd::arithmetic::power2::lemma_pow2_pos(k);
    crate::field::lemma_bits_make_value(v, k);
    if k > 0 {
        let k1 = (k - 1) as nat;
        lemma_bits_sum_range(v, k1);
        crate::field::lemma_bits_make_value(v, k1);
        let lo = v@ % pow2(k);
        // v mod 2^k is at most v, below the modulus
        if v@ >= pow2(k) {
            vstd::arithmetic::div_mod::lemma_mod_bound(v@ as int, pow2(k) as int);
        } else {
            vstd::arithmetic::div_mod::lemma_small_mod(v@, pow2(k));
        }
        assert(lo < p);
        let b = bit_value(v.spec_bit(k1));
        if v.spec_bit(k1) {
            assert(pow2(k1) < p);
            crate::evaluation::lemma_pow_mod(2, k1);
            vstd::arithmetic::power2::lemma_pow2(k1);
            vstd::arithmetic::div_mod::lemma_small_mod(pow2(k1), p);
            assert(fpow(2, k1) == pow2(k1));
            assert(fmul(pow2(k1), 1) == pow2(k1));
        } else {
            assert(fmul(fpow(2, k1), 0) == 0);
        }
        vstd::arithmetic::div_mod::lemma_small_mod(lo, p);
    }
    if v@ < pow2(k) {
        vstd::arithmetic::div_mod::lemma_small_mod(v@, pow2(k));
    } else {
        vstd::arithmetic::div_mod::lemma_mod_bound(v@ as int, pow2(k) as int);
    }
}

/// After `to_bits`, the running-sum variable after `k` bits holds
/// `bits_sum(v, k)`.
proof fn lemma_acc_is_bits_sum(c: Circuit, n0: nat, v: Scalar, k: nat)
    requires
        c.wf(),
        forall|i: nat|
            i < k ==> {
                let b = bit_value(v.spec_bit(i));
                &&& c.spec_value(#[trigger] bits_var(n0, i)) == b
                &&& c.spec_value(acc_var(n0, i + 1)) == fadd(c.spec_value(acc_var(n0, i)), fmul(fpow(2, i), b))
            },
    ensures
        c.spec_value(acc_var(n0, k)) == bits_sum(v, k),
    decreases k,
{
    if k == 0 {
        c.lemma_wires_ok();
    } else {
        let k1 = (k - 1) as nat;
        lemma_acc_is_bits_sum(c, n0, v, k1);
        assert(c.spec_value(bits_var(n0, k1)) == bit_value(v.spec_bit(k1)));
        assert(k1 + 1 == k);
    }
}

/// The running sum `to_bits` holds after `i` bits: the zero variable before
/// any bit, then the variable allocated right after bit `i - 1`.
pub open spec fn acc_var(n0: nat, i: nat) -> Variable {
    if i == 0 {
        Variable(0)
    } else {
        Variable((n0 + 2 * i - 1) as usize)
    }
}

pub open spec fn bit_value(b: bool) -> nat {
    if b {
        1
    } else {
        0
    }
}

#[derive(Clone)]
pub struct Circuit {
    /// Public input gates first, then everything else.
    gates: Vec<Gate>,
    /// Witness assignment, indexed by `Variable`.
    values: Vec<Scalar>,
    public_inputs: Vec<Variable>,
    /// Union-find over variables: `assert_equal` merges the two classes, and
    /// `root` names a class by its representative.
    parent: Vec<usize>,
    /// Variables that hold a constant, by the constant.
    constants: Vec<(Scalar, Variable)>,
    rank: Ghost<Seq<nat>>,
    rank_bound: Ghost<nat>,
}

impl Circuit {
    pub closed spec fn spec_gates(self) -> Seq<Gate> {
        self.gates@
    }

    pub closed spec fn spec_values(self) -> Seq<Scalar> {
        self.values@
    }

    pub closed spec fn spec_public_inputs(self) -> Seq<Variable> {
        self.public_inputs@
    }

    pub closed spec fn spec_constants(self) -> Seq<(Scalar, Variable)> {
        self.constants@
    }

    pub open spec fn num_vars(self) -> nat {
        self.spec_values().len()
    }

    /// The representative of variable `i` under `assert_equal`.
    pub closed spec fn spec_root(self, i: int) -> int {
        find_root(self.parent@, self.rank@, self.rank_bound@, i)
    }

    /// The value of variable `v`.
    pub open spec fn spec_value(self, v: Variable) -> nat {
        self.spec_values()[v.index()]@
    }

    /// The public input term of row `i`: `-x_i` for the public input rows,
    /// zero elsewhere.
    pub open spec fn spec_pi_at(self, i: int) -> nat {
        if 0 <= i < self.spec_public_inputs().len() {
            fneg(self.spec_value(self.spec_public_inputs()[i]))
        } else {
            0
        }
    }

    /// Every merged variable agrees with its representative and every gate
    /// holds.
    pub open spec fn spec_is_satisfied(self) -> bool {
        &&& forall|v: int|
            0 <= v < self.num_vars() ==> #[trigger] self.spec_values()[v]@ == self.spec_values()[self.spec_root(
                v,
            )]@
        &&& forall|i: int|
            0 <= i < self.spec_gates().len() ==> gate_eval(
                #[trigger] self.spec_gates()[i],
                self.spec_values(),
                self.spec_pi_at(i),
            ) == 0
    }

    /// Whether `g` holds the public input `v`: `v` on the left wire, `q_l = 1`, the rest zero.
    pub open spec fn is_public_input_gate(g: Gate, v: Variable) -> bool {
        gate_is(g, v, Variable::spec_zero(), Variable::spec_zero(), 1, 0, 0, 0, 0)
    }

    /// The constant `k`'s variable, if one was made.
    pub open spec fn spec_constant_of(self, k: nat) -> Option<Variable> {
        if exists|j: int| 0 <= j < self.spec_constants().len() && #[trigger] self.spec_constants()[j].0@ == k {
            let j = choose|j: int|
                0 <= j < self.spec_constants().len() && #[trigger] self.spec_constants()[j].0@ == k;
            Some(self.spec_constants()[j].1)
        } else {
            None
        }
    }

    pub open spec fn var_ok(self, v: Variable) -> bool {
        v.index() < self.num_vars()
    }

    pub closed spec fn wf(self) -> bool {
        &&& self.values@.len() >= 1
        &&& self.values@[0]@ == 0
        &&& self.parent@.len() == self.values@.len()
        &&& self.values@.len() < usize::MAX
        &&& forest_ok(self.parent@, self.rank@, self.rank_bound@)
        &&& forall|i: int| 0 <= i < self.gates@.len() ==> {
            &&& self.var_ok(#[trigger] self.gates@[i].a)
            &&& self.var_ok(self.gates@[i].b)
            &&& self.var_ok(self.gates@[i].c)
        }
        &&& self.public_inputs@.len() <= self.gates@.len()
        &&& forall|i: int|
            0 <= i < self.public_inputs@.len() ==> {
                &&& self.var_ok(#[trigger] self.public_inputs@[i])
                &&& Self::is_public_input_gate(self.gates@[i], self.public_inputs@[i])
            }
        &&& forall|j: int|
            0 <= j < self.constants@.len() ==> {
                &&& self.var_ok(#[trigger] self.constants@[j].1)
                &&& self.values@[self.constants@[j].1.index()]@ == self.constants@[j].0@
            }
        &&& forall|j1: int, j2: int|
            0 <= j1 < j2 < self.constants@.len() ==> #[trigger] self.constants@[j1].0@
                != #[trigger] self.constants@[j2].0@
    }

    /// Nothing but the gates changed.
    pub open spec fn same_vars(self, other: Circuit) -> bool {
        &&& self.spec_values() == other.spec_values()
        &&& self.spec_public_inputs() == other.spec_public_inputs()
        &&& self.spec_constants() == other.spec_constants()
        &&& forall|i: int| 0 <= i < self.num_vars() ==> #[trigger] self.spec_root(i) == other.spec_root(i)
    }

    /// One fresh variable holding `value` was added; roots of the others,
    /// public inputs and constants are unchanged.
    pub open spec fn allocated(self, old: Circuit, value: nat) -> bool {
        &&& self.spec_values().len() == old.spec_values().len() + 1
        &&& self.spec_values().drop_last() == old.spec_values()
        &&& self.spec_values().last()@ == value
        &&& self.spec_constants() == old.spec_constants()
        &&& forall|i: int| 0 <= i < old.num_vars() ==> #[trigger] self.spec_root(i) == old.spec_root(i)
        &&& self.spec_root(old.num_vars() as int) == old.num_vars()
    }

    proof fn lemma_root(self, i: int)
        requires
            self.wf(),
            0 <= i < self.num_vars(),
        ensures
            0 <= self.spec_root(i) < self.num_vars(),
            self.parent@[self.spec_root(i)] as int == self.spec_root(i),
            self.spec_root(self.spec_root(i)) == self.spec_root(i),
    {
        lemma_root_props(self.parent@, self.rank@, self.rank_bound@, i);
        lemma_root_props(self.parent@, self.rank@, self.rank_bound@, self.spec_root(i));
    }

    proof fn lemma_wf_frame(self, old: Circuit)
        requires
            old.wf(),
            self.values@ == old.values@,
            self.gates@ == old.gates@,
            self.public_inputs@ == old.public_inputs@,
            self.constants@ == old.constants@,
            self.parent@.len() == old.parent@.len(),
            forest_ok(self.parent@, self.rank@, self.rank_bound@),
        ensures
            self.wf(),
    {
        assert forall|i: int| 0 <= i < self.gates@.len() implies {
            &&& self.var_ok(#[trigger] self.gates@[i].a)
            &&& self.var_ok(self.gates@[i].b)
            &&& self.var_ok(self.gates@[i].c)
        } by {
            assert(old.var_ok(old.gates@[i].a));
        }
        assert forall|i: int| 0 <= i < self.public_inputs@.len() implies {
            &&& self.var_ok(#[trigger] self.public_inputs@[i])
            &&& Self::is_public_input_gate(self.gates@[i], self.public_inputs@[i])
        } by {
            assert(old.var_ok(old.public_inputs@[i]));
        }
        assert forall|j: int| 0 <= j < self.constants@.len() implies {
            &&& self.var_ok(#[trigger] self.constants@[j].1)
            &&& self.values@[self.constants@[j].1.index()]@ == self.constants@[j].0@
        } by {
            assert(old.var_ok(old.constants@[j].1));
        }
        assert forall|j1: int, j2: int|
            0 <= j1 < j2 < self.constants@.len() implies #[trigger] self.constants@[j1].0@
                != #[trigger] self.constants@[j2].0@ by {
            assert(old.constants@[j1].0@ != old.constants@[j2].0@);
        }
    }

    /// Following parent links twice lands where following them once does.
    pub proof fn lemma_root_idempotent(self, i: int)
        requires
            self.wf(),
            0 <= i < self.num_vars(),
        ensures
            0 <= self.spec_root(i) < self.num_vars(),
            self.spec_root(self.spec_root(i)) == self.spec_root(i),
    {
        self.lemma_root(i);
    }

    /// Row `i` of the trace is public input `i`'s gate.
    pub proof fn lemma_public_inputs_first(self, i: int)
        requires
            self.wf(),
            0 <= i < self.spec_public_inputs().len(),
        ensures
            i < self.spec_gates().len(),
            Self::is_public_input_gate(self.spec_gates()[i], self.spec_public_inputs()[i]),
    {
    }

    /// Every wire and public input of a well-formed circuit names a variable,
    /// and the zero variable holds 0.
    pub proof fn lemma_wires_ok(self)
        requires
            self.wf(),
        ensures
            self.num_vars() >= 1,
            self.spec_value(Variable::spec_zero()) == 0,
            self.num_vars() < usize::MAX,
            forall|i: int|
                0 <= i < self.spec_gates().len() ==> {
                    &&& self.var_ok(#[trigger] self.spec_gates()[i].a)
                    &&& self.var_ok(self.spec_gates()[i].b)
                    &&& self.var_ok(self.spec_gates()[i].c)
                },
            forall|i: int|
                0 <= i < self.spec_public_inputs().len() ==> self.var_ok(
                    #[trigger] self.spec_public_inputs()[i],
                ),
            self.spec_public_inputs().len() <= self.spec_gates().len(),
    {
        assert forall|i: int| 0 <= i < self.spec_gates().len() implies {
            &&& self.var_ok(#[trigger] self.spec_gates()[i].a)
            &&& self.var_ok(self.spec_gates()[i].b)
            &&& self.var_ok(self.spec_gates()[i].c)
        } by {
            assert(self.var_ok(self.gates@[i].a));
        }
        assert forall|i: int| 0 <= i < self.spec_public_inputs().len() implies self.var_ok(
            #[trigger] self.spec_public_inputs()[i],
        ) by {
            assert(self.var_ok(self.public_inputs@[i]));
        }
    }

    /// A fresh circuit with `Variable::spec_zero()` allocated and constrained.
    pub fn new() -> (c: Circuit)
        ensures
            c.wf(),
            c.spec_values().len() == 1,
            c.spec_values()[0]@ == 0,
            c.spec_gates().len() == 1,
            gate_is(c.spec_gates()[0], Variable::spec_zero(), Variable::spec_zero(), Variable::spec_zero(), 1, 0, 0, 0, 0),
            c.spec_public_inputs().len() == 0,
            c.spec_constants().len() == 0,
            c.spec_root(0) == 0,
            c.spec_is_satisfied(),
    {
        let mut values = Vec::new();
        values.push(Scalar::zero());
        let mut parent = Vec::new();
        parent.push(0usize);
        let rank: Ghost<Seq<nat>> = Ghost(Seq::<nat>::empty().push(0nat));
        let rank_bound: Ghost<nat> = Ghost(1nat);
        let mut c = Circuit {
            gates: Vec::new(),
            values,
            public_inputs: Vec::new(),
            parent,
            constants: Vec::new(),
            rank,
            rank_bound,
        };
        assert(forest_ok(c.parent@, c.rank@, c.rank_bound@));
        // 1 * zero + 0 = 0
        c.gate(
            Variable::zero(),
            Variable::zero(),
            Variable::zero(),
            Scalar::one(),
            Scalar::zero(),
            Scalar::zero(),
            Scalar::zero(),
            Scalar::zero(),
        );
        proof {
            let g = c.spec_gates()[0];
            assert(g.a.index() == 0 && g.b.index() == 0 && g.c.index() == 0);
            crate::field::lemma_modulus_pos();
            assert(fmul(1, 0) == 0 && fmul(0, 0) == 0 && fmul(fmul(0, 0), 0) == 0) by (nonlinear_arith)
                requires
                    crate::field::modulus() > 1,
            ;
            vstd::arithmetic::div_mod::lemma_small_mod(0, crate::field::modulus());
            assert(gate_eval(g, c.spec_values(), c.spec_pi_at(0)) == 0);
        }
        c
    }

    pub fn num_gates(&self) -> (r: usize)
        ensures
            r == self.spec_gates().len(),
    {
        self.gates.len()
    }

    pub fn num_variables(&self) -> (r: usize)
        ensures
            r == self.num_vars(),
    {
        self.values.len()
    }

    pub fn gates(&self) -> (r: &[Gate])
        ensures
            r@ == self.spec_gates(),
    {
        self.gates.as_slice()
    }

    pub fn num_public_inputs(&self) -> (r: usize)
        ensures
            r == self.spec_public_inputs().len(),
    {
        self.public_inputs.len()
    }

    /// Public input values, in the order they were declared.
    pub fn public_inputs(&self) -> (r: Vec<Scalar>)
        requires
            self.wf(),
        ensures
            r@.len() == self.spec_public_inputs().len(),
            forall|i: int|
                0 <= i < r@.len() ==> (#[trigger] r@[i])@ == self.spec_value(
                    self.spec_public_inputs()[i],
                ),
    {
        let mut r: Vec<Scalar> = Vec::new();
        for i in 0..self.public_inputs.len()
            invariant
                self.wf(),
                r@.len() == i,
                forall|j: int|
                    0 <= j < i ==> (#[trigger] r@[j])@ == self.spec_value(self.spec_public_inputs()[j]),
        {
            let v = self.public_inputs[i];
            r.push(self.values[v.0]);
        }
        r
    }

    pub fn value(&self, v: Variable) -> (r: Scalar)
        requires
            self.var_ok(v),
        ensures
            r@ == self.spec_value(v),
            r == self.spec_values()[v.index()],
    {
        self.values[v.0]
    }

    /// The representative of `v`'s equivalence class under `assert_equal`.
    /// This is what the permutation argument sees.
    pub fn root(&self, v: Variable) -> (r: Variable)
        requires
            self.wf(),
            self.var_ok(v),
        ensures
            r.index() == self.spec_root(v.index()),
            self.var_ok(r),
    {
        let mut i = v.0;
        while self.parent[i] != i
            invariant
                self.wf(),
                0 <= i < self.num_vars(),
                self.spec_root(i as int) == self.spec_root(v.index()),
            decreases self.rank_bound@ - self.rank@[i as int],
        {
            proof {
                lemma_root_props(self.parent@, self.rank@, self.rank_bound@, i as int);
            }
            i = self.parent[i];
        }
        proof {
            lemma_root_props(self.parent@, self.rank@, self.rank_bound@, i as int);
            lemma_root_props(self.parent@, self.rank@, self.rank_bound@, v.0 as int);
        }
        Variable(i)
    }

    /// Allocate an unconstrained witness variable.
    pub fn allocate(&mut self, value: Scalar) -> (r: Variable)
        requires
            old(self).wf(),
            old(self).num_vars() + 1 < usize::MAX,
        ensures
            final(self).wf(),
            r.index() == old(self).num_vars(),
            final(self).allocated(*old(self), value@),
            final(self).spec_values() == old(self).spec_values().push(value),
            final(self).spec_public_inputs() == old(self).spec_public_inputs(),
            final(self).spec_gates() == old(self).spec_gates(),
    {
        let ghost old_self = *self;
        let n = self.values.len();
        self.values.push(value);
        self.parent.push(n);
        proof {
            let b = self.rank_bound@;
            self.rank@ = self.rank@.push(0);
            self.rank_bound@ = if b == 0 { 1 } else { b };
            assert forall|i: int| 0 <= i < n implies self.spec_root(i) == old_self.spec_root(i) by {
                lemma_root_push(old_self.parent@, old_self.rank@, old_self.rank_bound@, i);
            }
            lemma_root_push(old_self.parent@, old_self.rank@, old_self.rank_bound@, 0);
            assert(self.parent@[n as int] == n);
            assert(self.spec_values().drop_last() =~= old_self.spec_values());
            assert forall|j: int| 0 <= j < self.constants@.len() implies {
                &&& self.var_ok(#[trigger] self.constants@[j].1)
                &&& self.values@[self.constants@[j].1.index()]@ == self.constants@[j].0@
            } by {
                assert(old_self.var_ok(old_self.constants@[j].1));
            }
            assert forall|i: int| 0 <= i < self.public_inputs@.len() implies {
                &&& self.var_ok(#[trigger] self.public_inputs@[i])
                &&& Self::is_public_input_gate(self.gates@[i], self.public_inputs@[i])
            } by {
                assert(old_self.var_ok(old_self.public_inputs@[i]));
            }
            assert forall|i: int| 0 <= i < self.gates@.len() implies {
                &&& self.var_ok(#[trigger] self.gates@[i].a)
                &&& self.var_ok(self.gates@[i].b)
                &&& self.var_ok(self.gates@[i].c)
            } by {
                assert(old_self.var_ok(old_self.gates@[i].a));
            }
        }
        Variable(n)
    }

    /// Append a gate with these wires and selectors.
    #[allow(clippy::too_many_arguments)]
    pub fn gate(
        &mut self,
        a: Variable,
        b: Variable,
        c: Variable,
        q_l: Scalar,
        q_r: Scalar,
        q_o: Scalar,
        q_m: Scalar,
        q_c: Scalar,
    )
        requires
            old(self).wf(),
            old(self).var_ok(a),
            old(self).var_ok(b),
            old(self).var_ok(c),
        ensures
            final(self).wf(),
            final(self).same_vars(*old(self)),
            final(self).spec_gates() == old(self).spec_gates().push(
                Gate { a, b, c, q_l, q_r, q_o, q_m, q_c },
            ),
    {
        let ghost old_self = *self;
        self.gates.push(Gate { a, b, c, q_l, q_r, q_o, q_m, q_c });
        proof {
            assert forall|i: int| 0 <= i < self.gates@.len() implies {
                &&& self.var_ok(#[trigger] self.gates@[i].a)
                &&& self.var_ok(self.gates@[i].b)
                &&& self.var_ok(self.gates@[i].c)
            } by {
                if i < old_self.gates@.len() {
                    assert(self.gates@[i] == old_self.gates@[i]);
                }
            }
            assert forall|i: int| 0 <= i < self.public_inputs@.len() implies {
                &&& self.var_ok(#[trigger] self.public_inputs@[i])
                &&& Self::is_public_input_gate(self.gates@[i], self.public_inputs@[i])
            } by {
                assert(self.gates@[i] == old_self.gates@[i]);
            }
        }
    }

    /// Declare a public input. Its gate is placed before all other gates so
    /// row `i` of the trace corresponds to public input `i`.
    pub fn public_input(&mut self, value: Scalar) -> (r: Variable)
        requires
            old(self).wf(),
            old(self).num_vars() + 1 < usize::MAX,
        ensures
            final(self).wf(),
            r.index() == old(self).num_vars(),
            final(self).allocated(*old(self), value@),
            final(self).spec_public_inputs() == old(self).spec_public_inputs().push(r),
            Self::is_public_input_gate(
                final(self).spec_gates()[old(self).spec_public_inputs().len() as int],
                r,
            ),
            final(self).spec_gates() == old(self).spec_gates().insert(
                old(self).spec_public_inputs().len() as int,
                final(self).spec_gates()[old(self).spec_public_inputs().len() as int],
            ),
    {
        let ghost old_self = *self;
        let v = self.allocate(value);
        let ghost mid = *self;
        let row = self.public_inputs.len();
        let g = Gate {
            a: v,
            b: Variable::zero(),
            c: Variable::zero(),
            q_l: Scalar::one(),
            q_r: Scalar::zero(),
            q_o: Scalar::zero(),
            q_m: Scalar::zero(),
            q_c: Scalar::zero(),
        };
        self.gates.insert(row, g);
        self.public_inputs.push(v);
        proof {
            assert(self.gates@ == mid.gates@.insert(row as int, g));
            assert forall|i: int| 0 <= i < self.gates@.len() implies {
                &&& self.var_ok(#[trigger] self.gates@[i].a)
                &&& self.var_ok(self.gates@[i].b)
                &&& self.var_ok(self.gates@[i].c)
            } by {
                if i < row {
                    assert(self.gates@[i] == mid.gates@[i]);
                    assert(mid.var_ok(mid.gates@[i].a));
                } else if i > row {
                    assert(self.gates@[i] == mid.gates@[i - 1]);
                    assert(mid.var_ok(mid.gates@[i - 1].a));
                } else {
                    assert(self.gates@[i] == g);
                }
            }
            assert forall|i: int| 0 <= i < self.public_inputs@.len() implies {
                &&& self.var_ok(#[trigger] self.public_inputs@[i])
                &&& Self::is_public_input_gate(self.gates@[i], self.public_inputs@[i])
            } by {
                if i < row {
                    assert(self.gates@[i] == mid.gates@[i]);
                    assert(self.public_inputs@[i] == mid.public_inputs@[i]);
                    assert(mid.var_ok(mid.public_inputs@[i]));
                }
            }
            assert(forall|i: int| 0 <= i < self.num_vars() ==> #[trigger] self.spec_root(i) == mid.spec_root(i));
        }
        v
    }

    /// A variable fixed to `k`. Repeated constants share one variable.
    pub fn constant(&mut self, k: Scalar) -> (r: Variable)
        requires
            old(self).wf(),
            old(self).num_vars() + 1 < usize::MAX,
        ensures
            final(self).wf(),
            final(self).var_ok(r),
            final(self).spec_value(r) == k@,
            final(self).spec_constant_of(k@) == Some(r),
            old(self).spec_constant_of(k@) matches Some(v) ==> r == v && *final(self) == *old(self),
            old(self).spec_constant_of(k@) is None ==> {
                &&& r.index() == old(self).num_vars()
                &&& final(self).spec_public_inputs() == old(self).spec_public_inputs()
                &&& final(self).spec_values() == old(self).spec_values().push(k)
                &&& final(self).spec_constants() == old(self).spec_constants().push((k, r))
                &&& forall|i: int| 0 <= i < old(self).num_vars() ==> #[trigger] final(self).spec_root(i) == old(self).spec_root(i)
                &&& final(self).spec_root(r.index()) == r.index()
                &&& final(self).spec_gates().len() == old(self).spec_gates().len() + 1
                &&& final(self).spec_gates().drop_last() == old(self).spec_gates()
                &&& gate_is(final(self).spec_gates().last(), r, Variable::spec_zero(), Variable::spec_zero(), 1, 0, 0, 0, fneg(k@))
            },
    {
        let ghost old_self = *self;
        let mut j: usize = 0;
        while j < self.constants.len()
            invariant
                self.wf(),
                *self == old_self,
                0 <= j <= self.constants@.len(),
                forall|i: int| 0 <= i < j ==> (#[trigger] self.constants@[i]).0@ != k@,
            decreases self.constants@.len() - j,
        {
            if self.constants[j].0.equals(&k) {
                let v = self.constants[j].1;
                proof {
                    let jj = choose|jj: int| 0 <= jj < self.spec_constants().len() && #[trigger] self.spec_constants()[jj].0@ == k@;
                    if jj != j {
                        if jj < j {
                            assert(self.constants@[jj].0@ != self.constants@[j as int].0@);
                        } else {
                            assert(self.constants@[j as int].0@ != self.constants@[jj].0@);
                        }
                    }
                }
                return v;
            }
            j = j + 1;
        }
        let v = self.allocate(k);
        let ghost mid1 = *self;
        self.constants.push((k, v));
        let ghost mid2 = *self;
        proof {
            assert(self.var_ok(v));
            assert forall|jj: int| 0 <= jj < self.constants@.len() implies {
                &&& self.var_ok(#[trigger] self.constants@[jj].1)
                &&& self.values@[self.constants@[jj].1.index()]@ == self.constants@[jj].0@
            } by {
                if jj < old_self.constants@.len() {
                    assert(self.constants@[jj] == old_self.constants@[jj]);
                    assert(old_self.var_ok(old_self.constants@[jj].1));
                    assert(self.values@[self.constants@[jj].1.index()] == old_self.values@[old_self.constants@[jj].1.index()]);
                }
            }
            assert forall|j1: int, j2: int|
                0 <= j1 < j2 < self.constants@.len() implies #[trigger] self.constants@[j1].0@
                    != #[trigger] self.constants@[j2].0@ by {
                if j2 < old_self.constants@.len() {
                    assert(self.constants@[j1] == old_self.constants@[j1]);
                    assert(self.constants@[j2] == old_self.constants@[j2]);
                } else {
                    assert(self.constants@[j1] == old_self.constants@[j1]);
                }
            }
            assert(forall|i: int| 0 <= i < self.num_vars() ==> #[trigger] self.spec_root(i) == mid1.spec_root(i));
            assert forall|i: int| 0 <= i < self.gates@.len() implies {
                &&& self.var_ok(#[trigger] self.gates@[i].a)
                &&& self.var_ok(self.gates@[i].b)
                &&& self.var_ok(self.gates@[i].c)
            } by {
                assert(mid1.var_ok(mid1.gates@[i].a));
            }
            assert forall|i: int| 0 <= i < self.public_inputs@.len() implies {
                &&& self.var_ok(#[trigger] self.public_inputs@[i])
                &&& Self::is_public_input_gate(self.gates@[i], self.public_inputs@[i])
            } by {
                assert(mid1.var_ok(mid1.public_inputs@[i]));
            }
            assert(self.wf());
        }
        let negk = k.negate();
        // v - k = 0
        self.gate(v, Variable::zero(), Variable::zero(), Scalar::one(), Scalar::zero(), Scalar::zero(), Scalar::zero(), negk);
        proof {
            let last = self.spec_constants().len() - 1;
            assert(self.spec_constants()[last].0@ == k@);
            let jj = choose|jj: int| 0 <= jj < self.spec_constants().len() && #[trigger] self.spec_constants()[jj].0@ == k@;
            if jj != last {
                assert(self.constants@[jj] == old_self.constants@[jj]);
            }
            assert(self.spec_values() =~= old_self.spec_values().push(k));
            assert(self.spec_gates().drop_last() =~= old_self.spec_gates());
        }
        v
    }

    /// `x + y`, constrained by `x + y - z = 0`.
    pub fn add(&mut self, x: Variable, y: Variable) -> (z: Variable)
        requires
            old(self).wf(),
            old(self).var_ok(x),
            old(self).var_ok(y),
            old(self).num_vars() + 1 < usize::MAX,
        ensures
            final(self).wf(),
            z.index() == old(self).num_vars(),
            final(self).allocated(*old(self), fadd(old(self).spec_value(x), old(self).spec_value(y))),
            final(self).spec_public_inputs() == old(self).spec_public_inputs(),
            final(self).spec_gates().drop_last() == old(self).spec_gates(),
            final(self).spec_gates().len() == old(self).spec_gates().len() + 1,
            gate_is(final(self).spec_gates().last(), x, y, z, 1, 1, fneg(1), 0, 0),
    {
        let v = self.value(x).plus(&self.value(y));
        let z = self.allocate(v);
        let minus_one = Scalar::one().negate();
        self.gate(x, y, z, Scalar::one(), Scalar::one(), minus_one, Scalar::zero(), Scalar::zero());
        proof { assert(self.spec_gates().drop_last() =~= old(self).spec_gates()); }
        z
    }

    /// `x * y`, constrained by `x * y - z = 0`.
    pub fn mul(&mut self, x: Variable, y: Variable) -> (z: Variable)
        requires
            old(self).wf(),
            old(self).var_ok(x),
            old(self).var_ok(y),
            old(self).num_vars() + 1 < usize::MAX,
        ensures
            final(self).wf(),
            z.index() == old(self).num_vars(),
            final(self).allocated(*old(self), fmul(old(self).spec_value(x), old(self).spec_value(y))),
            final(self).spec_public_inputs() == old(self).spec_public_inputs(),
            final(self).spec_gates().drop_last() == old(self).spec_gates(),
            final(self).spec_gates().len() == old(self).spec_gates().len() + 1,
            gate_is(final(self).spec_gates().last(), x, y, z, 0, 0, fneg(1), 1, 0),
    {
        let v = self.value(x).times(&self.value(y));
        let z = self.allocate(v);
        let minus_one = Scalar::one().negate();
        self.gate(x, y, z, Scalar::zero(), Scalar::zero(), minus_one, Scalar::one(), Scalar::zero());
        proof { assert(self.spec_gates().drop_last() =~= old(self).spec_gates()); }
        z
    }

    /// `x - y`, constrained by `x - y - z = 0`.
    pub fn sub(&mut self, x: Variable, y: Variable) -> (z: Variable)
        requires
            old(self).wf(),
            old(self).var_ok(x),
            old(self).var_ok(y),
            old(self).num_vars() + 1 < usize::MAX,
        ensures
            final(self).wf(),
            z.index() == old(self).num_vars(),
            final(self).allocated(*old(self), crate::field::fsub(old(self).spec_value(x), old(self).spec_value(y))),
            final(self).spec_public_inputs() == old(self).spec_public_inputs(),
            final(self).spec_gates().drop_last() == old(self).spec_gates(),
            final(self).spec_gates().len() == old(self).spec_gates().len() + 1,
            gate_is(final(self).spec_gates().last(), x, y, z, 1, fneg(1), fneg(1), 0, 0),
    {
        let v = self.value(x).minus(&self.value(y));
        let z = self.allocate(v);
        let minus_one = Scalar::one().negate();
        self.gate(x, y, z, Scalar::one(), minus_one, minus_one, Scalar::zero(), Scalar::zero());
        proof { assert(self.spec_gates().drop_last() =~= old(self).spec_gates()); }
        z
    }

    /// `x + k`, constrained by `x + k - z = 0`.
    pub fn add_const(&mut self, x: Variable, k: Scalar) -> (z: Variable)
        requires
            old(self).wf(),
            old(self).var_ok(x),
            old(self).num_vars() + 1 < usize::MAX,
        ensures
            final(self).wf(),
            z.index() == old(self).num_vars(),
            final(self).allocated(*old(self), fadd(old(self).spec_value(x), k@)),
            final(self).spec_public_inputs() == old(self).spec_public_inputs(),
            final(self).spec_gates().drop_last() == old(self).spec_gates(),
            final(self).spec_gates().len() == old(self).spec_gates().len() + 1,
            gate_is(final(self).spec_gates().last(), x, Variable::spec_zero(), z, 1, 0, fneg(1), 0, k@),
    {
        let v = self.value(x).plus(&k);
        let z = self.allocate(v);
        let minus_one = Scalar::one().negate();
        self.gate(x, Variable::zero(), z, Scalar::one(), Scalar::zero(), minus_one, Scalar::zero(), k);
        proof { assert(self.spec_gates().drop_last() =~= old(self).spec_gates()); }
        z
    }

    /// `k * x`, constrained by `k * x - z = 0`.
    pub fn mul_const(&mut self, x: Variable, k: Scalar) -> (z: Variable)
        requires
            old(self).wf(),
            old(self).var_ok(x),
            old(self).num_vars() + 1 < usize::MAX,
        ensures
            final(self).wf(),
            z.index() == old(self).num_vars(),
            final(self).allocated(*old(self), fmul(old(self).spec_value(x), k@)),
            final(self).spec_public_inputs() == old(self).spec_public_inputs(),
            final(self).spec_gates().drop_last() == old(self).spec_gates(),
            final(self).spec_gates().len() == old(self).spec_gates().len() + 1,
            gate_is(final(self).spec_gates().last(), x, Variable::spec_zero(), z, k@, 0, fneg(1), 0, 0),
    {
        let v = self.value(x).times(&k);
        let z = self.allocate(v);
        let minus_one = Scalar::one().negate();
        self.gate(x, Variable::zero(), z, k, Scalar::zero(), minus_one, Scalar::zero(), Scalar::zero());
        proof { assert(self.spec_gates().drop_last() =~= old(self).spec_gates()); }
        z
    }

    /// `x * y + z`, in two gates: `x * y - xy = 0` and `xy + z - out = 0`.
    pub fn mul_add(&mut self, x: Variable, y: Variable, z: Variable) -> (out: Variable)
        requires
            old(self).wf(),
            old(self).var_ok(x),
            old(self).var_ok(y),
            old(self).var_ok(z),
            old(self).num_vars() + 2 < usize::MAX,
        ensures
            final(self).wf(),
            out.index() == old(self).num_vars(),
            final(self).spec_values().len() == old(self).num_vars() + 2,
            final(self).spec_values().subrange(0, old(self).num_vars() as int) == old(self).spec_values(),
            final(self).spec_values()[old(self).num_vars() as int]@ == fadd(
                fmul(old(self).spec_value(x), old(self).spec_value(y)),
                old(self).spec_value(z),
            ),
            final(self).spec_values()[old(self).num_vars() + 1int]@ == fmul(
                old(self).spec_value(x),
                old(self).spec_value(y),
            ),
            final(self).spec_public_inputs() == old(self).spec_public_inputs(),
            final(self).spec_constants() == old(self).spec_constants(),
            forall|i: int| 0 <= i < old(self).num_vars() ==> #[trigger] final(self).spec_root(i) == old(self).spec_root(i),
            final(self).spec_gates().len() == old(self).spec_gates().len() + 2,
            final(self).spec_gates().subrange(0, old(self).spec_gates().len() as int) == old(self).spec_gates(),
            gate_is(
                final(self).spec_gates()[old(self).spec_gates().len() as int],
                x,
                y,
                Variable((old(self).num_vars() + 1) as usize),
                0,
                0,
                fneg(1),
                1,
                0,
            ),
            gate_is(final(self).spec_gates().last(), Variable((old(self).num_vars() + 1) as usize), z, out, 1, 1, fneg(1), 0, 0),
    {
        let ghost old_self = *self;
        let v = self.value(x).times(&self.value(y)).plus(&self.value(z));
        let out = self.allocate(v);
        let ghost mid = *self;
        // x*y + z - out = 0 needs four wires, so it takes two gates
        let xy = self.mul(x, y);
        let minus_one = Scalar::one().negate();
        self.gate(xy, z, out, Scalar::one(), Scalar::one(), minus_one, Scalar::zero(), Scalar::zero());
        proof {
            assert(self.spec_values().subrange(0, old_self.num_vars() as int) =~= old_self.spec_values());
            assert(self.spec_gates().subrange(0, old_self.spec_gates().len() as int) =~= old_self.spec_gates());
            assert(self.spec_gates()[old_self.spec_gates().len() as int] == mid.spec_gates().push(self.spec_gates()[old_self.spec_gates().len() as int]).last());
        }
        out
    }

    /// Constrain `x` to be 0 or 1: `x * x - x = 0`.
    pub fn assert_bool(&mut self, x: Variable)
        requires
            old(self).wf(),
            old(self).var_ok(x),
        ensures
            final(self).wf(),
            final(self).same_vars(*old(self)),
            final(self).spec_gates().drop_last() == old(self).spec_gates(),
            final(self).spec_gates().len() == old(self).spec_gates().len() + 1,
            gate_is(final(self).spec_gates().last(), x, x, Variable::spec_zero(), fneg(1), 0, 0, 1, 0),
    {
        let minus_one = Scalar::one().negate();
        self.gate(x, x, Variable::zero(), minus_one, Scalar::zero(), Scalar::zero(), Scalar::one(), Scalar::zero());
        proof { assert(self.spec_gates().drop_last() =~= old(self).spec_gates()); }
    }

    /// Constrain `x == k`: `x - k = 0`.
    pub fn assert_const(&mut self, x: Variable, k: Scalar)
        requires
            old(self).wf(),
            old(self).var_ok(x),
        ensures
            final(self).wf(),
            final(self).same_vars(*old(self)),
            final(self).spec_gates().drop_last() == old(self).spec_gates(),
            final(self).spec_gates().len() == old(self).spec_gates().len() + 1,
            gate_is(final(self).spec_gates().last(), x, Variable::spec_zero(), Variable::spec_zero(), 1, 0, 0, 0, fneg(k@)),
    {
        let negk = k.negate();
        self.gate(x, Variable::zero(), Variable::zero(), Scalar::one(), Scalar::zero(), Scalar::zero(), Scalar::zero(), negk);
        proof { assert(self.spec_gates().drop_last() =~= old(self).spec_gates()); }
    }

    /// Constrain `x == y`: the two variables are merged in the union-find,
    /// and a gate `x - y = 0` records the constraint for the prover.
    pub fn assert_equal(&mut self, x: Variable, y: Variable)
        requires
            old(self).wf(),
            old(self).var_ok(x),
            old(self).var_ok(y),
        ensures
            final(self).wf(),
            final(self).spec_values() == old(self).spec_values(),
            final(self).spec_gates().drop_last() == old(self).spec_gates(),
            final(self).spec_gates().len() == old(self).spec_gates().len() + 1,
            gate_is(final(self).spec_gates().last(), x, y, Variable::spec_zero(), 1, fneg(1), 0, 0, 0),
            final(self).spec_public_inputs() == old(self).spec_public_inputs(),
            final(self).spec_constants() == old(self).spec_constants(),
            forall|j: int|
                0 <= j < old(self).num_vars() ==> #[trigger] final(self).spec_root(j) == if old(self).spec_root(j)
                    == old(self).spec_root(y.index()) {
                    old(self).spec_root(x.index())
                } else {
                    old(self).spec_root(j)
                },
            final(self).spec_root(x.index()) == final(self).spec_root(y.index()),
    {
        let ghost old_self = *self;
        let rx = self.root(x);
        let ry = self.root(y);
        proof {
            old_self.lemma_root(x.index());
            old_self.lemma_root(y.index());
        }
        if rx.0 != ry.0 {
            self.parent.set(ry.0, rx.0);
            proof {
                let p = old_self.parent@;
                let rk = old_self.rank@;
                let b = old_self.rank_bound@;
                lemma_union_ok(p, rk, b, rx.index(), ry.index());
                self.rank@ = union_rank(rk, rx.index(), ry.index());
                self.rank_bound@ = union_bound(rk, b, rx.index(), ry.index());
                assert(self.parent@ == union_parent(p, rx.index(), ry.index()));
                self.lemma_wf_frame(old_self);
                assert forall|j: int| 0 <= j < old_self.num_vars() implies #[trigger] self.spec_root(j) == if old_self.spec_root(j)
                    == old_self.spec_root(y.index()) {
                    old_self.spec_root(x.index())
                } else {
                    old_self.spec_root(j)
                } by {
                    lemma_union_root(p, rk, b, rx.index(), ry.index(), j);
                }
                assert(self.spec_root(x.index()) == old_self.spec_root(x.index())) by {
                    lemma_union_root(p, rk, b, rx.index(), ry.index(), x.index());
                }
                assert(self.spec_root(y.index()) == old_self.spec_root(x.index())) by {
                    lemma_union_root(p, rk, b, rx.index(), ry.index(), y.index());
                }
            }
        }
        let ghost merged = *self;
        let minus_one = Scalar::one().negate();
        self.gate(x, y, Variable::zero(), Scalar::one(), minus_one, Scalar::zero(), Scalar::zero(), Scalar::zero());
        proof {
            assert(self.spec_gates().drop_last() =~= old_self.spec_gates());
            assert forall|j: int| 0 <= j < old_self.num_vars() implies #[trigger] self.spec_root(j) == merged.spec_root(j) by {}
        }
    }

    /// Check every gate against the current assignment. Useful in tests; the
    /// prover doesn't rely on it.
    pub fn is_satisfied(&self) -> (r: bool)
        requires
            self.wf(),
        ensures
            r == self.spec_is_satisfied(),
    {
        let n = self.values.len();
        let mut merged_agree = true;
        let mut i: usize = 0;
        while i < n
            invariant
                self.wf(),
                n == self.num_vars(),
                0 <= i <= n,
                merged_agree == forall|v: int| 0 <= v < i ==> #[trigger] self.spec_values()[v]@ == self.spec_values()[self.spec_root(v)]@,
            decreases n - i,
        {
            let v = Variable(i);
            let rv = self.root(v);
            let same = self.value(v).equals(&self.value(rv));
            proof {
                if merged_agree && same {
                    assert forall|w: int| 0 <= w < i + 1 implies #[trigger] self.spec_values()[w]@ == self.spec_values()[self.spec_root(w)]@ by {
                        if w == i as int {
                        }
                    }
                }
                if !same {
                    assert(!(self.spec_values()[i as int]@ == self.spec_values()[self.spec_root(i as int)]@));
                }
            }
            merged_agree = merged_agree && same;
            i = i + 1;
        }
        if !merged_agree {
            return false;
        }
        let pi = self.public_inputs();
        let m = self.gates.len();
        let mut j: usize = 0;
        proof {
            self.lemma_wires_ok();
        }
        assert(forall|t: int|
                    0 <= t < self.spec_gates().len() ==> {
                        &&& self.var_ok(#[trigger] self.spec_gates()[t].a)
                        &&& self.var_ok(self.spec_gates()[t].b)
                        &&& self.var_ok(self.spec_gates()[t].c)
                    });
        while j < m
            invariant
                self.wf(),
                m == self.spec_gates().len(),
                0 <= j <= m,
                pi@.len() == self.spec_public_inputs().len(),
                forall|t: int| 0 <= t < pi@.len() ==> (#[trigger] pi@[t])@ == self.spec_value(self.spec_public_inputs()[t]),
                forall|t: int| 0 <= t < j ==> gate_eval(#[trigger] self.spec_gates()[t], self.spec_values(), self.spec_pi_at(t)) == 0,
                forall|t: int|
                    0 <= t < self.spec_gates().len() ==> {
                        &&& self.var_ok(#[trigger] self.spec_gates()[t].a)
                        &&& self.var_ok(self.spec_gates()[t].b)
                        &&& self.var_ok(self.spec_gates()[t].c)
                    },
            decreases m - j,
        {
            let g = self.gates[j];
            let a = self.value(g.a);
            let b = self.value(g.b);
            let c = self.value(g.c);
            let pi_j = if j < pi.len() { pi[j].negate() } else { Scalar::zero() };
            let lhs = g.q_l.times(&a).plus(&g.q_r.times(&b)).plus(&g.q_o.times(&c)).plus(
                &g.q_m.times(&a).times(&b),
            ).plus(&g.q_c).plus(&pi_j);
            if !lhs.is_zero() {
                return false;
            }
            j = j + 1;
        }
        true
    }

    /// Split `x` into `bits` little-endian bits, each constrained boolean,
    /// and constrain the recomposition. Fails the circuit if `x` doesn't fit.
    pub fn to_bits(&mut self, x: Variable, bits: usize) -> (out: Vec<Variable>)
        requires
            old(self).wf(),
            old(self).var_ok(x),
            old(self).num_vars() + 2 * bits + 1 < usize::MAX,
        ensures
            final(self).wf(),
            out@.len() == bits,
            forall|i: int| 0 <= i < bits ==> #[trigger] out@[i] == bits_var(old(self).num_vars(), i as nat),
            final(self).spec_values().len() == old(self).num_vars() + 2 * bits,
            final(self).spec_values().subrange(0, old(self).num_vars() as int) == old(self).spec_values(),
            forall|i: nat|
                i < bits ==> {
                    let b = bit_value(old(self).spec_values()[x.index()].spec_bit(i));
                    &&& final(self).spec_value(#[trigger] bits_var(old(self).num_vars(), i)) == b
                    &&& final(self).spec_value(acc_var(old(self).num_vars(), i + 1)) == fadd(
                        final(self).spec_value(acc_var(old(self).num_vars(), i)),
                        fmul(fpow(2, i), b),
                    )
                },
            final(self).spec_value(acc_var(old(self).num_vars(), bits as nat)) == bits_sum(
                old(self).spec_values()[x.index()],
                bits as nat,
            ),
            final(self).spec_gates().len() == old(self).spec_gates().len() + 2 * bits + 1,
            final(self).spec_gates().subrange(0, old(self).spec_gates().len() as int) == old(self).spec_gates(),
            gate_is(
                final(self).spec_gates().last(),
                acc_var(old(self).num_vars(), bits as nat),
                x,
                Variable::spec_zero(),
                1,
                fneg(1),
                0,
                0,
                0,
            ),
            forall|i: nat|
                i < bits ==> {
                    &&& gate_is(
                        #[trigger] final(self).spec_gates()[(old(self).spec_gates().len() + 2 * i) as int],
                        bits_var(old(self).num_vars(), i),
                        bits_var(old(self).num_vars(), i),
                        Variable::spec_zero(),
                        fneg(1),
                        0,
                        0,
                        1,
                        0,
                    )
                    &&& gate_is(
                        final(self).spec_gates()[(old(self).spec_gates().len() + 2 * i + 1) as int],
                        acc_var(old(self).num_vars(), i),
                        bits_var(old(self).num_vars(), i),
                        acc_var(old(self).num_vars(), i + 1),
                        1,
                        fpow(2, i),
                        fneg(1),
                        0,
                        0,
                    )
                },
            final(self).spec_public_inputs() == old(self).spec_public_inputs(),
            final(self).spec_constants() == old(self).spec_constants(),
            final(self).spec_root(x.index()) == final(self).spec_root(
                acc_var(old(self).num_vars(), bits as nat).index(),
            ),
            forall|j: int|
                0 <= j < old(self).num_vars() ==> #[trigger] final(self).spec_root(j) == if old(self).spec_root(j)
                    == old(self).spec_root(x.index()) {
                    final(self).spec_root(acc_var(old(self).num_vars(), bits as nat).index())
                } else {
                    old(self).spec_root(j)
                },
    {
        let ghost old_self = *self;
        let ghost n0 = old_self.num_vars();
        let ghost g0 = old_self.spec_gates().len();
        let value = self.value(x);
        let mut out: Vec<Variable> = Vec::new();
        let mut acc = Variable::zero();
        let mut pow = Scalar::one();
        let mut i: usize = 0;
        while i < bits
            invariant
                self.wf(),
                0 <= i <= bits,
                old_self.var_ok(x),
                value@ == old_self.spec_value(x),
                value == old_self.spec_values()[x.index()],
                old_self.num_vars() + 2 * bits + 1 < usize::MAX,
                n0 == old_self.num_vars(),
                g0 == old_self.spec_gates().len(),
                out@.len() == i,
                forall|t: int| 0 <= t < i ==> #[trigger] out@[t] == bits_var(n0, t as nat),
                acc == acc_var(n0, i as nat),
                pow@ == fpow(2, i as nat),
                self.num_vars() == n0 + 2 * i,
                self.spec_values().subrange(0, n0 as int) == old_self.spec_values(),
                forall|t: nat|
                    t < i ==> {
                        let b = bit_value(value.spec_bit(t));
                        &&& self.spec_value(#[trigger] bits_var(n0, t)) == b
                        &&& self.spec_value(acc_var(n0, t + 1)) == fadd(
                            self.spec_value(acc_var(n0, t)),
                            fmul(fpow(2, t), b),
                        )
                    },
                self.spec_gates().len() == g0 + 2 * i,
                self.spec_gates().subrange(0, g0 as int) == old_self.spec_gates(),
                forall|t: nat|
                    t < i ==> {
                        &&& gate_is(
                            #[trigger] self.spec_gates()[(g0 + 2 * t) as int],
                            bits_var(n0, t),
                            bits_var(n0, t),
                            Variable::spec_zero(),
                            fneg(1),
                            0,
                            0,
                            1,
                            0,
                        )
                        &&& gate_is(
                            self.spec_gates()[(g0 + 2 * t + 1) as int],
                            acc_var(n0, t),
                            bits_var(n0, t),
                            acc_var(n0, t + 1),
                            1,
                            fpow(2, t),
                            fneg(1),
                            0,
                            0,
                        )
                    },
                self.spec_public_inputs() == old_self.spec_public_inputs(),
                self.spec_constants() == old_self.spec_constants(),
                forall|j: int|
                    0 <= j < self.num_vars() ==> #[trigger] self.spec_root(j) == if j < n0 {
                        old_self.spec_root(j)
                    } else {
                        j
                    },
            decreases bits - i,
        {
            let ghost s0 = *self;
            let b = value.bit(i);
            let bit_scalar = Scalar::from_u64(if b { 1 } else { 0 });
            let bit = self.allocate(bit_scalar);
            let ghost s1 = *self;
            self.assert_bool(bit);
            let ghost s2 = *self;
            proof {
                assert(self.var_ok(acc));
            }
            // acc' = acc + 2^i * bit
            let next_val = self.value(acc).plus(&pow.times(&self.value(bit)));
            let next = self.allocate(next_val);
            let ghost s3 = *self;
            let minus_one = Scalar::one().negate();
            self.gate(acc, bit, next, Scalar::one(), pow, minus_one, Scalar::zero(), Scalar::zero());
            proof {
                let ii = i as nat;
                assert(bit == bits_var(n0, ii));
                assert(next == acc_var(n0, ii + 1));
                assert(self.spec_values() == s3.spec_values());
                assert(s3.spec_values() == s2.spec_values().push(next_val));
                assert(s2.spec_values() == s0.spec_values().push(bit_scalar));
                assert forall|t: int| 0 <= t < s0.num_vars() implies #[trigger] self.spec_values()[t] == s0.spec_values()[t] by {
                }
                assert(self.spec_values().subrange(0, n0 as int) =~= old_self.spec_values()) by {
                    assert(s0.spec_values().subrange(0, n0 as int) == old_self.spec_values());
                }
                assert forall|t: nat|
                    t < i + 1 implies {
                        let bv = bit_value(value.spec_bit(t));
                        &&& self.spec_value(#[trigger] bits_var(n0, t)) == bv
                        &&& self.spec_value(acc_var(n0, t + 1)) == fadd(
                            self.spec_value(acc_var(n0, t)),
                            fmul(fpow(2, t), bv),
                        )
                    } by {
                    if t < i {
                        assert(s0.spec_value(bits_var(n0, t)) == bit_value(value.spec_bit(t)));
                        assert(acc_var(n0, t).index() < s0.num_vars());
                        assert(acc_var(n0, t + 1).index() < s0.num_vars());
                    } else {
                        assert(acc.index() < s0.num_vars());
                    }
                }
                assert(self.spec_gates() == s2.spec_gates().push(self.spec_gates().last()));
                assert(s2.spec_gates() == s0.spec_gates().push(s2.spec_gates().last()));
                assert forall|t: int| 0 <= t < s0.spec_gates().len() implies #[trigger] self.spec_gates()[t] == s0.spec_gates()[t] by {
                }
                assert(self.spec_gates().subrange(0, g0 as int) =~= old_self.spec_gates()) by {
                    assert(s0.spec_gates().subrange(0, g0 as int) == old_self.spec_gates());
                }
                assert forall|t: nat|
                    t < i + 1 implies {
                        &&& gate_is(
                            #[trigger] self.spec_gates()[(g0 + 2 * t) as int],
                            bits_var(n0, t),
                            bits_var(n0, t),
                            Variable::spec_zero(),
                            fneg(1),
                            0,
                            0,
                            1,
                            0,
                        )
                        &&& gate_is(
                            self.spec_gates()[(g0 + 2 * t + 1) as int],
                            acc_var(n0, t),
                            bits_var(n0, t),
                            acc_var(n0, t + 1),
                            1,
                            fpow(2, t),
                            fneg(1),
                            0,
                            0,
                        )
                    } by {
                    if t < i {
                        assert(self.spec_gates()[(g0 + 2 * t) as int] == s0.spec_gates()[(g0 + 2 * t) as int]);
                        assert(self.spec_gates()[(g0 + 2 * t + 1) as int] == s0.spec_gates()[(g0 + 2 * t + 1) as int]);
                    }
                }
                assert forall|j: int| 0 <= j < self.num_vars() implies #[trigger] self.spec_root(j) == if j < n0 {
                    old_self.spec_root(j)
                } else {
                    j
                } by {
                    if j < s0.num_vars() {
                        assert(s1.spec_root(j) == s0.spec_root(j));
                        assert(s3.spec_root(j) == s2.spec_root(j));
                    } else if j == s0.num_vars() {
                        assert(s3.spec_root(j) == s2.spec_root(j));
                    }
                }
            }
            acc = next;
            out.push(bit);
            pow = pow.plus(&pow);
            i = i + 1;
        }
        let ghost before = *self;
        proof {
            assert(acc.index() < self.num_vars());
        }
        self.assert_equal(acc, x);
        proof {
            assert(self.spec_gates().subrange(0, g0 as int) =~= before.spec_gates().subrange(0, g0 as int));
            assert forall|t: nat| t < bits implies {
                &&& #[trigger] self.spec_gates()[(g0 + 2 * t) as int] == before.spec_gates()[(g0 + 2 * t) as int]
                &&& self.spec_gates()[(g0 + 2 * t + 1) as int] == before.spec_gates()[(g0 + 2 * t + 1) as int]
            } by {
                assert(self.spec_gates().drop_last()[(g0 + 2 * t) as int] == self.spec_gates()[(g0 + 2 * t) as int]);
                assert(self.spec_gates().drop_last()[(g0 + 2 * t + 1) as int] == self.spec_gates()[(g0 + 2 * t + 1) as int]);
            }
            assert forall|j: int| 0 <= j < old_self.num_vars() implies #[trigger] self.spec_root(j) == if old_self.spec_root(j)
                == old_self.spec_root(x.index()) {
                self.spec_root(acc_var(n0, bits as nat).index())
            } else {
                old_self.spec_root(j)
            } by {
                assert(before.spec_root(j) == old_self.spec_root(j));
                assert(before.spec_root(x.index()) == old_self.spec_root(x.index()));
                before.lemma_root(acc.index());
                before.lemma_root(x.index());
                assert(self.spec_root(acc.index()) == before.spec_root(acc.index()));
            }
            lemma_acc_is_bits_sum(*self, n0, value, bits as nat);
        }
        out
    }
}

impl Default for Circuit {
    fn default() -> (c: Self)
        ensures
            c.wf(),
            c.spec_values().len() == 1,
            c.spec_values()[0]@ == 0,
            c.spec_gates().len() == 1,
            gate_is(c.spec_gates()[0], Variable::spec_zero(), Variable::spec_zero(), Variable::spec_zero(), 1, 0, 0, 0, 0),
            c.spec_public_inputs().len() == 0,
            c.spec_constants().len() == 0,
            c.spec_root(0) == 0,
            c.spec_is_satisfied(),
    {
        Self::new()
    }
}

} // verus!
