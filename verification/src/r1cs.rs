//! A rank-one constraint system builder.
//!
//! This is the explicit, exclusively-owned form of the constraint-system
//! environment the gadget appends to: a witness assignment (one residue per
//! variable, with variable `0` fixed to the field identity), and a list of
//! constraints `A * B = C` over linear combinations of variables. Everything
//! is append-only: nothing is mutated or removed after allocation.
//!
//! A linear combination is a list of `(coefficient, variable index)` terms;
//! a constant term is a coefficient on variable `0`.
//!
//! Debug labels and naming scopes of constraint-system environments are
//! diagnostic only, with no semantic effect, and are not modelled here.

use vstd::prelude::*;

verus! {

use crate::field::fe_inverse;
use crate::field::lemma_sub_mod_zero_iff;
use crate::field::no_zero_divisors;
use crate::laws::lemma_boolean_constraint_forces_bit;
use vstd::arithmetic::div_mod::lemma_mod_equivalence;
use crate::field::lemma_neg_coeff;
use crate::field::lemma_one_minus_bit;
use crate::field::mul_mod;
use vstd::arithmetic::div_mod::lemma_mod_bound;
use vstd::arithmetic::div_mod::lemma_mod_twice;
use vstd::arithmetic::div_mod::lemma_small_mod;
use vstd::arithmetic::mul::lemma_mul_upper_bound;

/// A variable of the constraint system: an index into the witness assignment.
#[derive(Clone, Copy, Debug, PartialEq, Eq, Structural)]
pub struct Variable {
    pub index: usize,
}

/// One rank-one constraint `A * B = C` over linear combinations.
pub struct Constraint {
    pub a: Vec<(u64, usize)>,
    pub b: Vec<(u64, usize)>,
    pub c: Vec<(u64, usize)>,
}

/// A fatal construction error, propagated upward unchanged; construction is
/// deterministic, so a retry would reproduce the same failure.
#[derive(Clone, Copy, Debug, PartialEq, Eq, Structural)]
pub enum SynthesisError {
    /// A required multiplicative inverse could not be found; with a prime
    /// modulus this does not arise.
    DivisionByZero,
}

/// The constraint system under construction.
pub struct ConstraintSystem {
    pub modulus: u64,
    pub assignment: Vec<u64>,
    pub constraints: Vec<Constraint>,
}

/// Value of a linear combination under an assignment, reduced modulo `p` at
/// every step (so it lies in `[0, p)` whenever `p > 0` and the combination is
/// nonempty, and is `0` when empty).
pub open spec fn lc_eval(p: int, asg: Seq<u64>, lc: Seq<(u64, usize)>) -> int
    decreases lc.len(),
{
    if lc.len() == 0 {
        0
    } else {
        (lc_eval(p, asg, lc.drop_last()) + lc.last().0 * asg[lc.last().1 as int]) % p
    }
}

/// Every variable index of the combination is below `n`.
pub open spec fn lc_wf(lc: Seq<(u64, usize)>, n: int) -> bool {
    forall|i: int| 0 <= i < lc.len() ==> (#[trigger] lc[i]).1 < n
}

/// Every variable index of the constraint is below `n`.
pub open spec fn constraint_wf(c: Constraint, n: int) -> bool {
    lc_wf(c.a@, n) && lc_wf(c.b@, n) && lc_wf(c.c@, n)
}

/// The assignment satisfies the constraint: `A * B = C` modulo `p`.
pub open spec fn constraint_holds(p: int, asg: Seq<u64>, c: Constraint) -> bool {
    (lc_eval(p, asg, c.a@) * lc_eval(p, asg, c.b@)) % p == lc_eval(p, asg, c.c@)
}

/// The constraints with indices in `[from, to)` all hold under the
/// assignment `w` — stated of an arbitrary assignment, not only the recorded
/// one, so that contracts can speak of every satisfying witness.
pub open spec fn range_holds(
    p: int,
    w: Seq<u64>,
    constraints: Seq<Constraint>,
    from: int,
    to: int,
) -> bool {
    forall|i: int| from <= i < to ==> constraint_holds(p, w, #[trigger] constraints[i])
}

/// `w` is a candidate witness for a system with at least `n` variables over
/// modulus `p`: it covers every variable, fixes the constant-one input, and
/// assigns reduced residues.
pub open spec fn assignment_over(w: Seq<u64>, p: int, n: int) -> bool {
    &&& w.len() >= n
    &&& w.len() >= 1
    &&& w[0] == 1
    &&& forall|i: int| 0 <= i < w.len() ==> #[trigger] w[i] < p
}

/// `post` keeps every entry of `pre` at its place (append-only growth).
pub open spec fn seq_extends<T>(pre: Seq<T>, post: Seq<T>) -> bool {
    pre.len() <= post.len() && (forall|i: int| 0 <= i < pre.len() ==> #[trigger] post[i] == pre[i])
}

impl ConstraintSystem {
    /// Structural well-formedness: a valid modulus, the constant-one input at
    /// index `0`, every witness value reduced, every constraint in range.
    pub open spec fn wf(self) -> bool {
        &&& self.modulus >= 2
        &&& 1 <= self.assignment@.len()
        &&& self.assignment@[0] == 1
        &&& (forall|i: int|
            0 <= i < self.assignment@.len() ==> #[trigger] self.assignment@[i] < self.modulus)
        &&& (forall|i: int|
            0 <= i < self.constraints@.len() ==> constraint_wf(
                #[trigger] self.constraints@[i],
                self.assignment@.len() as int,
            ))
    }

    /// The recorded witness satisfies every recorded constraint.
    pub open spec fn satisfied(self) -> bool {
        forall|i: int|
            0 <= i < self.constraints@.len() ==> constraint_holds(
                self.modulus as int,
                self.assignment@,
                #[trigger] self.constraints@[i],
            )
    }

    /// The variable has been allocated.
    pub open spec fn valid(self, v: Variable) -> bool {
        v.index < self.assignment@.len()
    }

    /// The witness value of a variable.
    pub open spec fn value_of(self, v: Variable) -> u64 {
        self.assignment@[v.index as int]
    }

    /// `self` is `pre` plus appended variables and constraints, over the same
    /// modulus: nothing already allocated moved or changed.
    pub open spec fn extends(self, pre: ConstraintSystem) -> bool {
        &&& self.modulus == pre.modulus
        &&& seq_extends(pre.assignment@, self.assignment@)
        &&& seq_extends(pre.constraints@, self.constraints@)
    }

    /// A fresh system over the given modulus, holding only the constant-one
    /// input.
    pub fn new(modulus: u64) -> (cs: ConstraintSystem)
        requires
            modulus >= 2,
        ensures
            cs.wf(),
            cs.satisfied(),
            cs.modulus == modulus,
            cs.assignment@ =~= seq![1u64],
            cs.constraints@.len() == 0,
    {
        let mut assignment: Vec<u64> = Vec::new();
        assignment.push(1);
        ConstraintSystem { modulus, assignment, constraints: Vec::new() }
    }

    /// Read a variable's witness value.
    pub fn value(&self, v: Variable) -> (r: u64)
        requires
            self.wf(),
            self.valid(v),
        ensures
            r == self.value_of(v),
            r < self.modulus,
    {
        proof {
            assert(self.assignment@[v.index as int] < self.modulus);
        }
        self.assignment[v.index]
    }

    /// Introduce a fresh witness variable holding `value`.
    pub fn allocate(&mut self, value: u64) -> (v: Variable)
        requires
            old(self).wf(),
            value < old(self).modulus,
        ensures
            final(self).wf(),
            final(self).extends(*old(self)),
            final(self).assignment@ == old(self).assignment@.push(value),
            final(self).constraints@ == old(self).constraints@,
            v.index == old(self).assignment@.len(),
            final(self).valid(v),
            final(self).value_of(v) == value,
            final(self).satisfied() <==> old(self).satisfied(),
    {
        let v = Variable { index: self.assignment.len() };
        self.assignment.push(value);
        proof {
            assert forall|i: int| 0 <= i < self.constraints@.len() implies constraint_wf(
                #[trigger] self.constraints@[i],
                self.assignment@.len() as int,
            ) by {
                assert(constraint_wf(self.constraints@[i], old(self).assignment@.len() as int));
            }
            lemma_satisfied_asg_grow(*old(self), *self);
        }
        v
    }

    /// Introduce a fresh boolean witness, together with the constraint
    /// `b * (1 - b) = 0` that forces it to `0` or `1` in every satisfying
    /// witness.
    pub fn allocate_bit(&mut self, value: bool) -> (v: Variable)
        requires
            old(self).wf(),
        ensures
            final(self).wf(),
            final(self).extends(*old(self)),
            final(self).assignment@ == old(self).assignment@.push(
                if value { 1u64 } else { 0u64 },
            ),
            final(self).constraints@.len() == old(self).constraints@.len() + 1,
            final(self).constraints@.last().a@ == seq![(1u64, v.index)],
            final(self).constraints@.last().b@ == seq![
                (1u64, 0usize),
                ((old(self).modulus - 1) as u64, v.index),
            ],
            final(self).constraints@.last().c@.len() == 0,
            v.index == old(self).assignment@.len(),
            final(self).valid(v),
            final(self).value_of(v) == (if value { 1u64 } else { 0u64 }),
            final(self).satisfied() <==> old(self).satisfied(),
            no_zero_divisors(old(self).modulus as int) ==> (forall|w: Seq<u64>|
                assignment_over(w, old(self).modulus as int, final(self).assignment@.len() as int)
                    && #[trigger] range_holds(
                    old(self).modulus as int,
                    w,
                    final(self).constraints@,
                    old(self).constraints@.len() as int,
                    final(self).constraints@.len() as int,
                ) ==> (w[v.index as int] == 0 || w[v.index as int] == 1)),
    {
        let p: u64 = self.modulus;
        let bv: u64 = if value { 1 } else { 0 };
        let v = self.allocate(bv);
        let ghost mid = *self;
        let a_lc: Vec<(u64, usize)> = vec![(1, v.index)];
        let b_lc: Vec<(u64, usize)> = vec![(1, 0), (p - 1, v.index)];
        let c_lc: Vec<(u64, usize)> = vec![];
        proof {
            let pi = p as int;
            let asg = self.assignment@;
            lemma_lc_eval_unit(pi, asg, a_lc@);
            lemma_lc_eval_one_minus(pi, asg, b_lc@);
            assert(lc_eval(pi, asg, c_lc@) == 0);
            // b * (1 - b) is 0 for either bit value
            assert((0int * 1int) % pi == 0) by {
                lemma_small_mod(0nat, pi as nat);
            }
            assert((1int * 0int) % pi == 0) by {
                lemma_small_mod(0nat, pi as nat);
            }
        }
        self.enforce(a_lc, b_lc, c_lc);
        proof {
            assert(constraint_holds(p as int, mid.assignment@, self.constraints@.last()));
            assert(self.constraints@.last().a@ =~= seq![(1u64, v.index)]);
            assert(self.constraints@.last().b@ =~= seq![
                (1u64, 0usize),
                ((p - 1) as u64, v.index),
            ]);
            let pi = p as int;
            let n0 = old(self).constraints@.len() as int;
            assert(self.constraints@[n0] == self.constraints@.last());
            if no_zero_divisors(pi) {
                assert forall|w: Seq<u64>|
                    assignment_over(w, pi, self.assignment@.len() as int) && #[trigger] range_holds(
                        pi,
                        w,
                        self.constraints@,
                        n0,
                        self.constraints@.len() as int,
                    ) implies (w[v.index as int] == 0 || w[v.index as int] == 1) by {
                    assert(constraint_holds(pi, w, self.constraints@[n0]));
                    assert(w[v.index as int] < p);
                    lemma_boolean_constraint_forces_bit(pi, w, self.constraints@[n0], v.index);
                }
            }
        }
        v
    }

    /// Record the constraint `A * B = C`. The constraint is appended whether
    /// or not the current witness satisfies it; satisfaction of the whole
    /// system afterwards is exactly satisfaction before plus satisfaction of
    /// the new constraint.
    pub fn enforce(&mut self, a: Vec<(u64, usize)>, b: Vec<(u64, usize)>, c: Vec<(u64, usize)>)
        requires
            old(self).wf(),
            lc_wf(a@, old(self).assignment@.len() as int),
            lc_wf(b@, old(self).assignment@.len() as int),
            lc_wf(c@, old(self).assignment@.len() as int),
        ensures
            final(self).wf(),
            final(self).extends(*old(self)),
            final(self).modulus == old(self).modulus,
            final(self).assignment@ == old(self).assignment@,
            final(self).constraints@.len() == old(self).constraints@.len() + 1,
            final(self).constraints@.last().a@ == a@,
            final(self).constraints@.last().b@ == b@,
            final(self).constraints@.last().c@ == c@,
            final(self).satisfied() <==> (old(self).satisfied() && constraint_holds(
                old(self).modulus as int,
                old(self).assignment@,
                final(self).constraints@.last(),
            )),
    {
        let con = Constraint { a, b, c };
        self.constraints.push(con);
        proof {
            let n = old(self).constraints@.len() as int;
            assert(self.constraints@ == old(self).constraints@.push(self.constraints@.last()));
            assert forall|i: int| 0 <= i < n implies #[trigger] self.constraints@[i]
                == old(self).constraints@[i] by {}
            if old(self).satisfied() && constraint_holds(
                old(self).modulus as int,
                old(self).assignment@,
                self.constraints@.last(),
            ) {
                assert forall|i: int| 0 <= i < self.constraints@.len() implies constraint_holds(
                    self.modulus as int,
                    self.assignment@,
                    #[trigger] self.constraints@[i],
                ) by {
                    if i < n {
                        assert(constraint_holds(
                            old(self).modulus as int,
                            old(self).assignment@,
                            old(self).constraints@[i],
                        ));
                    }
                }
            }
            if self.satisfied() {
                assert forall|i: int| 0 <= i < n implies constraint_holds(
                    old(self).modulus as int,
                    old(self).assignment@,
                    #[trigger] old(self).constraints@[i],
                ) by {
                    assert(constraint_holds(
                        self.modulus as int,
                        self.assignment@,
                        self.constraints@[i],
                    ));
                }
                assert(constraint_holds(self.modulus as int, self.assignment@, self.constraints@[n]));
            }
        }
    }

    /// Equality-to-zero indicator: a boolean variable that is `1` exactly when
    /// `x` holds `0`, enforced by `x * inv = 1 - b` and `x * b = 0` over a
    /// fresh inverse witness. When `x` is nonzero and no inverse of its value
    /// can be found (impossible for a prime modulus), the system is left
    /// unchanged and the failure is reported.
    pub fn zero_test(&mut self, x: Variable) -> (r: Result<Variable, SynthesisError>)
        requires
            old(self).wf(),
            old(self).valid(x),
        ensures
            match r {
                Ok(b) => {
                    &&& final(self).wf()
                    &&& final(self).extends(*old(self))
                    &&& final(self).assignment@.len() == old(self).assignment@.len() + 2
                    &&& final(self).constraints@.len() == old(self).constraints@.len() + 3
                    &&& final(self).valid(b)
                    &&& final(self).value_of(b) == (if old(self).value_of(x) == 0 {
                        1u64
                    } else {
                        0u64
                    })
                    &&& (final(self).satisfied() <==> old(self).satisfied())
                    &&& (no_zero_divisors(old(self).modulus as int) ==> (forall|w: Seq<u64>|
                        assignment_over(
                            w,
                            old(self).modulus as int,
                            final(self).assignment@.len() as int,
                        ) && #[trigger] range_holds(
                            old(self).modulus as int,
                            w,
                            final(self).constraints@,
                            old(self).constraints@.len() as int,
                            final(self).constraints@.len() as int,
                        ) ==> w[b.index as int] == (if w[x.index as int] == 0 {
                            1u64
                        } else {
                            0u64
                        })))
                },
                Err(_) => {
                    &&& final(self).modulus == old(self).modulus
                    &&& final(self).assignment@ == old(self).assignment@
                    &&& final(self).constraints@ == old(self).constraints@
                    &&& old(self).value_of(x) != 0
                },
            },
            old(self).value_of(x) == 0 ==> r is Ok,
            no_zero_divisors(old(self).modulus as int) ==> r is Ok,
    {
        let p: u64 = self.modulus;
        let xv: u64 = self.value(x);
        let is_zero: bool = xv == 0;
        let invv: u64 = if is_zero {
            0
        } else {
            match fe_inverse(p, xv) {
                Some(i) => i,
                None => {
                    return Err(SynthesisError::DivisionByZero);
                },
            }
        };
        let ghost n0 = self.constraints@.len() as int;
        let b = self.allocate_bit(is_zero);
        let ghost cbool = self.constraints@.last();
        let inv = self.allocate(invv);
        let ghost mid = *self;
        let ghost pi = p as int;
        let ghost asg = mid.assignment@;
        let ghost bv: u64 = if is_zero { 1u64 } else { 0u64 };
        proof {
            assert(self.constraints@[n0] == cbool);
        }
        // x * inv = 1 - b
        let a1: Vec<(u64, usize)> = vec![(1, x.index)];
        let b1: Vec<(u64, usize)> = vec![(1, inv.index)];
        let c1: Vec<(u64, usize)> = vec![(1, 0), (p - 1, b.index)];
        let ghost a1v = a1@;
        let ghost b1v = b1@;
        let ghost c1v = c1@;
        proof {
            assert(asg[x.index as int] == old(self).value_of(x));
            lemma_lc_eval_unit(pi, asg, a1@);
            lemma_lc_eval_unit(pi, asg, b1@);
            lemma_lc_eval_one_minus(pi, asg, c1@);
            if is_zero {
                assert((0int * 0int) % pi == 0) by {
                    lemma_small_mod(0nat, pi as nat);
                }
            } else {
                assert(mul_mod(pi, xv as int, invv as int) == 1);
            }
        }
        self.enforce(a1, b1, c1);
        proof {
            assert(constraint_holds(pi, asg, self.constraints@.last()));
        }
        // x * b = 0
        let a2: Vec<(u64, usize)> = vec![(1, x.index)];
        let b2: Vec<(u64, usize)> = vec![(1, b.index)];
        let c2: Vec<(u64, usize)> = vec![];
        let ghost a2v = a2@;
        let ghost b2v = b2@;
        let ghost c2v = c2@;
        proof {
            lemma_lc_eval_unit(pi, asg, a2@);
            lemma_lc_eval_unit(pi, asg, b2@);
            assert((xv as int * bv as int) % pi == 0) by {
                if is_zero {
                    assert(xv as int * bv as int == 0);
                } else {
                    assert(xv as int * bv as int == 0);
                }
                lemma_small_mod(0nat, pi as nat);
            }
        }
        self.enforce(a2, b2, c2);
        proof {
            assert(constraint_holds(pi, asg, self.constraints@.last()));
            // identify the three appended constraints
            assert(self.constraints@[n0] == cbool);
            assert(self.constraints@[n0 + 1].a@ == a1v);
            assert(self.constraints@[n0 + 1].b@ == b1v);
            assert(self.constraints@[n0 + 1].c@ == c1v);
            assert(self.constraints@[n0 + 2].a@ == a2v);
            assert(self.constraints@[n0 + 2].b@ == b2v);
            assert(self.constraints@[n0 + 2].c@ == c2v);
            if no_zero_divisors(pi) {
                assert forall|w: Seq<u64>|
                    assignment_over(w, pi, self.assignment@.len() as int) && #[trigger] range_holds(
                        pi,
                        w,
                        self.constraints@,
                        n0,
                        self.constraints@.len() as int,
                    ) implies w[b.index as int] == (if w[x.index as int] == 0 {
                    1u64
                } else {
                    0u64
                }) by {
                    assert(constraint_holds(pi, w, self.constraints@[n0]));
                    assert(constraint_holds(pi, w, self.constraints@[n0 + 1]));
                    assert(constraint_holds(pi, w, self.constraints@[n0 + 2]));
                    assert(w[b.index as int] < p);
                    assert(w[x.index as int] < p);
                    assert(w[inv.index as int] < p);
                    lemma_boolean_constraint_forces_bit(pi, w, self.constraints@[n0], b.index);
                    let wx = w[x.index as int] as int;
                    let wi = w[inv.index as int] as int;
                    let wb = w[b.index as int] as int;
                    lemma_lc_eval_unit(pi, w, a1v);
                    lemma_lc_eval_unit(pi, w, b1v);
                    lemma_lc_eval_one_minus(pi, w, c1v);
                    lemma_lc_eval_unit(pi, w, a2v);
                    lemma_lc_eval_unit(pi, w, b2v);
                    assert(lc_eval(pi, w, c2v) == 0);
                    if wx == 0 {
                        assert(wx * wi == 0) by (nonlinear_arith)
                            requires wx == 0;
                        lemma_small_mod(0nat, pi as nat);
                        assert(1 - wb == 0);
                    } else {
                        if wb == 1 {
                            assert((wx * wb) % pi != 0);
                            assert(false);
                        }
                    }
                }
            }
        }
        Ok(b)
    }

    /// Two-way conditional output: a fresh variable equal to `if_true` when
    /// the boolean `cond` is `1`, else to `if_false`, enforced by
    /// `(if_true - if_false) * cond = r - if_false`.
    pub fn pick(&mut self, cond: Variable, if_true: Variable, if_false: Variable) -> (r: Variable)
        requires
            old(self).wf(),
            old(self).valid(cond),
            old(self).valid(if_true),
            old(self).valid(if_false),
            old(self).value_of(cond) == 0 || old(self).value_of(cond) == 1,
        ensures
            final(self).wf(),
            final(self).extends(*old(self)),
            final(self).assignment@.len() == old(self).assignment@.len() + 1,
            final(self).constraints@.len() == old(self).constraints@.len() + 1,
            final(self).valid(r),
            final(self).value_of(r) == (if old(self).value_of(cond) == 1 {
                old(self).value_of(if_true)
            } else {
                old(self).value_of(if_false)
            }),
            final(self).satisfied() <==> old(self).satisfied(),
            forall|w: Seq<u64>|
                (assignment_over(w, old(self).modulus as int, final(self).assignment@.len() as int)
                    && (w[cond.index as int] == 0 || w[cond.index as int] == 1)
                    && #[trigger] range_holds(
                    old(self).modulus as int,
                    w,
                    final(self).constraints@,
                    old(self).constraints@.len() as int,
                    final(self).constraints@.len() as int,
                )) ==> w[r.index as int] == (if w[cond.index as int] == 1 {
                    w[if_true.index as int]
                } else {
                    w[if_false.index as int]
                }),
    {
        let p: u64 = self.modulus;
        let cv: u64 = self.value(cond);
        let tv: u64 = self.value(if_true);
        let fv: u64 = self.value(if_false);
        let rv: u64 = if cv == 1 { tv } else { fv };
        let r = self.allocate(rv);
        let ghost mid = *self;
        let ghost pi = p as int;
        let ghost asg = mid.assignment@;
        let ghost n0 = old(self).constraints@.len() as int;
        let a_lc: Vec<(u64, usize)> = vec![(1, if_true.index), (p - 1, if_false.index)];
        let b_lc: Vec<(u64, usize)> = vec![(1, cond.index)];
        let c_lc: Vec<(u64, usize)> = vec![(1, r.index), (p - 1, if_false.index)];
        let ghost av = a_lc@;
        let ghost bvw = b_lc@;
        let ghost cvw = c_lc@;
        proof {
            lemma_lc_eval_diff(pi, asg, a_lc@);
            lemma_lc_eval_unit(pi, asg, b_lc@);
            lemma_lc_eval_diff(pi, asg, c_lc@);
            let d = (tv as int - fv as int) % pi;
            if cv == 1 {
                assert(d * 1int == d);
                lemma_mod_twice(tv as int - fv as int, pi);
            } else {
                assert(d * 0int == 0);
                lemma_small_mod(0nat, pi as nat);
                assert(lc_eval(pi, asg, c_lc@) == (fv as int - fv as int) % pi);
            }
        }
        self.enforce(a_lc, b_lc, c_lc);
        proof {
            assert(constraint_holds(pi, asg, self.constraints@.last()));
            assert(self.constraints@[n0].a@ == av);
            assert(self.constraints@[n0].b@ == bvw);
            assert(self.constraints@[n0].c@ == cvw);
            assert forall|w: Seq<u64>|
                (assignment_over(w, pi, self.assignment@.len() as int) && (w[cond.index as int]
                    == 0 || w[cond.index as int] == 1) && #[trigger] range_holds(
                    pi,
                    w,
                    self.constraints@,
                    n0,
                    self.constraints@.len() as int,
                )) implies w[r.index as int] == (if w[cond.index as int] == 1 {
                w[if_true.index as int]
            } else {
                w[if_false.index as int]
            }) by {
                assert(constraint_holds(pi, w, self.constraints@[n0]));
                assert(w[if_true.index as int] < p);
                assert(w[if_false.index as int] < p);
                assert(w[r.index as int] < p);
                lemma_lc_eval_diff(pi, w, av);
                lemma_lc_eval_unit(pi, w, bvw);
                lemma_lc_eval_diff(pi, w, cvw);
                let wt = w[if_true.index as int] as int;
                let wf_ = w[if_false.index as int] as int;
                let wc = w[cond.index as int] as int;
                let wr = w[r.index as int] as int;
                if wc == 1 {
                    assert(((wt - wf_) % pi) * wc == (wt - wf_) % pi) by (nonlinear_arith)
                        requires wc == 1;
                    lemma_mod_twice(wt - wf_, pi);
                    lemma_mod_equivalence(wt - wf_, wr - wf_, pi);
                    lemma_sub_mod_zero_iff(pi, wt, wr);
                    assert(wr == wt);
                } else {
                    assert(((wt - wf_) % pi) * wc == 0) by (nonlinear_arith)
                        requires wc == 0;
                    lemma_small_mod(0nat, pi as nat);
                    lemma_sub_mod_zero_iff(pi, wr, wf_);
                    assert(wr == wf_);
                }
            }
        }
        r
    }

    /// Evaluate a linear combination against the recorded witness.
    pub fn lc_value(&self, lc: &Vec<(u64, usize)>) -> (r: u64)
        requires
            self.wf(),
            lc_wf(lc@, self.assignment@.len() as int),
        ensures
            r as int == lc_eval(self.modulus as int, self.assignment@, lc@),
            r < self.modulus,
    {
        let p: u64 = self.modulus;
        let mut acc: u64 = 0;
        proof {
            assert(lc@.subrange(0, 0int).len() == 0);
        }
        let mut i: usize = 0;
        while i < lc.len()
            invariant
                self.wf(),
                self.modulus == p,
                lc_wf(lc@, self.assignment@.len() as int),
                i <= lc@.len(),
                acc < p,
                acc as int == lc_eval(p as int, self.assignment@, lc@.subrange(0, i as int)),
            decreases lc@.len() - i,
        {
            let (coeff, var): (u64, usize) = lc[i];
            proof {
                assert((lc@[i as int]).1 < self.assignment@.len());
            }
            let vv: u64 = self.assignment[var];
            proof {
                lemma_mul_upper_bound(coeff as int, u64::MAX as int, vv as int, u64::MAX as int);
            }
            let t: u128 = (acc as u128) + (coeff as u128) * (vv as u128);
            let m: u128 = t % (p as u128);
            proof {
                lemma_mod_bound(t as int, p as int);
                let sub = lc@.subrange(0, i as int + 1);
                assert(sub.drop_last() =~= lc@.subrange(0, i as int));
                assert(sub.last() == lc@[i as int]);
            }
            acc = m as u64;
            i += 1;
        }
        proof {
            assert(lc@.subrange(0, lc@.len() as int) =~= lc@);
        }
        acc
    }

    /// Check every recorded constraint against the recorded witness.
    pub fn is_satisfied(&self) -> (r: bool)
        requires
            self.wf(),
        ensures
            r == self.satisfied(),
    {
        let p: u64 = self.modulus;
        let mut ok: bool = true;
        let mut i: usize = 0;
        while i < self.constraints.len()
            invariant
                self.wf(),
                self.modulus == p,
                i <= self.constraints@.len(),
                ok == (forall|j: int|
                    0 <= j < i ==> constraint_holds(
                        p as int,
                        self.assignment@,
                        #[trigger] self.constraints@[j],
                    )),
            decreases self.constraints@.len() - i,
        {
            let con: &Constraint = &self.constraints[i];
            proof {
                assert(constraint_wf(
                    self.constraints@[i as int],
                    self.assignment@.len() as int,
                ));
            }
            let av: u64 = self.lc_value(&con.a);
            let bv: u64 = self.lc_value(&con.b);
            let cv: u64 = self.lc_value(&con.c);
            proof {
                lemma_mul_upper_bound(av as int, u64::MAX as int, bv as int, u64::MAX as int);
                lemma_mod_bound((av as int) * (bv as int), p as int);
            }
            let prod: u128 = ((av as u128) * (bv as u128)) % (p as u128);
            let holds_here: bool = prod == (cv as u128);
            proof {
                assert(holds_here == constraint_holds(
                    p as int,
                    self.assignment@,
                    self.constraints@[i as int],
                ));
            }
            let ghost old_ok = ok;
            ok = ok && holds_here;
            proof {
                if ok {
                    assert forall|j: int| 0 <= j < i + 1 implies constraint_holds(
                        p as int,
                        self.assignment@,
                        #[trigger] self.constraints@[j],
                    ) by {}
                } else {
                    if !old_ok {
                        assert(!(forall|j: int|
                            0 <= j < i ==> constraint_holds(
                                p as int,
                                self.assignment@,
                                #[trigger] self.constraints@[j],
                            )));
                    }
                }
            }
            i += 1;
        }
        ok
    }
}

/// Evaluation of a linear combination does not change when the assignment
/// grows, as long as the combination only mentions existing variables.
pub proof fn lemma_lc_eval_extends(p: int, pre: Seq<u64>, post: Seq<u64>, lc: Seq<(u64, usize)>)
    requires
        seq_extends(pre, post),
        lc_wf(lc, pre.len() as int),
    ensures
        lc_eval(p, post, lc) == lc_eval(p, pre, lc),
    decreases lc.len(),
{
    if lc.len() > 0 {
        assert forall|i: int| 0 <= i < lc.drop_last().len() implies (#[trigger] lc.drop_last()[i]).1
            < pre.len() by {
            assert(lc.drop_last()[i] == lc[i]);
        }
        lemma_lc_eval_extends(p, pre, post, lc.drop_last());
        assert((lc[lc.len() - 1]).1 < pre.len());
        assert(post[lc.last().1 as int] == pre[lc.last().1 as int]);
    }
}

/// Whether a constraint holds does not change when the assignment grows.
pub proof fn lemma_constraint_holds_extends(
    p: int,
    pre: Seq<u64>,
    post: Seq<u64>,
    c: Constraint,
)
    requires
        seq_extends(pre, post),
        constraint_wf(c, pre.len() as int),
    ensures
        constraint_holds(p, post, c) == constraint_holds(p, pre, c),
{
    lemma_lc_eval_extends(p, pre, post, c.a@);
    lemma_lc_eval_extends(p, pre, post, c.b@);
    lemma_lc_eval_extends(p, pre, post, c.c@);
}

/// Satisfaction of the whole system is unchanged by allocating variables.
pub proof fn lemma_satisfied_asg_grow(pre: ConstraintSystem, post: ConstraintSystem)
    requires
        pre.wf(),
        post.modulus == pre.modulus,
        post.constraints@ == pre.constraints@,
        seq_extends(pre.assignment@, post.assignment@),
    ensures
        post.satisfied() <==> pre.satisfied(),
{
    assert forall|i: int| 0 <= i < pre.constraints@.len() implies (constraint_holds(
        pre.modulus as int,
        post.assignment@,
        #[trigger] pre.constraints@[i],
    ) <==> constraint_holds(pre.modulus as int, pre.assignment@, pre.constraints@[i])) by {
        assert(constraint_wf(pre.constraints@[i], pre.assignment@.len() as int));
        lemma_constraint_holds_extends(
            pre.modulus as int,
            pre.assignment@,
            post.assignment@,
            pre.constraints@[i],
        );
    }
}

/// Unfolding of `lc_eval` for a single term.
pub proof fn lemma_lc_eval1(p: int, asg: Seq<u64>, lc: Seq<(u64, usize)>)
    requires
        lc.len() == 1,
    ensures
        lc_eval(p, asg, lc) == (lc[0].0 * asg[lc[0].1 as int]) % p,
{
    assert(lc.drop_last().len() == 0);
    assert(lc_eval(p, asg, lc.drop_last()) == 0);
    assert(lc.last() == lc[0]);
}

/// Unfolding of `lc_eval` for two terms.
pub proof fn lemma_lc_eval2(p: int, asg: Seq<u64>, lc: Seq<(u64, usize)>)
    requires
        lc.len() == 2,
    ensures
        lc_eval(p, asg, lc) == ((lc[0].0 * asg[lc[0].1 as int]) % p + lc[1].0 * asg[lc[1].1
            as int]) % p,
{
    lemma_lc_eval1(p, asg, lc.drop_last());
    assert(lc.drop_last()[0] == lc[0]);
}

/// A unit-coefficient term evaluates to the variable's value.
pub proof fn lemma_lc_eval_unit(p: int, asg: Seq<u64>, lc: Seq<(u64, usize)>)
    requires
        p >= 2,
        lc.len() == 1,
        lc[0].0 == 1,
        lc[0].1 < asg.len(),
        asg[lc[0].1 as int] < p,
    ensures
        lc_eval(p, asg, lc) == asg[lc[0].1 as int],
{
    lemma_lc_eval1(p, asg, lc);
    assert(1 * asg[lc[0].1 as int] == asg[lc[0].1 as int]);
    lemma_small_mod(asg[lc[0].1 as int] as nat, p as nat);
}

/// `[(1, 0), (p - 1, b)]` evaluates to the bit complement `1 - b`.
pub proof fn lemma_lc_eval_one_minus(p: int, asg: Seq<u64>, lc: Seq<(u64, usize)>)
    requires
        p >= 2,
        lc.len() == 2,
        lc[0] == (1u64, 0usize),
        lc[1].0 == p - 1,
        lc[1].1 < asg.len(),
        asg.len() >= 1,
        asg[0] == 1,
        asg[lc[1].1 as int] == 0 || asg[lc[1].1 as int] == 1,
    ensures
        lc_eval(p, asg, lc) == 1 - asg[lc[1].1 as int],
{
    lemma_lc_eval2(p, asg, lc);
    lemma_small_mod(1nat, p as nat);
    assert(1 * asg[0int] == 1);
    lemma_one_minus_bit(p, asg[lc[1].1 as int] as int);
}

/// `[(1, t), (p - 1, f)]` evaluates to the difference residue `(t - f) % p`.
pub proof fn lemma_lc_eval_diff(p: int, asg: Seq<u64>, lc: Seq<(u64, usize)>)
    requires
        p >= 2,
        lc.len() == 2,
        lc[0].0 == 1,
        lc[0].1 < asg.len(),
        lc[1].0 == p - 1,
        lc[1].1 < asg.len(),
        asg[lc[0].1 as int] < p,
    ensures
        lc_eval(p, asg, lc) == (asg[lc[0].1 as int] - asg[lc[1].1 as int]) % p,
{
    lemma_lc_eval2(p, asg, lc);
    let tv = asg[lc[0].1 as int] as int;
    let fv = asg[lc[1].1 as int] as int;
    assert(1 * tv == tv);
    lemma_small_mod(tv as nat, p as nat);
    lemma_neg_coeff(p, tv, fv);
}

/// `[(k, 0), (p - 1, s)]` evaluates to the difference residue `(k - s) % p`.
pub proof fn lemma_lc_eval_const_minus(p: int, asg: Seq<u64>, lc: Seq<(u64, usize)>)
    requires
        p >= 2,
        lc.len() == 2,
        lc[0].1 == 0,
        lc[0].0 < p,
        lc[1].0 == p - 1,
        lc[1].1 < asg.len(),
        asg.len() >= 1,
        asg[0] == 1,
    ensures
        lc_eval(p, asg, lc) == (lc[0].0 - asg[lc[1].1 as int]) % p,
{
    lemma_lc_eval2(p, asg, lc);
    let k = lc[0].0 as int;
    let sv = asg[lc[1].1 as int] as int;
    assert(k * asg[0int] == k);
    lemma_small_mod(k as nat, p as nat);
    lemma_neg_coeff(p, k, sv);
}

} // verus!
