//! The multiplexer ("case/switch") gadget.
//!
//! Given a selector variable, an ordered list of (key, value) clauses and a
//! default variable, `case` appends constraints whose output variable carries
//! the value of the clause whose key equals the selector, or the default when
//! no key matches. `multi_case` runs one independent multiplexer per channel
//! over a shared selector.
//!
//! Match detection folds the per-clause equality checks into one accumulator
//! product of `(key_i - selector)` factors, tested for zero once; this is
//! correct only over a modulus with no zero divisors. One boolean indicator
//! per clause is then forced to form a one-hot vector selecting the active
//! clause, and the output is the dot product of that vector with the clause
//! values, fed into a final default/result select.

use vstd::prelude::*;

verus! {

use crate::field::fe_add;
use crate::field::fe_mul;
use crate::field::fe_sub;
use crate::field::lemma_sub_mod_zero_iff;
use crate::field::no_zero_divisors;
use crate::field::sub_mod;
use crate::laws::lemma_boolean_constraint_forces_bit;
use crate::laws::lemma_lc_eval_unit_sum;
use crate::laws::lemma_lc_eval_weighted_sum;
use crate::laws::lemma_weighted_sum_mod_bounds;
use crate::laws::lemma_weighted_sum_one_hot;
use crate::laws::lemma_ones_le_len;
use crate::laws::lemma_ones_unique;
use crate::laws::lemma_sum_mod_ones;
use crate::laws::ones_count;
use crate::laws::sum_mod;
use crate::laws::weighted_sum_mod;
use crate::r1cs::assignment_over;
use crate::r1cs::range_holds;
use crate::r1cs::lc_eval;
use crate::r1cs::lc_wf;
use crate::r1cs::lemma_lc_eval_const_minus;
use crate::r1cs::lemma_lc_eval_extends;
use crate::r1cs::lemma_lc_eval_unit;
use crate::r1cs::constraint_holds;
use vstd::arithmetic::div_mod::lemma_mod_twice;
use crate::r1cs::ConstraintSystem;
use crate::r1cs::SynthesisError;
use crate::r1cs::Variable;
use vstd::arithmetic::div_mod::lemma_add_mod_noop_right;
use vstd::arithmetic::div_mod::lemma_mod_bound;
use vstd::arithmetic::div_mod::lemma_small_mod;

/// One clause of a multiplexer: a constant key and the variable holding the
/// value returned when the selector equals that key.
#[derive(Clone, Copy, Debug, PartialEq, Eq, Structural)]
pub struct CaseClause {
    pub key: u64,
    pub value: Variable,
}

/// The selection sub-gadget: an active-key variable and the clauses it is
/// matched against.
pub struct CaseConstraint {
    pub selected: Variable,
    pub clauses: Vec<CaseClause>,
}

/// Some clause key equals the selector value.
pub open spec fn matches_key(clauses: Seq<CaseClause>, s: u64) -> bool {
    exists|i: int| 0 <= i < clauses.len() && (#[trigger] clauses[i]).key == s
}

/// How many clause keys equal the selector value.
pub open spec fn key_count(clauses: Seq<CaseClause>, s: u64) -> nat
    decreases clauses.len(),
{
    if clauses.len() == 0 {
        0
    } else {
        key_count(clauses.drop_last(), s) + (if clauses.last().key == s {
            1nat
        } else {
            0nat
        })
    }
}

/// The running accumulator of the match detector: the product of the factors
/// `(key_i - s)`, reduced at every step.
pub open spec fn acc_product(p: int, clauses: Seq<CaseClause>, s: u64) -> int
    decreases clauses.len(),
{
    if clauses.len() == 0 {
        1
    } else {
        (acc_product(p, clauses.drop_last(), s) * sub_mod(
            p,
            clauses.last().key as int,
            s as int,
        )) % p
    }
}

/// Dot product of a vector of bit variables with a vector of value variables,
/// reduced at every step.
pub open spec fn dot_values(p: int, asg: Seq<u64>, bits: Seq<Variable>, vals: Seq<Variable>) -> int
    decreases bits.len(),
{
    if bits.len() == 0 {
        0
    } else {
        (dot_values(p, asg, bits.drop_last(), vals.drop_last()) + asg[bits.last().index as int]
            * asg[vals.last().index as int]) % p
    }
}

/// Appending a clause matches exactly when the old list matched or the new
/// clause's key is the selector.
pub proof fn lemma_matches_push(pre: Seq<CaseClause>, c: CaseClause, s: u64)
    ensures
        matches_key(pre.push(c), s) <==> (matches_key(pre, s) || c.key == s),
{
    if matches_key(pre, s) {
        let i = choose|i: int| 0 <= i < pre.len() && (#[trigger] pre[i]).key == s;
        assert((pre.push(c)[i]).key == s);
    }
    if c.key == s {
        assert((pre.push(c)[pre.len() as int]).key == s);
    }
    if matches_key(pre.push(c), s) && c.key != s {
        let i = choose|i: int|
            0 <= i < pre.push(c).len() && (#[trigger] pre.push(c)[i]).key == s;
        if i < pre.len() {
            assert(pre[i].key == s);
        }
    }
}

/// No clause key equals the selector exactly when the count is zero.
pub proof fn lemma_key_count_zero(clauses: Seq<CaseClause>, s: u64)
    ensures
        (key_count(clauses, s) == 0) <==> !matches_key(clauses, s),
    decreases clauses.len(),
{
    if clauses.len() == 0 {
        assert(!matches_key(clauses, s));
    } else {
        lemma_key_count_zero(clauses.drop_last(), s);
        assert(clauses.drop_last().push(clauses.last()) =~= clauses);
        lemma_matches_push(clauses.drop_last(), clauses.last(), s);
    }
}

/// The accumulator product stays a residue.
pub proof fn lemma_acc_product_bounds(p: int, clauses: Seq<CaseClause>, s: u64)
    requires
        p >= 2,
    ensures
        0 <= acc_product(p, clauses, s) < p,
    decreases clauses.len(),
{
    if clauses.len() == 0 {
        assert(acc_product(p, clauses, s) == 1);
    } else {
        lemma_acc_product_bounds(p, clauses.drop_last(), s);
        lemma_mod_bound(
            acc_product(p, clauses.drop_last(), s) * sub_mod(p, clauses.last().key as int, s as int),
            p,
        );
    }
}

/// If the selector equals some clause key, the accumulator product vanishes.
pub proof fn lemma_acc_product_zero(p: int, clauses: Seq<CaseClause>, s: u64)
    requires
        p >= 2,
        s < p,
        forall|i: int| 0 <= i < clauses.len() ==> (#[trigger] clauses[i]).key < p,
        matches_key(clauses, s),
    ensures
        acc_product(p, clauses, s) == 0,
    decreases clauses.len(),
{
    assert(clauses.len() > 0);
    let pre = clauses.drop_last();
    let c = clauses.last();
    lemma_sub_mod_zero_iff(p, c.key as int, s as int);
    if c.key == s {
        assert(acc_product(p, pre, s) * 0 == 0);
        lemma_small_mod(0nat, p as nat);
    } else {
        assert(pre.push(c) =~= clauses);
        lemma_matches_push(pre, c, s);
        lemma_acc_product_zero(p, pre, s);
        assert(0 * sub_mod(p, c.key as int, s as int) == 0);
        lemma_small_mod(0nat, p as nat);
    }
}

/// If the selector matches no clause key and the modulus has no zero
/// divisors, the accumulator product stays nonzero.
pub proof fn lemma_acc_product_nonzero(p: int, clauses: Seq<CaseClause>, s: u64)
    requires
        p >= 2,
        no_zero_divisors(p),
        s < p,
        forall|i: int| 0 <= i < clauses.len() ==> (#[trigger] clauses[i]).key < p,
        !matches_key(clauses, s),
    ensures
        acc_product(p, clauses, s) != 0,
    decreases clauses.len(),
{
    if clauses.len() > 0 {
        let pre = clauses.drop_last();
        let c = clauses.last();
        assert(pre.push(c) =~= clauses);
        lemma_matches_push(pre, c, s);
        lemma_acc_product_nonzero(p, pre, s);
        lemma_acc_product_bounds(p, pre, s);
        lemma_sub_mod_zero_iff(p, c.key as int, s as int);
        assert((acc_product(p, pre, s) * sub_mod(p, c.key as int, s as int)) % p != 0);
    }
}

/// With exactly one matching clause, any two matching indices coincide.
pub proof fn lemma_key_count_unique(clauses: Seq<CaseClause>, s: u64)
    requires
        key_count(clauses, s) == 1,
    ensures
        forall|i: int, j: int|
            0 <= i < clauses.len() && 0 <= j < clauses.len() && (#[trigger] clauses[i]).key == s
                && (#[trigger] clauses[j]).key == s ==> i == j,
    decreases clauses.len(),
{
    let m = clauses.len() - 1;
    if clauses.last().key == s {
        assert(key_count(clauses.drop_last(), s) == 0);
        lemma_key_count_zero(clauses.drop_last(), s);
        assert forall|i: int, j: int|
            0 <= i < clauses.len() && 0 <= j < clauses.len() && (#[trigger] clauses[i]).key == s
                && (#[trigger] clauses[j]).key == s implies i == j by {
            if i < m {
                assert(clauses.drop_last()[i] == clauses[i]);
                assert(matches_key(clauses.drop_last(), s));
            }
            if j < m {
                assert(clauses.drop_last()[j] == clauses[j]);
                assert(matches_key(clauses.drop_last(), s));
            }
        }
    } else {
        lemma_key_count_unique(clauses.drop_last(), s);
        assert forall|i: int, j: int|
            0 <= i < clauses.len() && 0 <= j < clauses.len() && (#[trigger] clauses[i]).key == s
                && (#[trigger] clauses[j]).key == s implies i == j by {
            assert(i < m);
            assert(j < m);
            assert(clauses.drop_last()[i] == clauses[i]);
            assert(clauses.drop_last()[j] == clauses[j]);
        }
    }
}

/// The dot product over all-zero indicator variables is zero.
pub proof fn lemma_dot_zero_bits(p: int, asg: Seq<u64>, bits: Seq<Variable>, vals: Seq<Variable>)
    requires
        p >= 2,
        bits.len() == vals.len(),
        forall|k: int| 0 <= k < bits.len() ==> asg[(#[trigger] bits[k]).index as int] == 0,
    ensures
        dot_values(p, asg, bits, vals) == 0,
    decreases bits.len(),
{
    if bits.len() > 0 {
        assert forall|k: int|
            0 <= k < bits.drop_last().len() implies asg[(#[trigger] bits.drop_last()[k]).index
            as int] == 0 by {
            assert(bits.drop_last()[k] == bits[k]);
        }
        lemma_dot_zero_bits(p, asg, bits.drop_last(), vals.drop_last());
        let bv = asg[bits.last().index as int] as int;
        let vv = asg[vals.last().index as int] as int;
        assert(bv * vv == 0) by (nonlinear_arith)
            requires bv == 0;
        lemma_small_mod(0nat, p as nat);
    }
}

/// The dot product over indicator variables that are one-hot at `j` is the
/// value variable at `j`.
pub proof fn lemma_dot_one_hot(
    p: int,
    asg: Seq<u64>,
    bits: Seq<Variable>,
    vals: Seq<Variable>,
    j: int,
)
    requires
        p >= 2,
        bits.len() == vals.len(),
        0 <= j < bits.len(),
        forall|k: int|
            0 <= k < bits.len() ==> asg[(#[trigger] bits[k]).index as int] == (if k == j {
                1u64
            } else {
                0u64
            }),
        forall|k: int| 0 <= k < vals.len() ==> asg[(#[trigger] vals[k]).index as int] < p,
    ensures
        dot_values(p, asg, bits, vals) == asg[vals[j].index as int],
    decreases bits.len(),
{
    let m = bits.len() - 1;
    let bv = asg[bits.last().index as int] as int;
    let vv = asg[vals.last().index as int] as int;
    if j == m {
        assert forall|k: int|
            0 <= k < bits.drop_last().len() implies asg[(#[trigger] bits.drop_last()[k]).index
            as int] == 0 by {
            assert(bits.drop_last()[k] == bits[k]);
        }
        lemma_dot_zero_bits(p, asg, bits.drop_last(), vals.drop_last());
        assert(bv == 1);
        assert(bv * vv == vv) by (nonlinear_arith)
            requires bv == 1;
        lemma_small_mod(vv as nat, p as nat);
    } else {
        assert forall|k: int|
            0 <= k < bits.drop_last().len() implies asg[(#[trigger] bits.drop_last()[k]).index
            as int] == (if k == j {
            1u64
        } else {
            0u64
        }) by {
            assert(bits.drop_last()[k] == bits[k]);
        }
        assert forall|k: int|
            0 <= k < vals.drop_last().len() implies asg[(#[trigger] vals.drop_last()[k]).index
            as int] < p by {
            assert(vals.drop_last()[k] == vals[k]);
        }
        lemma_dot_one_hot(p, asg, bits.drop_last(), vals.drop_last(), j);
        assert(vals.drop_last()[j] == vals[j]);
        assert(bv == 0);
        assert(bv * vv == 0) by (nonlinear_arith)
            requires bv == 0;
        lemma_small_mod(asg[vals[j].index as int] as nat, p as nat);
    }
}


/// The dot product of bit and value variables is the weighted sum of the
/// values' residues against the bits' residues, under any assignment.
pub proof fn lemma_dot_values_is_weighted(p: int, w: Seq<u64>, bits: Seq<Variable>, vals: Seq<Variable>)
    requires
        bits.len() == vals.len(),
    ensures
        dot_values(p, w, bits, vals) == weighted_sum_mod(
            p,
            vals.map_values(|v: Variable| w[v.index as int]),
            bits.map_values(|v: Variable| w[v.index as int]),
        ),
    decreases bits.len(),
{
    let f = |v: Variable| w[v.index as int];
    if bits.len() == 0 {
        assert(bits.map_values(f).len() == 0);
    } else {
        lemma_dot_values_is_weighted(p, w, bits.drop_last(), vals.drop_last());
        assert(bits.drop_last().map_values(f) =~= bits.map_values(f).drop_last());
        assert(vals.drop_last().map_values(f) =~= vals.map_values(f).drop_last());
        assert(bits.map_values(f).last() == w[bits.last().index as int]);
        assert(vals.map_values(f).last() == w[vals.last().index as int]);
        assert(w[bits.last().index as int] as int * w[vals.last().index as int] as int
            == w[vals.last().index as int] as int * w[bits.last().index as int] as int)
            by (nonlinear_arith);
    }
}

/// Folding the per-entry reduced products gives the dot product.
pub proof fn lemma_dot_values_from_products(
    p: int,
    w: Seq<u64>,
    bits: Seq<Variable>,
    vals: Seq<Variable>,
    products: Seq<u64>,
)
    requires
        p >= 2,
        bits.len() == vals.len(),
        products.len() == bits.len(),
        forall|k: int|
            0 <= k < products.len() ==> (#[trigger] products[k]) as int == (w[bits[k].index
                as int] * w[vals[k].index as int]) % p,
    ensures
        sum_mod(p, products) == dot_values(p, w, bits, vals),
    decreases bits.len(),
{
    if bits.len() > 0 {
        assert forall|k: int|
            0 <= k < products.drop_last().len() implies (#[trigger] products.drop_last()[k])
            as int == (w[bits.drop_last()[k].index as int] * w[vals.drop_last()[k].index
            as int]) % p by {
            assert(products.drop_last()[k] == products[k]);
            assert(bits.drop_last()[k] == bits[k]);
            assert(vals.drop_last()[k] == vals[k]);
        }
        lemma_dot_values_from_products(p, w, bits.drop_last(), vals.drop_last(), products.drop_last());
        lemma_add_mod_noop_right(
            sum_mod(p, products.drop_last()),
            w[bits.last().index as int] as int * w[vals.last().index as int] as int,
            p,
        );
        assert(products.last() as int == (w[bits.last().index as int] * w[vals.last().index
            as int]) % p);
    }
}


/// An accumulator chain whose steps multiply by the key-minus-selector
/// factors evaluates, at its end, to the accumulator product.
pub proof fn lemma_acc_chain(p: int, w: Seq<u64>, clauses: Seq<CaseClause>, a0: int, s: u64)
    requires
        p >= 2,
        w[a0] as int == 1,
        forall|k: int|
            0 <= k < clauses.len() ==> (w[a0 + k] * sub_mod(
                p,
                (#[trigger] clauses[k]).key as int,
                s as int,
            )) % p == w[a0 + k + 1],
    ensures
        w[a0 + clauses.len()] as int == acc_product(p, clauses, s),
    decreases clauses.len(),
{
    if clauses.len() > 0 {
        assert forall|k: int|
            0 <= k < clauses.drop_last().len() implies (w[a0 + k] * sub_mod(
                p,
                (#[trigger] clauses.drop_last()[k]).key as int,
                s as int,
            )) % p == w[a0 + k + 1] by {
            assert(clauses.drop_last()[k] == clauses[k]);
        }
        lemma_acc_chain(p, w, clauses.drop_last(), a0, s);
        let m = clauses.len() - 1;
        assert((w[a0 + m] * sub_mod(p, clauses[m].key as int, s as int)) % p == w[a0 + m + 1]);
    }
}

/// Growth of the system by appended variables and constraints composes.
pub proof fn lemma_extends_trans(c3: ConstraintSystem, c2: ConstraintSystem, c1: ConstraintSystem)
    requires
        c2.extends(c1),
        c3.extends(c2),
    ensures
        c3.extends(c1),
{
    assert forall|i: int| 0 <= i < c1.assignment@.len() implies #[trigger] c3.assignment@[i]
        == c1.assignment@[i] by {
        assert(c2.assignment@[i] == c1.assignment@[i]);
    }
    assert forall|i: int| 0 <= i < c1.constraints@.len() implies #[trigger] c3.constraints@[i]
        == c1.constraints@[i] by {
        assert(c2.constraints@[i] == c1.constraints@[i]);
    }
}

/// Dot product of boolean variables with value variables: allocates one
/// product variable with its multiplication constraint per entry, and one
/// result variable constrained to the sum of the products.
#[verifier::rlimit(50)]
pub fn bit_dot_product(
    cs: &mut ConstraintSystem,
    bits: &Vec<Variable>,
    values: &Vec<Variable>,
) -> (r: Variable)
    requires
        old(cs).wf(),
        bits@.len() == values@.len(),
        forall|i: int| 0 <= i < bits@.len() ==> old(cs).valid(#[trigger] bits@[i]),
        forall|i: int| 0 <= i < values@.len() ==> old(cs).valid(#[trigger] values@[i]),
        forall|i: int|
            0 <= i < bits@.len() ==> (old(cs).value_of(#[trigger] bits@[i]) == 0 || old(cs).value_of(bits@[i]) == 1),
    ensures
        final(cs).wf(),
        final(cs).extends(*old(cs)),
        final(cs).assignment@.len() == old(cs).assignment@.len() + bits@.len() + 1,
        final(cs).constraints@.len() == old(cs).constraints@.len() + bits@.len() + 1,
        final(cs).valid(r),
        final(cs).value_of(r) as int == dot_values(
            old(cs).modulus as int,
            old(cs).assignment@,
            bits@,
            values@,
        ),
        final(cs).satisfied() <==> old(cs).satisfied(),
        // in every witness of the appended constraints, the result variable
        // carries the reduced sum of the bit-value products
        forall|w: Seq<u64>|
            assignment_over(w, old(cs).modulus as int, final(cs).assignment@.len() as int)
                && #[trigger] range_holds(
                old(cs).modulus as int,
                w,
                final(cs).constraints@,
                old(cs).constraints@.len() as int,
                final(cs).constraints@.len() as int,
            ) ==> w[r.index as int] as int == dot_values(old(cs).modulus as int, w, bits@, values@),
{
    let ghost cs0 = *cs;
    let ghost pi = cs.modulus as int;
    let ghost asg0 = cs.assignment@;
    let ghost c0 = cs.constraints@.len() as int;
    let ghost mut prods: Seq<Variable> = Seq::empty();
    let p: u64 = cs.modulus;
    let mut sum_lc: Vec<(u64, usize)> = Vec::new();
    let mut sumv: u64 = 0;
    let mut i: usize = 0;
    while i < bits.len()
        invariant
            cs.wf(),
            cs.extends(cs0),
            cs0.wf(),
            cs.modulus == p,
            pi == p as int,
            asg0 == cs0.assignment@,
            bits@.len() == values@.len(),
            i <= bits@.len(),
            forall|j: int| 0 <= j < bits@.len() ==> cs0.valid(#[trigger] bits@[j]),
            forall|j: int| 0 <= j < values@.len() ==> cs0.valid(#[trigger] values@[j]),
            forall|j: int|
                0 <= j < bits@.len() ==> (cs0.value_of(#[trigger] bits@[j]) == 0 || cs0.value_of(
                    bits@[j],
                ) == 1),
            sum_lc@.len() == i,
            lc_wf(sum_lc@, cs.assignment@.len() as int),
            c0 == cs0.constraints@.len() as int,
            prods.len() == i,
            forall|k: int| 0 <= k < i ==> (#[trigger] prods[k]).index < cs.assignment@.len(),
            forall|k: int| 0 <= k < i ==> #[trigger] sum_lc@[k] == (1u64, prods[k].index),
            forall|k: int|
                0 <= k < i ==> ((#[trigger] cs.constraints@[c0 + k]).a@ == seq![
                    (1u64, bits@[k].index),
                ] && cs.constraints@[c0 + k].b@ == seq![(1u64, values@[k].index)]
                    && cs.constraints@[c0 + k].c@ == seq![(1u64, prods[k].index)]),
            sumv < p,
            sumv as int == dot_values(
                pi,
                asg0,
                bits@.subrange(0, i as int),
                values@.subrange(0, i as int),
            ),
            lc_eval(pi, cs.assignment@, sum_lc@) == sumv as int,
            cs.satisfied() <==> cs0.satisfied(),
            cs.assignment@.len() == cs0.assignment@.len() + i,
            cs.constraints@.len() == cs0.constraints@.len() + i,
        decreases bits@.len() - i,
    {
        let b_var: Variable = bits[i];
        let v_var: Variable = values[i];
        proof {
            assert(cs0.valid(bits@[i as int]));
            assert(cs0.valid(values@[i as int]));
            assert(cs.assignment@[b_var.index as int] == cs0.assignment@[b_var.index as int]);
            assert(cs.assignment@[v_var.index as int] == cs0.assignment@[v_var.index as int]);
        }
        let bv: u64 = cs.value(b_var);
        let vv: u64 = cs.value(v_var);
        let prodv: u64 = if bv == 1 { vv } else { 0 };
        let ghost pre = *cs;
        let prod = cs.allocate(prodv);
        proof {
            lemma_lc_eval_extends(pi, pre.assignment@, cs.assignment@, sum_lc@);
        }
        let a_lc: Vec<(u64, usize)> = vec![(1, b_var.index)];
        let b_lc: Vec<(u64, usize)> = vec![(1, v_var.index)];
        let c_lc: Vec<(u64, usize)> = vec![(1, prod.index)];
        let ghost old_prods = prods;
        proof {
            prods = prods.push(prod);
        }
        proof {
            lemma_lc_eval_unit(pi, cs.assignment@, a_lc@);
            lemma_lc_eval_unit(pi, cs.assignment@, b_lc@);
            lemma_lc_eval_unit(pi, cs.assignment@, c_lc@);
            if bv == 1 {
                assert(1 * vv as int == vv as int);
                lemma_small_mod(vv as nat, p as nat);
            } else {
                assert(bv as int * vv as int == 0);
                lemma_small_mod(0nat, p as nat);
            }
        }
        let ghost pre2 = *cs;
        cs.enforce(a_lc, b_lc, c_lc);
        proof {
            assert(constraint_holds(pi, pre2.assignment@, cs.constraints@.last()));
            lemma_extends_trans(*cs, pre2, pre);
            lemma_extends_trans(*cs, pre, cs0);
            assert forall|k: int|
                0 <= k < i + 1 implies ((#[trigger] cs.constraints@[c0 + k]).a@ == seq![
                (1u64, bits@[k].index),
            ] && cs.constraints@[c0 + k].b@ == seq![(1u64, values@[k].index)]
                && cs.constraints@[c0 + k].c@ == seq![(1u64, prods[k].index)]) by {
                if k < i {
                    assert(prods[k] == old_prods[k]);
                    assert(cs.constraints@[c0 + k] == pre2.constraints@[c0 + k]);
                } else {
                    assert(prods[k] == prod);
                    assert(cs.constraints@[c0 + i] == cs.constraints@.last());
                }
            }
        }
        let ghost old_sum_lc = sum_lc@;
        sum_lc.push((1, prod.index));
        let new_sumv: u64 = fe_add(p, sumv, prodv);
        proof {
            // the pushed term extends the linear combination's value by the product
            assert(sum_lc@.drop_last() =~= old_sum_lc);
            assert(sum_lc@.last() == (1u64, prod.index));
            assert(cs.value_of(prod) == prodv);
            assert(1 * prodv as int == prodv as int);
            assert(lc_eval(pi, cs.assignment@, sum_lc@) == (sumv as int + prodv as int) % pi);
            // and the spec dot product gains the same term
            let bsub = bits@.subrange(0, i as int + 1);
            let vsub = values@.subrange(0, i as int + 1);
            assert(bsub.drop_last() =~= bits@.subrange(0, i as int));
            assert(vsub.drop_last() =~= values@.subrange(0, i as int));
            assert(bsub.last() == bits@[i as int]);
            assert(vsub.last() == values@[i as int]);
            assert(asg0[b_var.index as int] == bv);
            assert(asg0[v_var.index as int] == vv);
            if bv == 1 {
                assert(bv as int * vv as int == vv as int);
            } else {
                assert(bv == 0);
                assert(bv as int * vv as int == 0) by (nonlinear_arith)
                    requires bv as int == 0;
            }
            assert(dot_values(pi, asg0, bsub, vsub) == (sumv as int + prodv as int) % pi);
        }
        sumv = new_sumv;
        i += 1;
    }
    let ghost pre3 = *cs;
    let result = cs.allocate(sumv);
    proof {
        lemma_lc_eval_extends(pi, pre3.assignment@, cs.assignment@, sum_lc@);
    }
    let one_lc: Vec<(u64, usize)> = vec![(1, 0)];
    let res_lc: Vec<(u64, usize)> = vec![(1, result.index)];
    proof {
        lemma_lc_eval_unit(pi, cs.assignment@, one_lc@);
        lemma_lc_eval_unit(pi, cs.assignment@, res_lc@);
        assert(sumv as int * 1 == sumv as int);
        lemma_small_mod(sumv as nat, p as nat);
    }
    let ghost sum_lcv = sum_lc@;
    let ghost one_lcv = one_lc@;
    let ghost res_lcv = res_lc@;
    let ghost pre4 = *cs;
    cs.enforce(sum_lc, one_lc, res_lc);
    proof {
        assert(constraint_holds(pi, pre4.assignment@, cs.constraints@.last()));
        lemma_extends_trans(*cs, pre4, pre3);
        lemma_extends_trans(*cs, pre3, cs0);
        assert(bits@.subrange(0, bits@.len() as int) =~= bits@);
        assert(values@.subrange(0, values@.len() as int) =~= values@);
        assert(cs.value_of(result) == sumv);
        // every witness of the appended range gives the result the reduced
        // sum of the products
        let nn = bits@.len() as int;
        assert(cs.constraints@[c0 + nn].a@ == sum_lcv);
        assert(cs.constraints@[c0 + nn].b@ == one_lcv);
        assert(cs.constraints@[c0 + nn].c@ == res_lcv);
        assert forall|w: Seq<u64>|
            assignment_over(w, pi, cs.assignment@.len() as int) && #[trigger] range_holds(
                pi,
                w,
                cs.constraints@,
                c0,
                cs.constraints@.len() as int,
            ) implies w[result.index as int] as int == dot_values(pi, w, bits@, values@) by {
            let pv = prods.map_values(|v: Variable| w[v.index as int]);
            assert forall|k: int|
                0 <= k < nn implies (#[trigger] pv[k]) as int == (w[bits@[k].index as int]
                * w[values@[k].index as int]) % pi by {
                assert(cs.constraints@[c0 + k] == pre4.constraints@[c0 + k]);
                assert(constraint_holds(pi, w, cs.constraints@[c0 + k]));
                assert(cs0.valid(bits@[k]));
                assert(cs0.valid(values@[k]));
                assert(w[bits@[k].index as int] < p);
                assert(w[values@[k].index as int] < p);
                assert(w[prods[k].index as int] < p);
                lemma_lc_eval_unit(pi, w, cs.constraints@[c0 + k].a@);
                lemma_lc_eval_unit(pi, w, cs.constraints@[c0 + k].b@);
                lemma_lc_eval_unit(pi, w, cs.constraints@[c0 + k].c@);
                assert(pv[k] == w[prods[k].index as int]);
            }
            assert(constraint_holds(pi, w, cs.constraints@[c0 + nn]));
            lemma_lc_eval_unit_sum(pi, w, sum_lcv, prods);
            lemma_lc_eval_unit(pi, w, one_lcv);
            lemma_lc_eval_unit(pi, w, res_lcv);
            let sm = sum_mod(pi, pv);
            assert(sm * 1 == sm) by (nonlinear_arith);
            crate::laws::lemma_sum_mod_bounds(pi, pv);
            lemma_small_mod(sm as nat, pi as nat);
            lemma_dot_values_from_products(pi, w, bits@, values@, pv);
        }
    }
    result
}

impl CaseConstraint {
    /// Allocate one boolean indicator per clause — set only for the first
    /// clause whose key equals the active key's value, so exactly one
    /// indicator is set whenever any key matches — enforce that the
    /// indicators sum to `1` and that their weighted sum against the clause
    /// keys equals the active key, and return the dot product of the
    /// indicators with the clause values.
    ///
    /// The emitted system is satisfied by the recorded witness exactly when
    /// it was before and some clause key equals the active key's value: with
    /// none, the sum constraint has no satisfying bit left. With duplicate
    /// keys the recorded witness selects the first tied clause.
    ///
    /// Beyond the recorded witness, the contract also binds every satisfying
    /// assignment: the indicators form a one-hot vector, and the hot clause's
    /// key and value match that assignment's own active-key value and output.
    #[verifier::rlimit(100)]
    pub fn enforce_selection(self, cs: &mut ConstraintSystem) -> (r: Variable)
        requires
            old(cs).wf(),
            old(cs).valid(self.selected),
            forall|i: int|
                0 <= i < self.clauses@.len() ==> old(cs).valid((#[trigger] self.clauses@[i]).value),
            forall|i: int|
                0 <= i < self.clauses@.len() ==> (#[trigger] self.clauses@[i]).key < old(cs).modulus,
        ensures
            final(cs).wf(),
            final(cs).extends(*old(cs)),
            final(cs).assignment@.len() == old(cs).assignment@.len() + 2 * self.clauses@.len()
                + 1,
            final(cs).constraints@.len() == old(cs).constraints@.len() + 2 * self.clauses@.len()
                + 3,
            final(cs).valid(r),
            !matches_key(self.clauses@, old(cs).value_of(self.selected)) ==> final(cs).value_of(r) == 0,
            matches_key(self.clauses@, old(cs).value_of(self.selected)) ==> (exists|j: int|
                0 <= j < self.clauses@.len()
                    && (#[trigger] self.clauses@[j]).key == old(cs).value_of(self.selected)
                    && (forall|k: int|
                        0 <= k < j ==> (#[trigger] self.clauses@[k]).key != old(cs).value_of(self.selected))
                    && (forall|k: int|
                        0 <= k < self.clauses@.len()
                            ==> #[trigger] final(cs).assignment@[old(cs).assignment@.len() + k]
                            == (if k == j {
                            1u64
                        } else {
                            0u64
                        }))
                    && final(cs).value_of(r) == old(cs).value_of(self.clauses@[j].value)),
            !matches_key(self.clauses@, old(cs).value_of(self.selected)) ==> (forall|k: int|
                0 <= k < self.clauses@.len()
                    ==> #[trigger] final(cs).assignment@[old(cs).assignment@.len() + k] == 0),
            key_count(self.clauses@, old(cs).value_of(self.selected)) == 1 ==> (forall|i: int|
                0 <= i < self.clauses@.len() && (#[trigger] self.clauses@[i]).key == old(cs).value_of(self.selected) ==> final(cs).value_of(r) == old(cs).value_of(
                    self.clauses@[i].value,
                )),
            final(cs).satisfied() <==> (old(cs).satisfied() && matches_key(
                self.clauses@,
                old(cs).value_of(self.selected),
            )),
            // exactly-one-hot in every witness: any assignment satisfying the
            // appended constraints gives the allocated indicators (at
            // assignment indices old length .. old length + clause count)
            // boolean values of which exactly one is set
            (no_zero_divisors(old(cs).modulus as int) && self.clauses@.len() < old(cs).modulus)
                ==> (forall|w: Seq<u64>|
                assignment_over(
                    w,
                    old(cs).modulus as int,
                    final(cs).assignment@.len() as int,
                ) && #[trigger] range_holds(
                    old(cs).modulus as int,
                    w,
                    final(cs).constraints@,
                    old(cs).constraints@.len() as int,
                    final(cs).constraints@.len() as int,
                ) ==> ((forall|k: int|
                    0 <= k < self.clauses@.len() ==> (#[trigger] w[old(cs).assignment@.len() + k]
                        == 0 || w[old(cs).assignment@.len() + k] == 1)) && (exists|j: int|
                    0 <= j < self.clauses@.len() && #[trigger] w[old(cs).assignment@.len() + j]
                        == 1 && (forall|k2: int|
                        0 <= k2 < self.clauses@.len() && #[trigger] w[old(cs).assignment@.len()
                            + k2] == 1 ==> k2 == j)))),
            // witness-level soundness: in every assignment satisfying the
            // appended constraints, the hot indicator selects a clause whose
            // key equals that assignment's active-key value, and the returned
            // variable carries that clause's value
            (no_zero_divisors(old(cs).modulus as int) && self.clauses@.len() < old(cs).modulus)
                ==> (forall|w: Seq<u64>|
                assignment_over(
                    w,
                    old(cs).modulus as int,
                    final(cs).assignment@.len() as int,
                ) && #[trigger] range_holds(
                    old(cs).modulus as int,
                    w,
                    final(cs).constraints@,
                    old(cs).constraints@.len() as int,
                    final(cs).constraints@.len() as int,
                ) ==> (exists|j: int|
                    0 <= j < self.clauses@.len() && (#[trigger] self.clauses@[j]).key
                        == w[self.selected.index as int] && w[old(cs).assignment@.len() + j] == 1
                        && w[r.index as int] == w[self.clauses@[j].value.index as int])),
    {
        let ghost cs0 = *cs;
        let p: u64 = cs.modulus;
        let ghost pi = p as int;
        let sval: u64 = cs.value(self.selected);
        let n: usize = self.clauses.len();
        let mut bits: Vec<Variable> = Vec::new();
        let mut values: Vec<Variable> = Vec::new();
        let mut sum_lc: Vec<(u64, usize)> = Vec::new();
        let mut dot_lc: Vec<(u64, usize)> = Vec::new();
        let mut found: bool = false;
        let ghost mut sel: int = 0;
        proof {
            assert(self.clauses@.subrange(0, 0int).len() == 0);
            lemma_small_mod(0nat, p as nat);
        }
        let mut i: usize = 0;
        while i < n
            invariant
                cs.wf(),
                cs.extends(cs0),
                cs0.wf(),
                cs.modulus == p,
                pi == p as int,
                n == self.clauses@.len(),
                i <= n,
                forall|j: int|
                    0 <= j < n ==> cs0.valid((#[trigger] self.clauses@[j]).value),
                forall|j: int| 0 <= j < n ==> (#[trigger] self.clauses@[j]).key < p,
                cs0.valid(self.selected),
                sval == cs0.value_of(self.selected),
                sval < p,
                bits@.len() == i,
                values@.len() == i,
                sum_lc@.len() == i,
                dot_lc@.len() == i,
                forall|j: int|
                    0 <= j < i ==> (#[trigger] bits@[j]).index < cs.assignment@.len(),
                found <==> matches_key(self.clauses@.subrange(0, i as int), sval),
                found ==> 0 <= sel < i && self.clauses@[sel].key == sval && (forall|k: int|
                    0 <= k < sel ==> (#[trigger] self.clauses@[k]).key != sval),
                forall|j: int|
                    0 <= j < i ==> cs.value_of(#[trigger] bits@[j]) == (
                    if found && j == sel {
                        1u64
                    } else {
                        0u64
                    }),
                forall|j: int| 0 <= j < i ==> #[trigger] values@[j] == self.clauses@[j].value,
                forall|k: int|
                    0 <= k < i ==> (#[trigger] bits@[k]).index as int == cs0.assignment@.len()
                        + k,
                forall|k: int|
                    0 <= k < i ==> ((#[trigger] cs.constraints@[cs0.constraints@.len() + k]).a@
                        == seq![(1u64, bits@[k].index)]
                        && cs.constraints@[cs0.constraints@.len() + k].b@ == seq![
                        (1u64, 0usize),
                        ((p - 1) as u64, bits@[k].index),
                    ] && cs.constraints@[cs0.constraints@.len() + k].c@.len() == 0),
                forall|k: int| 0 <= k < i ==> #[trigger] sum_lc@[k] == (1u64, bits@[k].index),
                forall|k: int|
                    0 <= k < i ==> #[trigger] dot_lc@[k] == (self.clauses@[k].key, bits@[k].index),
                lc_wf(sum_lc@, cs.assignment@.len() as int),
                lc_wf(dot_lc@, cs.assignment@.len() as int),
                lc_eval(pi, cs.assignment@, sum_lc@) == (if found {
                    1int
                } else {
                    0int
                }),
                lc_eval(pi, cs.assignment@, dot_lc@) == (if found {
                    sval as int
                } else {
                    0int
                }),
                cs.satisfied() <==> cs0.satisfied(),
                cs.assignment@.len() == cs0.assignment@.len() + i,
                cs.constraints@.len() == cs0.constraints@.len() + i,
            decreases n - i,
        {
            let clause: CaseClause = self.clauses[i];
            let ghost was_found = found;
            let ghost old_sel = sel;
            let is_sel: bool = clause.key == sval && !found;
            if is_sel {
                found = true;
                proof {
                    sel = i as int;
                }
            }
            proof {
                let csub = self.clauses@.subrange(0, i as int + 1);
                assert(csub =~= self.clauses@.subrange(0, i as int).push(
                    self.clauses@[i as int],
                ));
                lemma_matches_push(
                    self.clauses@.subrange(0, i as int),
                    self.clauses@[i as int],
                    sval,
                );
                if is_sel {
                    // nothing earlier matched, so this is the first match
                    assert forall|k: int| 0 <= k < i implies (#[trigger] self.clauses@[k]).key
                        != sval by {
                        if self.clauses@[k].key == sval {
                            assert(self.clauses@.subrange(0, i as int)[k].key == sval);
                        }
                    }
                }
            }
            let ghost pre = *cs;
            let b = cs.allocate_bit(is_sel);
            proof {
                lemma_lc_eval_extends(pi, pre.assignment@, cs.assignment@, sum_lc@);
                lemma_lc_eval_extends(pi, pre.assignment@, cs.assignment@, dot_lc@);
                lemma_extends_trans(*cs, pre, cs0);
            }
            let ghost old_bits = bits@;
            let ghost old_sum = sum_lc@;
            let ghost old_dot = dot_lc@;
            bits.push(b);
            values.push(clause.value);
            sum_lc.push((1, b.index));
            dot_lc.push((clause.key, b.index));
            proof {
                let bvi: int = if is_sel {
                    1
                } else {
                    0
                };
                assert(cs.value_of(b) as int == bvi);
                assert forall|j: int| 0 <= j < i + 1 implies cs.value_of(#[trigger] bits@[j]) == (
                    if found && j == sel {
                        1u64
                    } else {
                        0u64
                    }) by {
                    if j < i {
                        assert(bits@[j] == old_bits[j]);
                        assert(old_bits[j].index < pre.assignment@.len());
                        assert(cs.assignment@[old_bits[j].index as int]
                            == pre.assignment@[old_bits[j].index as int]);
                        assert(pre.value_of(old_bits[j]) == (if was_found && j == old_sel {
                            1u64
                        } else {
                            0u64
                        }));
                    }
                }
                // the pushed terms extend both linear combinations
                assert(sum_lc@.drop_last() =~= old_sum);
                assert(sum_lc@.last() == (1u64, b.index));
                assert(dot_lc@.drop_last() =~= old_dot);
                assert(dot_lc@.last() == (clause.key, b.index));
                assert(1 * bvi == bvi);
                lemma_small_mod(0nat, p as nat);
                lemma_small_mod(1nat, p as nat);
                lemma_small_mod(sval as nat, p as nat);
                if is_sel {
                    assert(clause.key as int * bvi == clause.key as int) by (nonlinear_arith)
                        requires bvi == 1;
                } else {
                    assert(clause.key as int * bvi == 0) by (nonlinear_arith)
                        requires bvi == 0;
                }
                assert(lc_eval(pi, cs.assignment@, sum_lc@) == (if found {
                    1int
                } else {
                    0int
                }));
                assert(lc_eval(pi, cs.assignment@, dot_lc@) == (if found {
                    sval as int
                } else {
                    0int
                }));
                assert forall|k: int|
                    0 <= k < i + 1 implies ((#[trigger] cs.constraints@[cs0.constraints@.len()
                    + k]).a@ == seq![(1u64, bits@[k].index)] && cs.constraints@[
                    cs0.constraints@.len() + k].b@ == seq![
                    (1u64, 0usize),
                    ((p - 1) as u64, bits@[k].index),
                ] && cs.constraints@[cs0.constraints@.len() + k].c@.len() == 0) by {
                    if k < i {
                        assert(bits@[k] == old_bits[k]);
                        assert(cs.constraints@[cs0.constraints@.len() + k] == pre.constraints@[
                            cs0.constraints@.len() + k]);
                    } else {
                        assert(bits@[k] == b);
                        assert(cs.constraints@[cs0.constraints@.len() + i]
                            == cs.constraints@.last());
                    }
                }
            }
            i += 1;
        }
        proof {
            assert(self.clauses@.subrange(0, n as int) =~= self.clauses@);
        }
        // exactly one indicator is set
        let one_a: Vec<(u64, usize)> = vec![(1, 0)];
        let one_b: Vec<(u64, usize)> = vec![(1, 0)];
        proof {
            lemma_lc_eval_unit(pi, cs.assignment@, one_a@);
            lemma_lc_eval_unit(pi, cs.assignment@, one_b@);
        }
        let ghost sum_lcv = sum_lc@;
        let ghost one_av = one_a@;
        let ghost one_bv = one_b@;
        let ghost cs1 = *cs;
        cs.enforce(sum_lc, one_a, one_b);
        proof {
            assert(1int * 1int == 1int);
            assert(0int * 1int == 0int);
            lemma_small_mod(1nat, p as nat);
            lemma_small_mod(0nat, p as nat);
            assert(constraint_holds(pi, cs1.assignment@, cs.constraints@.last()) <==> found);
            lemma_extends_trans(*cs, cs1, cs0);
            assert(cs.satisfied() <==> (cs0.satisfied() && found));
        }
        // the indicators pick out the active key
        let sel_c: Vec<(u64, usize)> = vec![(1, self.selected.index)];
        let one_c: Vec<(u64, usize)> = vec![(1, 0)];
        proof {
            assert(cs.assignment@[self.selected.index as int]
                == cs0.assignment@[self.selected.index as int]);
            lemma_lc_eval_unit(pi, cs.assignment@, sel_c@);
            lemma_lc_eval_unit(pi, cs.assignment@, one_c@);
        }
        let ghost dot_lcv = dot_lc@;
        let ghost one_cv = one_c@;
        let ghost sel_cv = sel_c@;
        let ghost cs2 = *cs;
        cs.enforce(dot_lc, one_c, sel_c);
        proof {
            if found {
                assert(sval as int * 1int == sval as int);
                lemma_small_mod(sval as nat, p as nat);
                assert(constraint_holds(pi, cs2.assignment@, cs.constraints@.last()));
            }
            lemma_extends_trans(*cs, cs2, cs0);
            assert(cs.satisfied() <==> (cs0.satisfied() && found));
        }
        // extract the selected value
        let ghost cs2plus = *cs;
        let ghost cs3 = *cs;
        proof {
            assert forall|j: int| 0 <= j < n implies cs3.valid(#[trigger] values@[j]) by {
                assert(values@[j] == self.clauses@[j].value);
                assert(cs0.valid(self.clauses@[j].value));
            }
            assert forall|j: int|
                0 <= j < n implies (cs3.value_of(#[trigger] bits@[j]) == 0 || cs3.value_of(
                bits@[j],
            ) == 1) by {
                assert(cs3.value_of(bits@[j]) == (if found && j == sel {
                    1u64
                } else {
                    0u64
                }));
            }
        }
        let r = bit_dot_product(cs, &bits, &values);
        proof {
            assert forall|j: int|
                0 <= j < n implies cs3.assignment@[(#[trigger] values@[j]).index as int]
                < p by {
                assert(values@[j].index < cs3.assignment@.len());
            }
            lemma_extends_trans(*cs, cs3, cs0);
            if found {
                assert forall|j: int|
                    0 <= j < n implies cs3.assignment@[(#[trigger] bits@[j]).index as int] == (
                    if j == sel {
                        1u64
                    } else {
                        0u64
                    }) by {}
                lemma_dot_one_hot(pi, cs3.assignment@, bits@, values@, sel);
                assert(values@[sel] == self.clauses@[sel].value);
                assert(cs3.assignment@[values@[sel].index as int]
                    == cs0.assignment@[values@[sel].index as int]);
                assert(cs.value_of(r) == cs0.value_of(self.clauses@[sel].value));
                assert(self.clauses@[sel].key == sval);
                assert forall|k: int|
                    0 <= k < n implies #[trigger] cs.assignment@[cs0.assignment@.len() + k] == (
                    if k == sel {
                        1u64
                    } else {
                        0u64
                    }) by {
                    assert(bits@[k].index as int == cs0.assignment@.len() + k);
                    assert(cs.assignment@[bits@[k].index as int]
                        == cs3.assignment@[bits@[k].index as int]);
                }
                if key_count(self.clauses@, sval) == 1 {
                    lemma_key_count_unique(self.clauses@, sval);
                    assert forall|i2: int|
                        0 <= i2 < n && (#[trigger] self.clauses@[i2]).key == sval implies
                        cs.value_of(r) == cs0.value_of(self.clauses@[i2].value) by {
                        assert(i2 == sel);
                    }
                }
            } else {
                assert forall|j: int|
                    0 <= j < n implies cs3.assignment@[(#[trigger] bits@[j]).index as int]
                    == 0u64 by {}
                lemma_dot_zero_bits(pi, cs3.assignment@, bits@, values@);
                assert forall|k: int|
                    0 <= k < n implies #[trigger] cs.assignment@[cs0.assignment@.len() + k]
                    == 0u64 by {
                    assert(bits@[k].index as int == cs0.assignment@.len() + k);
                    assert(cs.assignment@[bits@[k].index as int]
                        == cs3.assignment@[bits@[k].index as int]);
                }
            }
            if no_zero_divisors(pi) && n < p {
                let a0 = cs0.assignment@.len() as int;
                let c0n = cs0.constraints@.len() as int;
                assert forall|w: Seq<u64>|
                    assignment_over(w, pi, cs.assignment@.len() as int) && #[trigger] range_holds(
                        pi,
                        w,
                        cs.constraints@,
                        c0n,
                        cs.constraints@.len() as int,
                    ) implies ((forall|k: int|
                    0 <= k < n ==> (#[trigger] w[a0 + k] == 0 || w[a0 + k] == 1)) && (exists|
                    j: int,
                |
                    0 <= j < n && #[trigger] w[a0 + j] == 1 && (forall|k2: int|
                        0 <= k2 < n && #[trigger] w[a0 + k2] == 1 ==> k2 == j)) && (exists|
                    j: int,
                |
                    0 <= j < n && (#[trigger] self.clauses@[j]).key == w[self.selected.index
                        as int] && w[a0 + j] == 1 && w[r.index as int]
                        == w[self.clauses@[j].value.index as int])) by {
                    // the boolean constraints force each indicator to 0 or 1
                    assert forall|k: int| 0 <= k < n implies (#[trigger] w[a0 + k] == 0 || w[a0
                        + k] == 1) by {
                        assert(cs2.constraints@[c0n + k] == cs1.constraints@[c0n + k]);
                        assert(cs3.constraints@[c0n + k] == cs2.constraints@[c0n + k]);
                        assert(cs.constraints@[c0n + k] == cs3.constraints@[c0n + k]);
                        assert(constraint_holds(pi, w, cs.constraints@[c0n + k]));
                        assert(bits@[k].index as int == a0 + k);
                        assert(w[a0 + k] < p);
                        lemma_boolean_constraint_forces_bit(
                            pi,
                            w,
                            cs.constraints@[c0n + k],
                            bits@[k].index,
                        );
                    }
                    // the sum constraint pins the count of set indicators to one
                    assert(cs3.constraints@[c0n + n] == cs2.constraints@[c0n + n]);
                    assert(cs.constraints@[c0n + n] == cs3.constraints@[c0n + n]);
                    assert(constraint_holds(pi, w, cs.constraints@[c0n + n]));
                    assert(cs2.constraints@[c0n + n].a@ == sum_lcv);
                    assert(cs2.constraints@[c0n + n].b@ == one_av);
                    assert(cs2.constraints@[c0n + n].c@ == one_bv);
                    lemma_lc_eval_unit(pi, w, one_av);
                    lemma_lc_eval_unit(pi, w, one_bv);
                    lemma_lc_eval_unit_sum(pi, w, sum_lcv, bits@);
                    let bw = bits@.map_values(|v: Variable| w[v.index as int]);
                    assert forall|k: int| 0 <= k < n implies #[trigger] bw[k] == w[a0 + k] by {
                        assert(bits@[k].index as int == a0 + k);
                    }
                    assert forall|k: int| 0 <= k < n implies ((#[trigger] bw[k]) == 0 || bw[k]
                        == 1) by {
                        assert(w[a0 + k] == 0 || w[a0 + k] == 1);
                    }
                    lemma_sum_mod_ones(pi, bw);
                    lemma_ones_le_len(bw);
                    let sm = sum_mod(pi, bw);
                    assert(sm * 1 == sm) by (nonlinear_arith);
                    lemma_mod_twice(ones_count(bw) as int, pi);
                    lemma_small_mod(ones_count(bw), pi as nat);
                    assert(ones_count(bw) == 1);
                    lemma_ones_unique(bw);
                    let j = choose|j: int| 0 <= j < bw.len() && #[trigger] bw[j] == 1;
                    assert(w[a0 + j] == 1);
                    assert forall|k2: int| 0 <= k2 < n && #[trigger] w[a0 + k2] == 1 implies k2
                        == j by {
                        assert(bw[k2] == 1);
                    }
                    assert(0 <= j < n && w[a0 + j] == 1);
                    // the key constraint ties the hot clause's key to the
                    // witness's active-key value
                    assert(cs3.constraints@[c0n + n + 1] == cs2plus.constraints@[c0n + n + 1]);
                    assert(cs.constraints@[c0n + n + 1] == cs3.constraints@[c0n + n + 1]);
                    assert(constraint_holds(pi, w, cs.constraints@[c0n + n + 1]));
                    assert(cs2plus.constraints@[c0n + n + 1].a@ == dot_lcv);
                    assert(cs2plus.constraints@[c0n + n + 1].b@ == one_cv);
                    assert(cs2plus.constraints@[c0n + n + 1].c@ == sel_cv);
                    let keys_seq = self.clauses@.map_values(|c: CaseClause| c.key);
                    assert forall|k: int| 0 <= k < n implies #[trigger] dot_lcv[k] == (
                        keys_seq[k],
                        bits@[k].index,
                    ) by {
                        assert(dot_lcv[k] == (self.clauses@[k].key, bits@[k].index));
                    }
                    lemma_lc_eval_weighted_sum(pi, w, dot_lcv, keys_seq, bits@);
                    lemma_lc_eval_unit(pi, w, one_cv);
                    assert(self.selected.index < w.len());
                    assert(w[self.selected.index as int] < p);
                    lemma_lc_eval_unit(pi, w, sel_cv);
                    let ws = weighted_sum_mod(pi, keys_seq, bw);
                    assert(ws * 1 == ws) by (nonlinear_arith);
                    lemma_weighted_sum_mod_bounds(pi, keys_seq, bw);
                    lemma_small_mod(ws as nat, pi as nat);
                    assert(ws == w[self.selected.index as int]);
                    assert forall|k: int| 0 <= k < n implies (#[trigger] keys_seq[k]) < p by {
                        assert(self.clauses@[k].key < p);
                    }
                    assert forall|k: int| 0 <= k < n && #[trigger] bw[k] == 1 implies k
                        == j by {
                        assert(w[a0 + k] == 1);
                    }
                    lemma_weighted_sum_one_hot(pi, keys_seq, bw, j);
                    assert(self.clauses@[j].key == w[self.selected.index as int]);
                    // the value constraints hand the hot clause's value to the
                    // returned variable
                    assert(range_holds(
                        pi,
                        w,
                        cs.constraints@,
                        cs3.constraints@.len() as int,
                        cs.constraints@.len() as int,
                    ));
                    assert(w[r.index as int] as int == dot_values(pi, w, bits@, values@));
                    lemma_dot_values_is_weighted(pi, w, bits@, values@);
                    let vw = values@.map_values(|v: Variable| w[v.index as int]);
                    assert forall|k: int| 0 <= k < n implies (#[trigger] vw[k]) < p by {
                        assert(values@[k].index < w.len());
                    }
                    lemma_weighted_sum_one_hot(pi, vw, bw, j);
                    assert(vw[j] == w[values@[j].index as int]);
                    assert(values@[j] == self.clauses@[j].value);
                    assert(0 <= j < n && (self.clauses@[j]).key == w[self.selected.index as int]
                        && w[a0 + j] == 1 && w[r.index as int]
                        == w[self.clauses@[j].value.index as int]);
                }
            }
        }
        r
    }
}


/// Build the multiplexer: run the match detector over the clause keys, feed
/// the final accumulator to the zero test, run the one-hot selection against
/// the selector (or a fallback key when nothing matched), extract the
/// selected value, and select between it and the default.
///
/// The returned variable carries the first matching clause's value (the
/// unique one when keys are distinct, one of the tied values otherwise), or
/// the default's value when no key matches. Under the integral-domain
/// precondition construction always succeeds; the error branch remains only
/// for runs over a composite modulus, outside that precondition.
///
/// The recorded witness always satisfies the appended constraints: the
/// one-hot selection is run against a key that is present among the clause
/// keys (the selector when matched, else the first clause's key).
///
/// The contract also binds every satisfying assignment: a witness whose own
/// selector value matches no clause key gets the default, and — when the
/// gadget was built on a matching selector — a witness whose selector value
/// matches gets a clause value whose key equals that selector value. The
/// latter clause is conditioned on the recorded match because in the
/// no-match branch the fallback active-key variable is left for the prover
/// to choose, as in the original design.
#[verifier::rlimit(100)]
pub fn case(
    cs: &mut ConstraintSystem,
    selected: Variable,
    clauses: &Vec<CaseClause>,
    default: Variable,
) -> (r: Result<Variable, SynthesisError>)
    requires
        old(cs).wf(),
        old(cs).valid(selected),
        old(cs).valid(default),
        forall|i: int| 0 <= i < clauses@.len() ==> old(cs).valid((#[trigger] clauses@[i]).value),
        forall|i: int| 0 <= i < clauses@.len() ==> (#[trigger] clauses@[i]).key < old(cs).modulus,
        clauses@.len() >= 1,
        no_zero_divisors(old(cs).modulus as int),
    ensures
        final(cs).wf(),
        final(cs).extends(*old(cs)),
        r is Ok,
        match r {
            Ok(res) => {
                &&& final(cs).valid(res)
                &&& final(cs).assignment@.len() == old(cs).assignment@.len() + 3
                    * clauses@.len() + 6
                &&& final(cs).constraints@.len() == old(cs).constraints@.len() + 3
                    * clauses@.len() + 8
                &&& (key_count(clauses@, old(cs).value_of(selected)) == 1 ==> (forall|i: int|
                    0 <= i < clauses@.len()
                        && (#[trigger] clauses@[i]).key == old(cs).value_of(selected)
                        ==> final(cs).value_of(res) == old(cs).value_of(clauses@[i].value)))
                &&& (matches_key(clauses@, old(cs).value_of(selected)) ==> (exists|j: int|
                    0 <= j < clauses@.len()
                        && (#[trigger] clauses@[j]).key == old(cs).value_of(selected)
                        && (forall|k: int|
                            0 <= k < j ==> (#[trigger] clauses@[k]).key != old(cs).value_of(
                                selected,
                            ))
                        && final(cs).value_of(res) == old(cs).value_of(clauses@[j].value)))
                &&& (!matches_key(clauses@, old(cs).value_of(selected))
                    ==> final(cs).value_of(res) == old(cs).value_of(default))
                &&& (final(cs).satisfied() <==> old(cs).satisfied())
                &&& ((no_zero_divisors(old(cs).modulus as int) && clauses@.len() < old(cs).modulus)
                    ==> (forall|w: Seq<u64>|
                    assignment_over(
                        w,
                        old(cs).modulus as int,
                        final(cs).assignment@.len() as int,
                    ) && #[trigger] range_holds(
                        old(cs).modulus as int,
                        w,
                        final(cs).constraints@,
                        old(cs).constraints@.len() as int,
                        final(cs).constraints@.len() as int,
                    ) && !matches_key(clauses@, w[selected.index as int]) ==> w[res.index as int]
                        == w[default.index as int]))
                &&& ((no_zero_divisors(old(cs).modulus as int) && clauses@.len() < old(cs).modulus
                    && matches_key(clauses@, old(cs).value_of(selected))) ==> (forall|w: Seq<u64>|
                    assignment_over(
                        w,
                        old(cs).modulus as int,
                        final(cs).assignment@.len() as int,
                    ) && #[trigger] range_holds(
                        old(cs).modulus as int,
                        w,
                        final(cs).constraints@,
                        old(cs).constraints@.len() as int,
                        final(cs).constraints@.len() as int,
                    ) && matches_key(clauses@, w[selected.index as int]) ==> (exists|j: int|
                        0 <= j < clauses@.len() && (#[trigger] clauses@[j]).key
                            == w[selected.index as int] && w[res.index as int]
                            == w[clauses@[j].value.index as int])))
            },
            Err(_) => true,
        },
{
    let ghost cs0 = *cs;
    let p: u64 = cs.modulus;
    let ghost pi = p as int;
    let sval: u64 = cs.value(selected);
    let n: usize = clauses.len();
    let mut acc = cs.allocate(1);
    let ghost acc0 = acc;
    // pin the seed to the field identity, so no witness can start the
    // accumulator chain anywhere else
    let seed_a: Vec<(u64, usize)> = vec![(1, 0)];
    let seed_b: Vec<(u64, usize)> = vec![(1, 0)];
    let seed_c: Vec<(u64, usize)> = vec![(1, acc.index)];
    let ghost seed_av = seed_a@;
    let ghost seed_bv = seed_b@;
    let ghost seed_cv = seed_c@;
    proof {
        lemma_lc_eval_unit(pi, cs.assignment@, seed_a@);
        lemma_lc_eval_unit(pi, cs.assignment@, seed_b@);
        lemma_lc_eval_unit(pi, cs.assignment@, seed_c@);
        lemma_small_mod(1nat, p as nat);
        assert(lc_eval(pi, cs.assignment@, seed_a@) == 1);
        assert(lc_eval(pi, cs.assignment@, seed_b@) == 1);
        assert(lc_eval(pi, cs.assignment@, seed_c@) == 1);
        assert((1int * 1int) % pi == 1);
    }
    let ghost pre_seed = *cs;
    cs.enforce(seed_a, seed_b, seed_c);
    proof {
        assert(constraint_holds(pi, pre_seed.assignment@, cs.constraints@.last()));
        lemma_extends_trans(*cs, pre_seed, cs0);
        assert(cs.constraints@[cs0.constraints@.len() as int] == cs.constraints@.last());
        assert(seed_av =~= seq![(1u64, 0usize)]);
        assert(seed_bv =~= seq![(1u64, 0usize)]);
        assert(seed_cv =~= seq![(1u64, acc0.index)]);
    }
    let mut accv: u64 = 1;
    let mut matched: bool = false;
    proof {
        assert(clauses@.subrange(0, 0int).len() == 0);
    }
    let mut i: usize = 0;
    while i < n
        invariant
            cs.wf(),
            cs.extends(cs0),
            cs0.wf(),
            cs.modulus == p,
            pi == p as int,
            n == clauses@.len(),
            i <= n,
            forall|j: int| 0 <= j < n ==> cs0.valid((#[trigger] clauses@[j]).value),
            forall|j: int| 0 <= j < n ==> (#[trigger] clauses@[j]).key < p,
            cs0.valid(selected),
            sval == cs0.value_of(selected),
            sval < p,
            no_zero_divisors(pi),
            cs.valid(acc),
            cs.value_of(acc) == accv,
            acc.index as int == cs0.assignment@.len() + i,
            forall|k: int|
                0 <= k < i ==> ((#[trigger] cs.constraints@[cs0.constraints@.len() + 1 + k]).a@
                    == seq![(1u64, ((cs0.assignment@.len() + k) as usize))]
                    && cs.constraints@[cs0.constraints@.len() + 1 + k].b@ == seq![
                    (clauses@[k].key, 0usize),
                    ((p - 1) as u64, selected.index),
                ] && cs.constraints@[cs0.constraints@.len() + 1 + k].c@ == seq![
                    (1u64, ((cs0.assignment@.len() + k + 1) as usize)),
                ]),
            cs.constraints@[cs0.constraints@.len() as int].a@ == seed_av,
            cs.constraints@[cs0.constraints@.len() as int].b@ == seed_bv,
            cs.constraints@[cs0.constraints@.len() as int].c@ == seed_cv,
            seed_av == seq![(1u64, 0usize)],
            seed_bv == seq![(1u64, 0usize)],
            seed_cv == seq![(1u64, acc0.index)],
            acc0.index as int == cs0.assignment@.len(),
            accv < p,
            accv as int == acc_product(pi, clauses@.subrange(0, i as int), sval),
            matched == matches_key(clauses@.subrange(0, i as int), sval),
            cs.satisfied() <==> cs0.satisfied(),
            cs.assignment@.len() == cs0.assignment@.len() + i + 1,
            cs.constraints@.len() == cs0.constraints@.len() + i + 1,
        decreases n - i,
    {
        let clause: CaseClause = clauses[i];
        let key: u64 = clause.key;
        if key == sval {
            matched = true;
        }
        proof {
            let csub = clauses@.subrange(0, i as int + 1);
            assert(csub.drop_last() =~= clauses@.subrange(0, i as int));
            assert(csub =~= clauses@.subrange(0, i as int).push(clauses@[i as int]));
            lemma_matches_push(clauses@.subrange(0, i as int), clauses@[i as int], sval);
        }
        let diff: u64 = fe_sub(p, key, sval);
        let newv: u64 = fe_mul(p, accv, diff);
        let ghost pre = *cs;
        let new_acc = cs.allocate(newv);
        let a_lc: Vec<(u64, usize)> = vec![(1, acc.index)];
        let b_lc: Vec<(u64, usize)> = vec![(key, 0), (p - 1, selected.index)];
        let c_lc: Vec<(u64, usize)> = vec![(1, new_acc.index)];
        proof {
            lemma_extends_trans(*cs, pre, cs0);
            assert(cs.assignment@[acc.index as int] == pre.assignment@[acc.index as int]);
            assert(cs.assignment@[selected.index as int]
                == cs0.assignment@[selected.index as int]);
            lemma_lc_eval_unit(pi, cs.assignment@, a_lc@);
            lemma_lc_eval_const_minus(pi, cs.assignment@, b_lc@);
            lemma_lc_eval_unit(pi, cs.assignment@, c_lc@);
            assert(lc_eval(pi, cs.assignment@, b_lc@) == diff as int);
        }
        let ghost a_lcv = a_lc@;
        let ghost b_lcv = b_lc@;
        let ghost c_lcv = c_lc@;
        let ghost pre2 = *cs;
        cs.enforce(a_lc, b_lc, c_lc);
        proof {
            assert(constraint_holds(pi, pre2.assignment@, cs.constraints@.last()));
            lemma_extends_trans(*cs, pre2, cs0);
            let csub = clauses@.subrange(0, i as int + 1);
            assert(csub.drop_last() =~= clauses@.subrange(0, i as int));
            assert(csub.last() == clauses@[i as int]);
            assert(acc_product(pi, csub, sval) == newv as int);
            assert(a_lcv =~= seq![(1u64, acc.index)]);
            assert(b_lcv =~= seq![(key, 0usize), ((p - 1) as u64, selected.index)]);
            assert(c_lcv =~= seq![(1u64, new_acc.index)]);
            assert forall|k: int|
                0 <= k < i + 1 implies ((#[trigger] cs.constraints@[cs0.constraints@.len() + 1
                + k]).a@ == seq![(1u64, ((cs0.assignment@.len() + k) as usize))]
                && cs.constraints@[cs0.constraints@.len() + 1 + k].b@ == seq![
                (clauses@[k].key, 0usize),
                ((p - 1) as u64, selected.index),
            ] && cs.constraints@[cs0.constraints@.len() + 1 + k].c@ == seq![
                (1u64, ((cs0.assignment@.len() + k + 1) as usize)),
            ]) by {
                if k < i {
                    assert(cs.constraints@[cs0.constraints@.len() + 1 + k] == pre2.constraints@[
                        cs0.constraints@.len() + 1 + k]);
                } else {
                    assert(cs.constraints@[cs0.constraints@.len() + 1 + i]
                        == cs.constraints@.last());
                    assert(acc.index as int == cs0.assignment@.len() + i);
                    assert(new_acc.index as int == cs0.assignment@.len() + i + 1);
                }
            }
            assert(cs.constraints@[cs0.constraints@.len() as int]
                == pre2.constraints@[cs0.constraints@.len() as int]);
        }
        acc = new_acc;
        accv = newv;
        i += 1;
    }
    proof {
        assert(clauses@.subrange(0, n as int) =~= clauses@);
        if matched {
            lemma_acc_product_zero(pi, clauses@, sval);
            assert(accv == 0);
        } else {
            lemma_acc_product_nonzero(pi, clauses@, sval);
            assert(accv != 0);
        }
    }
    let ghost cs_l = *cs;
    let is_sel: Variable = match cs.zero_test(acc) {
        Ok(b) => b,
        Err(e) => {
            proof {
                // under the integral-domain precondition the zero test
                // cannot fail; the arm remains for runs outside it
                assert(false);
            }
            return Err(e);
        },
    };
    proof {
        lemma_extends_trans(*cs, cs_l, cs0);
        assert(cs.value_of(is_sel) == (if matched { 1u64 } else { 0u64 }));
    }
    let ghost cs_z = *cs;
    let first_key: u64 = clauses[0].key;
    let dummy = cs.allocate(first_key);
    proof {
        lemma_extends_trans(*cs, cs_z, cs0);
    }
    let active: Variable = if matched { selected } else { dummy };
    let mut cl: Vec<CaseClause> = Vec::new();
    let mut j: usize = 0;
    while j < n
        invariant
            j <= n,
            n == clauses@.len(),
            cl@ == clauses@.subrange(0, j as int),
        decreases n - j,
    {
        let c: CaseClause = clauses[j];
        cl.push(c);
        proof {
            assert(cl@ =~= clauses@.subrange(0, j as int + 1));
        }
        j += 1;
    }
    proof {
        assert(cl@ =~= clauses@);
    }
    let ghost cs_b = *cs;
    let ghost active_val: u64 = if matched { sval } else { clauses@[0].key };
    proof {
        assert(cs_b.value_of(active) == active_val);
        // the active key is always present among the clause keys
        if !matched {
            assert((clauses@[0]).key == active_val);
        }
        assert(matches_key(clauses@, active_val));
        assert forall|k: int| 0 <= k < cl@.len() implies cs_b.valid(
            (#[trigger] cl@[k]).value,
        ) by {
            assert(cl@[k] == clauses@[k]);
            assert(cs0.valid(clauses@[k].value));
        }
    }
    let cc = CaseConstraint { selected: active, clauses: cl };
    let result = cc.enforce_selection(cs);
    proof {
        lemma_extends_trans(*cs, cs_b, cs0);
        assert(cs.value_of(is_sel) == cs_b.value_of(is_sel));
        assert(cs.assignment@[default.index as int] == cs0.assignment@[default.index as int]);
    }
    let ghost cs_e = *cs;
    let picked = cs.pick(is_sel, result, default);
    proof {
        lemma_extends_trans(*cs, cs_e, cs0);
        let cnt = key_count(clauses@, sval);
        if matched && cnt == 1 {
            assert forall|k: int|
                0 <= k < clauses@.len() && (#[trigger] clauses@[k]).key == sval implies cs.value_of(
                picked,
            ) == cs0.value_of(clauses@[k].value) by {
                assert(cs_e.value_of(result) == cs_b.value_of(clauses@[k].value));
                assert(cs_b.value_of(clauses@[k].value) == cs0.value_of(clauses@[k].value));
            }
        }
        if matched {
            // transfer the first-match witness through the final select
            let j = choose|j: int|
                0 <= j < clauses@.len() && (#[trigger] clauses@[j]).key == sval && (forall|k: int|
                    0 <= k < j ==> (#[trigger] clauses@[k]).key != sval) && cs_e.value_of(result)
                    == cs_b.value_of(clauses@[j].value);
            assert(cs.value_of(picked) == cs_e.value_of(result));
            assert(cs_b.value_of(clauses@[j].value) == cs0.value_of(clauses@[j].value));
            assert(0 <= j < clauses@.len() && (clauses@[j]).key == sval && (forall|k: int|
                0 <= k < j ==> (#[trigger] clauses@[k]).key != sval) && cs.value_of(picked)
                == cs0.value_of(clauses@[j].value));
        }
        if !matched {
            assert(cs.value_of(picked) == cs_e.value_of(default));
            assert(cs_e.value_of(default) == cs0.value_of(default));
        }
        assert(cs.satisfied() <==> cs0.satisfied());
    }
    proof {
        if no_zero_divisors(pi) && n < p {
            let a0 = cs0.assignment@.len() as int;
            let c0w = cs0.constraints@.len() as int;
            assert forall|w: Seq<u64>|
                assignment_over(w, pi, cs.assignment@.len() as int) && #[trigger] range_holds(
                    pi,
                    w,
                    cs.constraints@,
                    c0w,
                    cs.constraints@.len() as int,
                ) implies ((!matches_key(clauses@, w[selected.index as int])
                ==> w[picked.index as int] == w[default.index as int]) && ((matched
                && matches_key(clauses@, w[selected.index as int])) ==> (exists|j: int|
                0 <= j < n && (#[trigger] clauses@[j]).key == w[selected.index as int]
                    && w[picked.index as int] == w[clauses@[j].value.index as int]))) by {
                let sw = w[selected.index as int];
                // the seed constraint pins the chain start to the identity
                assert(cs.constraints@[c0w] == cs_e.constraints@[c0w]);
                assert(cs_e.constraints@[c0w] == cs_b.constraints@[c0w]);
                assert(cs_b.constraints@[c0w] == cs_z.constraints@[c0w]);
                assert(cs_z.constraints@[c0w] == cs_l.constraints@[c0w]);
                assert(constraint_holds(pi, w, cs.constraints@[c0w]));
                assert(cs.constraints@[c0w].a@ == seed_av);
                assert(cs.constraints@[c0w].b@ == seed_bv);
                assert(cs.constraints@[c0w].c@ == seed_cv);
                lemma_lc_eval_unit(pi, w, seed_av);
                lemma_lc_eval_unit(pi, w, seed_bv);
                assert(acc0.index < w.len());
                assert(w[acc0.index as int] < p);
                lemma_lc_eval_unit(pi, w, seed_cv);
                assert((1int * 1int) % pi == 1) by {
                    lemma_small_mod(1nat, pi as nat);
                }
                assert(w[a0] as int == 1);
                // each chain step multiplies by its key-minus-selector factor
                assert(acc.index as int == a0 + n);
                assert(acc.index < cs_l.assignment@.len());
                assert forall|k: int|
                    0 <= k < n implies (w[a0 + k] * sub_mod(
                    pi,
                    (#[trigger] clauses@[k]).key as int,
                    sw as int,
                )) % pi == w[a0 + k + 1] by {
                    assert(cs.constraints@[c0w + 1 + k] == cs_e.constraints@[c0w + 1 + k]);
                    assert(cs_e.constraints@[c0w + 1 + k] == cs_b.constraints@[c0w + 1 + k]);
                    assert(cs_b.constraints@[c0w + 1 + k] == cs_z.constraints@[c0w + 1 + k]);
                    assert(cs_z.constraints@[c0w + 1 + k] == cs_l.constraints@[c0w + 1 + k]);
                    assert(constraint_holds(pi, w, cs.constraints@[c0w + 1 + k]));
                    assert(0 <= a0 + k < w.len());
                    assert(0 <= a0 + k + 1 < w.len());
                    assert(w[a0 + k] < p);
                    assert(w[a0 + k + 1] < p);
                    lemma_lc_eval_unit(pi, w, cs.constraints@[c0w + 1 + k].a@);
                    lemma_lc_eval_const_minus(pi, w, cs.constraints@[c0w + 1 + k].b@);
                    lemma_lc_eval_unit(pi, w, cs.constraints@[c0w + 1 + k].c@);
                }
                lemma_acc_chain(pi, w, clauses@, a0, sw);
                assert(w[a0 + n] as int == acc_product(pi, clauses@, sw));
                // the zero test pins the match flag for this witness
                assert forall|idx: int|
                    cs_l.constraints@.len() <= idx < cs_z.constraints@.len() implies
                    constraint_holds(pi, w, #[trigger] cs_z.constraints@[idx]) by {
                    assert(cs.constraints@[idx] == cs_e.constraints@[idx]);
                    assert(cs_e.constraints@[idx] == cs_b.constraints@[idx]);
                    assert(cs_b.constraints@[idx] == cs_z.constraints@[idx]);
                    assert(constraint_holds(pi, w, cs.constraints@[idx]));
                }
                assert(range_holds(
                    cs_l.modulus as int,
                    w,
                    cs_z.constraints@,
                    cs_l.constraints@.len() as int,
                    cs_z.constraints@.len() as int,
                ));
                assert(assignment_over(w, cs_l.modulus as int, cs_z.assignment@.len() as int));
                assert(w[is_sel.index as int] == (if w[acc.index as int] == 0 {
                    1u64
                } else {
                    0u64
                }));
                // the final select hands over the chosen side for this witness
                assert forall|idx: int|
                    cs_e.constraints@.len() <= idx < cs.constraints@.len() implies
                    constraint_holds(pi, w, #[trigger] cs.constraints@[idx]) by {}
                assert(range_holds(
                    cs_e.modulus as int,
                    w,
                    cs.constraints@,
                    cs_e.constraints@.len() as int,
                    cs.constraints@.len() as int,
                ));
                assert(assignment_over(w, cs_e.modulus as int, cs.assignment@.len() as int));
                if matches_key(clauses@, sw) {
                    lemma_acc_product_zero(pi, clauses@, sw);
                    assert(w[acc.index as int] == 0);
                    assert(w[is_sel.index as int] == 1);
                    assert(w[picked.index as int] == w[result.index as int]);
                    if matched {
                        // the selection block binds the output for this witness
                        assert forall|idx: int|
                            cs_b.constraints@.len() <= idx < cs_e.constraints@.len() implies
                            constraint_holds(pi, w, #[trigger] cs_e.constraints@[idx]) by {
                            assert(cs.constraints@[idx] == cs_e.constraints@[idx]);
                            assert(constraint_holds(pi, w, cs.constraints@[idx]));
                        }
                        assert(range_holds(
                            cs_b.modulus as int,
                            w,
                            cs_e.constraints@,
                            cs_b.constraints@.len() as int,
                            cs_e.constraints@.len() as int,
                        ));
                        assert(assignment_over(
                            w,
                            cs_b.modulus as int,
                            cs_e.assignment@.len() as int,
                        ));
                        let j = choose|j: int|
                            0 <= j < clauses@.len() && (#[trigger] clauses@[j]).key
                                == w[active.index as int] && w[cs_b.assignment@.len() + j] == 1
                                && w[result.index as int] == w[clauses@[j].value.index as int];
                        assert(active == selected);
                        assert(clauses@[j].key == sw);
                        assert(0 <= j < n && (clauses@[j]).key == sw && w[picked.index as int]
                            == w[clauses@[j].value.index as int]);
                    }
                } else {
                    lemma_acc_product_nonzero(pi, clauses@, sw);
                    assert(w[acc.index as int] != 0);
                    assert(w[is_sel.index as int] == 0);
                    assert(w[picked.index as int] == w[default.index as int]);
                }
            }
        }
    }
    Ok(picked)
}


/// Run one independent multiplexer per channel over a shared selector: a
/// clause list and a default per channel, with the results in channel order.
/// Each channel behaves exactly as a separate `case` call on its clause list
/// and default, independent of the other channels.
pub fn multi_case(
    cs: &mut ConstraintSystem,
    selected: Variable,
    cases: &Vec<Vec<CaseClause>>,
    defaults: &Vec<Variable>,
) -> (r: Result<Vec<Variable>, SynthesisError>)
    requires
        old(cs).wf(),
        old(cs).valid(selected),
        cases@.len() == defaults@.len(),
        forall|j: int| 0 <= j < defaults@.len() ==> old(cs).valid(#[trigger] defaults@[j]),
        forall|j: int| 0 <= j < cases@.len() ==> 1 <= (#[trigger] cases@[j])@.len(),
        forall|j: int, i: int|
            0 <= j < cases@.len() && 0 <= i < cases@[j]@.len() ==> old(cs).valid(
                (#[trigger] cases@[j]@[i]).value,
            ),
        forall|j: int, i: int|
            0 <= j < cases@.len() && 0 <= i < cases@[j]@.len() ==> (#[trigger] cases@[j]@[i]).key
                < old(cs).modulus,
        no_zero_divisors(old(cs).modulus as int),
    ensures
        final(cs).wf(),
        final(cs).extends(*old(cs)),
        r is Ok,
        match r {
            Ok(results) => {
                &&& results@.len() == cases@.len()
                &&& (forall|j: int|
                    0 <= j < results@.len() ==> final(cs).valid(#[trigger] results@[j]))
                &&& (forall|j: int, k: int|
                    0 <= j < cases@.len() && key_count(cases@[j]@, old(cs).value_of(selected))
                        == 1 && 0 <= k < cases@[j]@.len() && (#[trigger] cases@[j]@[k]).key == old(
                        cs,
                    ).value_of(selected) ==> final(cs).value_of(results@[j]) == old(cs).value_of(
                        cases@[j]@[k].value,
                    ))
                &&& (forall|j: int|
                    0 <= j < cases@.len() && matches_key((#[trigger] cases@[j])@, old(
                        cs,
                    ).value_of(selected)) ==> (exists|k: int|
                        0 <= k < cases@[j]@.len() && (#[trigger] cases@[j]@[k]).key == old(
                            cs,
                        ).value_of(selected) && (forall|t: int|
                            0 <= t < k ==> (#[trigger] cases@[j]@[t]).key != old(cs).value_of(
                                selected,
                            )) && final(cs).value_of(results@[j]) == old(cs).value_of(
                            cases@[j]@[k].value,
                        )))
                &&& (forall|j: int|
                    0 <= j < cases@.len() && !matches_key((#[trigger] cases@[j])@, old(
                        cs,
                    ).value_of(selected)) ==> final(cs).value_of(results@[j]) == old(cs).value_of(
                        defaults@[j],
                    ))
                &&& (final(cs).satisfied() <==> old(cs).satisfied())
            },
            Err(_) => true,
        },
{
    let ghost cs0 = *cs;
    let p: u64 = cs.modulus;
    let sval: u64 = cs.value(selected);
    let m: usize = cases.len();
    let mut results: Vec<Variable> = Vec::new();
    let mut i: usize = 0;
    while i < m
        invariant
            cs0 == *old(cs),
            cs.wf(),
            cs.extends(cs0),
            cs0.wf(),
            cs.modulus == p,
            m == cases@.len(),
            cases@.len() == defaults@.len(),
            i <= m,
            forall|j: int| 0 <= j < m ==> cs0.valid(#[trigger] defaults@[j]),
            forall|j: int| 0 <= j < m ==> 1 <= (#[trigger] cases@[j])@.len(),
            forall|j: int, k: int|
                0 <= j < m && 0 <= k < cases@[j]@.len() ==> cs0.valid(
                    (#[trigger] cases@[j]@[k]).value,
                ),
            forall|j: int, k: int|
                0 <= j < m && 0 <= k < cases@[j]@.len() ==> (#[trigger] cases@[j]@[k]).key < p,
            cs0.valid(selected),
            sval == cs0.value_of(selected),
            no_zero_divisors(p as int),
            results@.len() == i,
            forall|j: int| 0 <= j < i ==> cs.valid(#[trigger] results@[j]),
            forall|j: int, k: int|
                0 <= j < i && key_count(cases@[j]@, sval) == 1 && 0 <= k < cases@[j]@.len() && (
                #[trigger] cases@[j]@[k]).key == sval ==> cs.value_of(results@[j])
                    == cs0.value_of(cases@[j]@[k].value),
            forall|j: int|
                0 <= j < i && matches_key((#[trigger] cases@[j])@, sval) ==> (exists|k: int|
                    0 <= k < cases@[j]@.len() && (#[trigger] cases@[j]@[k]).key == sval && (
                    forall|t: int|
                        0 <= t < k ==> (#[trigger] cases@[j]@[t]).key != sval) && cs.value_of(
                        results@[j],
                    ) == cs0.value_of(cases@[j]@[k].value)),
            forall|j: int|
                0 <= j < i && !matches_key((#[trigger] cases@[j])@, sval) ==> cs.value_of(
                    results@[j],
                ) == cs0.value_of(defaults@[j]),
            cs.satisfied() <==> cs0.satisfied(),
        decreases m - i,
    {
        let ghost pre = *cs;
        let branch: &Vec<CaseClause> = &cases[i];
        let def: Variable = defaults[i];
        proof {
            assert(pre.value_of(selected) == sval);
            assert(pre.valid(def));
            assert forall|k: int| 0 <= k < branch@.len() implies pre.valid(
                (#[trigger] branch@[k]).value,
            ) by {
                assert(cs0.valid(cases@[i as int]@[k].value));
            }
            assert forall|k: int| 0 <= k < branch@.len() implies (#[trigger] branch@[k]).key
                < p by {
                assert(cases@[i as int]@[k].key < p);
            }
        }
        let res_i: Variable = match case(cs, selected, branch, def) {
            Ok(v) => v,
            Err(e) => {
                proof {
                    // each channel's construction succeeds under the
                    // integral-domain precondition
                    assert(false);
                }
                return Err(e);
            },
        };
        proof {
            lemma_extends_trans(*cs, pre, cs0);
        }
        let ghost old_results = results@;
        results.push(res_i);
        proof {
            assert forall|j: int| 0 <= j < i + 1 implies cs.valid(#[trigger] results@[j]) by {
                if j < i {
                    assert(pre.valid(old_results[j]));
                }
            }
            assert forall|j: int, k: int|
                0 <= j < i + 1 && key_count(cases@[j]@, sval) == 1 && 0 <= k < cases@[j]@.len()
                    && (#[trigger] cases@[j]@[k]).key == sval implies cs.value_of(results@[j])
                == cs0.value_of(cases@[j]@[k].value) by {
                if j < i {
                    assert(pre.valid(old_results[j]));
                    assert(cs.value_of(old_results[j]) == pre.value_of(old_results[j]));
                } else {
                    assert(cs.value_of(res_i) == pre.value_of(cases@[i as int]@[k].value));
                    assert(pre.value_of(cases@[i as int]@[k].value) == cs0.value_of(
                        cases@[i as int]@[k].value,
                    ));
                }
            }
            assert forall|j: int|
                0 <= j < i + 1 && matches_key((#[trigger] cases@[j])@, sval) implies (exists|
                k: int,
            |
                0 <= k < cases@[j]@.len() && (#[trigger] cases@[j]@[k]).key == sval && (forall|
                    t: int,
                |
                    0 <= t < k ==> (#[trigger] cases@[j]@[t]).key != sval) && cs.value_of(
                    results@[j],
                ) == cs0.value_of(cases@[j]@[k].value)) by {
                if j < i {
                    let k = choose|k: int|
                        0 <= k < cases@[j]@.len() && (#[trigger] cases@[j]@[k]).key == sval && (
                        forall|t: int|
                            0 <= t < k ==> (#[trigger] cases@[j]@[t]).key != sval)
                            && pre.value_of(old_results[j]) == cs0.value_of(cases@[j]@[k].value);
                    assert(pre.valid(old_results[j]));
                    assert(cs.value_of(old_results[j]) == pre.value_of(old_results[j]));
                    assert(0 <= k < cases@[j]@.len() && (cases@[j]@[k]).key == sval && (forall|
                        t: int,
                    |
                        0 <= t < k ==> (#[trigger] cases@[j]@[t]).key != sval) && cs.value_of(
                        results@[j],
                    ) == cs0.value_of(cases@[j]@[k].value));
                } else {
                    assert(matches_key(branch@, sval));
                    let k = choose|k: int|
                        0 <= k < branch@.len() && (#[trigger] branch@[k]).key == sval && (forall|
                            t: int,
                        |
                            0 <= t < k ==> (#[trigger] branch@[t]).key != sval) && cs.value_of(
                            res_i,
                        ) == pre.value_of(branch@[k].value);
                    assert(pre.value_of(cases@[i as int]@[k].value) == cs0.value_of(
                        cases@[i as int]@[k].value,
                    ));
                    assert(0 <= k < cases@[j]@.len() && (cases@[j]@[k]).key == sval && (forall|
                        t: int,
                    |
                        0 <= t < k ==> (#[trigger] cases@[j]@[t]).key != sval) && cs.value_of(
                        results@[j],
                    ) == cs0.value_of(cases@[j]@[k].value));
                }
            }
            assert forall|j: int|
                0 <= j < i + 1 && !matches_key((#[trigger] cases@[j])@, sval) implies cs.value_of(
                results@[j],
            ) == cs0.value_of(defaults@[j]) by {
                if j < i {
                    assert(pre.valid(old_results[j]));
                    assert(cs.value_of(old_results[j]) == pre.value_of(old_results[j]));
                } else {
                    assert(cs.value_of(res_i) == pre.value_of(defaults@[i as int]));
                    assert(pre.value_of(defaults@[i as int]) == cs0.value_of(
                        defaults@[i as int],
                    ));
                }
            }
        }
        i += 1;
    }
    Ok(results)
}

} // verus!
