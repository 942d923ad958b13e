//! Laws of the selection constraints.
//!
//! The gadget enforces, for the indicator variables it allocates, one boolean
//! constraint `b * (1 - b) = 0` per indicator, the sum constraint
//! `Sum b_i = 1`, the key constraint `Sum key_i * b_i = selector`, and the
//! value constraints whose composition gives `Sum value_i * b_i = output`.
//! The theorems here are stated over the residues that arbitrary assignments
//! give those equations: an assignment satisfying them has a one-hot
//! indicator vector, and its output is the value of a clause whose key
//! equals its selector.
//!
//! These theorems are tied to the emitted constraints themselves:
//! `allocate_bit`, `zero_test`, `pick`, `bit_dot_product` and
//! `enforce_selection` each promise their conclusions for every assignment
//! that satisfies the constraints they append (see `range_holds`), with
//! `lemma_boolean_constraint_forces_bit` carrying the step from the recorded
//! boolean constraint shape to its residue equation and the evaluation
//! lemmas below carrying the sum, key and value equations.

use vstd::prelude::*;

verus! {

use crate::field::lemma_neg_coeff;
use crate::field::no_zero_divisors;
use crate::r1cs::constraint_holds;
use crate::r1cs::lc_eval;
use crate::r1cs::lemma_lc_eval2;
use crate::r1cs::lemma_lc_eval_unit;
use crate::r1cs::Constraint;
use crate::r1cs::Variable;
use vstd::arithmetic::div_mod::lemma_add_mod_noop;
use vstd::arithmetic::div_mod::lemma_mod_add_multiples_vanish;
use vstd::arithmetic::div_mod::lemma_mod_bound;
use vstd::arithmetic::div_mod::lemma_small_mod;

/// Sum of a sequence of residues, reduced at every step.
pub open spec fn sum_mod(p: int, s: Seq<u64>) -> int
    decreases s.len(),
{
    if s.len() == 0 {
        0
    } else {
        (sum_mod(p, s.drop_last()) + s.last()) % p
    }
}

/// Weighted sum `Σ weights[i] * s[i]`, reduced at every step.
pub open spec fn weighted_sum_mod(p: int, weights: Seq<u64>, s: Seq<u64>) -> int
    decreases s.len(),
{
    if s.len() == 0 {
        0
    } else {
        (weighted_sum_mod(p, weights.drop_last(), s.drop_last()) + weights.last() * s.last()) % p
    }
}

/// Number of entries equal to one.
pub open spec fn ones_count(s: Seq<u64>) -> nat
    decreases s.len(),
{
    if s.len() == 0 {
        0
    } else {
        ones_count(s.drop_last()) + (if s.last() == 1 {
            1nat
        } else {
            0nat
        })
    }
}

/// The residue form of the boolean constraint `b * (1 - b) = 0`.
pub open spec fn bit_constrained(p: int, b: u64) -> bool {
    (b * ((1 - b) % p)) % p == 0
}

/// Over a modulus with no zero divisors, the boolean constraint forces a
/// residue to zero or one.
pub proof fn lemma_bit_forced(p: int, b: u64)
    requires
        p >= 2,
        no_zero_divisors(p),
        (b as int) < p,
        bit_constrained(p, b),
    ensures
        b == 0 || b == 1,
{
    if b != 0 && b != 1 {
        let c = (1 - b as int) % p;
        lemma_mod_add_multiples_vanish(1 - b as int, p);
        lemma_small_mod((1 - b + p) as nat, p as nat);
        assert(c == 1 - b + p);
        assert(0 < c < p);
        assert((b as int * c) % p != 0);
        assert(false);
    }
}

/// The reduced sum of a zero/one sequence is the count of its ones, reduced.
pub proof fn lemma_sum_mod_ones(p: int, bits: Seq<u64>)
    requires
        p >= 2,
        forall|i: int| 0 <= i < bits.len() ==> (#[trigger] bits[i]) == 0 || bits[i] == 1,
    ensures
        sum_mod(p, bits) == ones_count(bits) as int % p,
    decreases bits.len(),
{
    if bits.len() == 0 {
        lemma_small_mod(0nat, p as nat);
    } else {
        assert forall|i: int|
            0 <= i < bits.drop_last().len() implies (#[trigger] bits.drop_last()[i]) == 0
            || bits.drop_last()[i] == 1 by {
            assert(bits.drop_last()[i] == bits[i]);
        }
        lemma_sum_mod_ones(p, bits.drop_last());
        let lastv = bits.last() as int;
        assert(lastv == 0 || lastv == 1);
        lemma_small_mod(lastv as nat, p as nat);
        lemma_add_mod_noop(ones_count(bits.drop_last()) as int, lastv, p);
    }
}

/// The count of ones never exceeds the length.
pub proof fn lemma_ones_le_len(s: Seq<u64>)
    ensures
        ones_count(s) <= s.len(),
    decreases s.len(),
{
    if s.len() > 0 {
        lemma_ones_le_len(s.drop_last());
    }
}

/// A zero ones-count means no entry is one.
pub proof fn lemma_ones_zero(s: Seq<u64>)
    requires
        ones_count(s) == 0,
    ensures
        forall|i: int| 0 <= i < s.len() ==> (#[trigger] s[i]) != 1,
    decreases s.len(),
{
    if s.len() > 0 {
        lemma_ones_zero(s.drop_last());
        assert forall|i: int| 0 <= i < s.len() implies (#[trigger] s[i]) != 1 by {
            if i < s.len() - 1 {
                assert(s.drop_last()[i] == s[i]);
                assert(s.drop_last()[i] != 1);
            }
        }
    }
}

/// A ones-count of one means a unique entry is one.
pub proof fn lemma_ones_unique(s: Seq<u64>)
    requires
        ones_count(s) == 1,
    ensures
        exists|j: int| 0 <= j < s.len() && #[trigger] s[j] == 1,
        forall|j: int, k: int|
            0 <= j < s.len() && 0 <= k < s.len() && #[trigger] s[j] == 1 && #[trigger] s[k] == 1
                ==> j == k,
    decreases s.len(),
{
    assert(s.len() > 0);
    if s.last() == 1 {
        assert(ones_count(s.drop_last()) == 0);
        lemma_ones_zero(s.drop_last());
        assert(s[s.len() - 1] == 1);
        assert forall|j: int, k: int|
            0 <= j < s.len() && 0 <= k < s.len() && #[trigger] s[j] == 1 && #[trigger] s[k]
                == 1 implies j == k by {
            if j < s.len() - 1 {
                assert(s.drop_last()[j] == s[j]);
            }
            if k < s.len() - 1 {
                assert(s.drop_last()[k] == s[k]);
            }
        }
    } else {
        lemma_ones_unique(s.drop_last());
        let j = choose|j: int| 0 <= j < s.drop_last().len() && #[trigger] s.drop_last()[j] == 1;
        assert(s[j] == 1);
        assert forall|a: int, b: int|
            0 <= a < s.len() && 0 <= b < s.len() && #[trigger] s[a] == 1 && #[trigger] s[b]
                == 1 implies a == b by {
            assert(a < s.len() - 1);
            assert(b < s.len() - 1);
            assert(s.drop_last()[a] == s[a]);
            assert(s.drop_last()[b] == s[b]);
        }
    }
}

/// Exactly-one-hot: in every witness satisfying the per-indicator boolean
/// constraints and the sum constraint `Σ b_i = 1`, over a modulus with no
/// zero divisors and with fewer indicators than the modulus, every indicator
/// is zero or one and exactly one indicator is one.
pub proof fn lemma_exactly_one_hot(p: int, bits: Seq<u64>)
    requires
        p >= 2,
        no_zero_divisors(p),
        bits.len() < p,
        forall|i: int| 0 <= i < bits.len() ==> (#[trigger] bits[i]) < p,
        forall|i: int| 0 <= i < bits.len() ==> bit_constrained(p, #[trigger] bits[i]),
        sum_mod(p, bits) == 1,
    ensures
        forall|i: int| 0 <= i < bits.len() ==> (#[trigger] bits[i]) == 0 || bits[i] == 1,
        ones_count(bits) == 1,
        exists|j: int| 0 <= j < bits.len() && #[trigger] bits[j] == 1,
        forall|j: int, k: int|
            0 <= j < bits.len() && 0 <= k < bits.len() && #[trigger] bits[j] == 1
                && #[trigger] bits[k] == 1 ==> j == k,
{
    assert forall|i: int| 0 <= i < bits.len() implies (#[trigger] bits[i]) == 0 || bits[i]
        == 1 by {
        lemma_bit_forced(p, bits[i]);
    }
    lemma_sum_mod_ones(p, bits);
    lemma_ones_le_len(bits);
    lemma_small_mod(ones_count(bits), p as nat);
    lemma_ones_unique(bits);
}

/// A weighted sum over all-zero multipliers is zero.
pub proof fn lemma_weighted_sum_zeros(p: int, weights: Seq<u64>, bits: Seq<u64>)
    requires
        p >= 2,
        weights.len() == bits.len(),
        forall|i: int| 0 <= i < bits.len() ==> (#[trigger] bits[i]) == 0,
    ensures
        weighted_sum_mod(p, weights, bits) == 0,
    decreases bits.len(),
{
    if bits.len() > 0 {
        assert forall|i: int|
            0 <= i < bits.drop_last().len() implies (#[trigger] bits.drop_last()[i]) == 0 by {
            assert(bits.drop_last()[i] == bits[i]);
        }
        lemma_weighted_sum_zeros(p, weights.drop_last(), bits.drop_last());
        assert(bits.last() == 0);
        assert(weights.last() as int * bits.last() as int == 0) by (nonlinear_arith)
            requires bits.last() as int == 0;
        lemma_small_mod(0nat, p as nat);
    }
}

/// A weighted sum over a one-hot multiplier vector picks out the weight at
/// the hot index.
pub proof fn lemma_weighted_sum_one_hot(p: int, weights: Seq<u64>, bits: Seq<u64>, j: int)
    requires
        p >= 2,
        weights.len() == bits.len(),
        forall|i: int| 0 <= i < bits.len() ==> (#[trigger] bits[i]) == 0 || bits[i] == 1,
        forall|i: int| 0 <= i < weights.len() ==> (#[trigger] weights[i]) < p,
        0 <= j < bits.len(),
        bits[j] == 1,
        forall|k: int| 0 <= k < bits.len() && #[trigger] bits[k] == 1 ==> k == j,
    ensures
        weighted_sum_mod(p, weights, bits) == weights[j],
    decreases bits.len(),
{
    let n = bits.len() - 1;
    assert forall|i: int| 0 <= i < n implies (#[trigger] bits.drop_last()[i]) == 0
        || bits.drop_last()[i] == 1 by {
        assert(bits.drop_last()[i] == bits[i]);
    }
    assert forall|i: int| 0 <= i < n implies (#[trigger] weights.drop_last()[i]) < p by {
        assert(weights.drop_last()[i] == weights[i]);
    }
    if j == n {
        assert forall|i: int| 0 <= i < n implies (#[trigger] bits.drop_last()[i]) == 0 by {
            assert(bits.drop_last()[i] == bits[i]);
            if bits[i] == 1 {
                assert(i == j);
            }
        }
        lemma_weighted_sum_zeros(p, weights.drop_last(), bits.drop_last());
        assert(weights.last() as int * bits.last() as int == weights.last() as int)
            by (nonlinear_arith)
            requires bits.last() as int == 1;
        lemma_small_mod(weights[j] as nat, p as nat);
    } else {
        assert(bits.last() != 1) by {
            if bits[n] == 1 {
                assert(n == j);
            }
        }
        assert(bits.last() == 0);
        assert(weights.last() as int * bits.last() as int == 0) by (nonlinear_arith)
            requires bits.last() as int == 0;
        assert(bits.drop_last()[j] == bits[j]);
        assert forall|k: int|
            0 <= k < n && #[trigger] bits.drop_last()[k] == 1 implies k == j by {
            assert(bits.drop_last()[k] == bits[k]);
        }
        lemma_weighted_sum_one_hot(p, weights.drop_last(), bits.drop_last(), j);
        assert(weights.drop_last()[j] == weights[j]);
        lemma_small_mod(weights[j] as nat, p as nat);
    }
}

/// Soundness of every satisfying witness of the selection constraints: if
/// the indicator residues satisfy their boolean constraints, sum to one, and
/// their weighted sums against the clause keys and the clause values give
/// the selector and the output, then the output is the value of a clause
/// whose key equals the selector. With duplicate keys this still pins the
/// output to one of the tied clauses' values, never a third value; with a
/// unique match it pins it to that clause's value.
pub proof fn lemma_witness_soundness(
    p: int,
    bits: Seq<u64>,
    keys: Seq<u64>,
    vals: Seq<u64>,
    s: u64,
    out: u64,
)
    requires
        p >= 2,
        no_zero_divisors(p),
        bits.len() == keys.len(),
        bits.len() == vals.len(),
        bits.len() < p,
        forall|i: int| 0 <= i < bits.len() ==> (#[trigger] bits[i]) < p,
        forall|i: int| 0 <= i < keys.len() ==> (#[trigger] keys[i]) < p,
        forall|i: int| 0 <= i < vals.len() ==> (#[trigger] vals[i]) < p,
        forall|i: int| 0 <= i < bits.len() ==> bit_constrained(p, #[trigger] bits[i]),
        sum_mod(p, bits) == 1,
        weighted_sum_mod(p, keys, bits) == s as int,
        weighted_sum_mod(p, vals, bits) == out as int,
    ensures
        exists|j: int| 0 <= j < keys.len() && (#[trigger] keys[j]) == s && vals[j] == out,
{
    lemma_exactly_one_hot(p, bits);
    let j = choose|j: int| 0 <= j < bits.len() && #[trigger] bits[j] == 1;
    assert forall|k: int| 0 <= k < bits.len() && #[trigger] bits[k] == 1 implies k == j by {}
    lemma_weighted_sum_one_hot(p, keys, bits, j);
    lemma_weighted_sum_one_hot(p, vals, bits, j);
    assert(keys[j] == s && vals[j] == out);
}


/// The boolean constraint emitted for each indicator — `A = [(1, b)]`,
/// `B = [(1, one), (p - 1, b)]`, `C = []` — forces, in any witness that
/// satisfies it (not only the recorded one), a zero-or-one value at `b`.
/// This grounds the one-hot law in the constraints the gadget records.
pub proof fn lemma_boolean_constraint_forces_bit(p: int, w: Seq<u64>, c: Constraint, b: usize)
    requires
        p >= 2,
        p - 1 <= u64::MAX,
        no_zero_divisors(p),
        c.a@ == seq![(1u64, b)],
        c.b@ == seq![(1u64, 0usize), ((p - 1) as u64, b)],
        c.c@.len() == 0,
        b < w.len(),
        w[0] == 1,
        w[b as int] < p,
        constraint_holds(p, w, c),
    ensures
        w[b as int] == 0 || w[b as int] == 1,
{
    let bv = w[b as int] as int;
    lemma_lc_eval_unit(p, w, c.a@);
    lemma_lc_eval2(p, w, c.b@);
    lemma_small_mod(1nat, p as nat);
    assert(1 * w[0int] == 1);
    lemma_neg_coeff(p, 1, bv);
    assert(lc_eval(p, w, c.b@) == (1 - bv) % p);
    assert(lc_eval(p, w, c.c@) == 0);
    assert((bv * ((1 - bv) % p)) % p == 0);
    assert(bit_constrained(p, w[b as int]));
    lemma_bit_forced(p, w[b as int]);
}


/// A linear combination of unit coefficients over the given variables
/// evaluates to the reduced sum of the variables' values.
pub proof fn lemma_lc_eval_unit_sum(p: int, w: Seq<u64>, lc: Seq<(u64, usize)>, vars: Seq<Variable>)
    requires
        lc.len() == vars.len(),
        forall|k: int| 0 <= k < lc.len() ==> #[trigger] lc[k] == (1u64, vars[k].index),
    ensures
        lc_eval(p, w, lc) == sum_mod(p, vars.map_values(|v: Variable| w[v.index as int])),
    decreases lc.len(),
{
    let f = |v: Variable| w[v.index as int];
    if lc.len() == 0 {
        assert(vars.map_values(f).len() == 0);
    } else {
        assert forall|k: int| 0 <= k < lc.drop_last().len() implies #[trigger] lc.drop_last()[k]
            == (1u64, vars.drop_last()[k].index) by {
            assert(lc.drop_last()[k] == lc[k]);
            assert(vars.drop_last()[k] == vars[k]);
        }
        lemma_lc_eval_unit_sum(p, w, lc.drop_last(), vars.drop_last());
        assert(vars.drop_last().map_values(f) =~= vars.map_values(f).drop_last());
        assert(vars.map_values(f).last() == w[vars.last().index as int]);
        assert(lc.last() == (1u64, vars.last().index));
        assert(1 * w[vars.last().index as int] == w[vars.last().index as int]);
    }
}


/// A linear combination whose terms are `(weights[k], vars[k])` evaluates to
/// the reduced weighted sum of the variables' values.
pub proof fn lemma_lc_eval_weighted_sum(
    p: int,
    w: Seq<u64>,
    lc: Seq<(u64, usize)>,
    weights: Seq<u64>,
    vars: Seq<Variable>,
)
    requires
        lc.len() == vars.len(),
        weights.len() == vars.len(),
        forall|k: int| 0 <= k < lc.len() ==> #[trigger] lc[k] == (weights[k], vars[k].index),
    ensures
        lc_eval(p, w, lc) == weighted_sum_mod(
            p,
            weights,
            vars.map_values(|v: Variable| w[v.index as int]),
        ),
    decreases lc.len(),
{
    let f = |v: Variable| w[v.index as int];
    if lc.len() == 0 {
        assert(vars.map_values(f).len() == 0);
    } else {
        assert forall|k: int| 0 <= k < lc.drop_last().len() implies #[trigger] lc.drop_last()[k]
            == (weights.drop_last()[k], vars.drop_last()[k].index) by {
            assert(lc.drop_last()[k] == lc[k]);
            assert(weights.drop_last()[k] == weights[k]);
            assert(vars.drop_last()[k] == vars[k]);
        }
        lemma_lc_eval_weighted_sum(p, w, lc.drop_last(), weights.drop_last(), vars.drop_last());
        assert(vars.drop_last().map_values(f) =~= vars.map_values(f).drop_last());
        assert(vars.map_values(f).last() == w[vars.last().index as int]);
        assert(lc.last() == (weights.last(), vars.last().index));
    }
}

/// The reduced sum stays a residue.
pub proof fn lemma_sum_mod_bounds(p: int, s: Seq<u64>)
    requires
        p >= 2,
    ensures
        0 <= sum_mod(p, s) < p,
    decreases s.len(),
{
    if s.len() > 0 {
        lemma_sum_mod_bounds(p, s.drop_last());
        lemma_mod_bound(sum_mod(p, s.drop_last()) + s.last(), p);
    }
}

/// The reduced weighted sum stays a residue.
pub proof fn lemma_weighted_sum_mod_bounds(p: int, weights: Seq<u64>, s: Seq<u64>)
    requires
        p >= 2,
    ensures
        0 <= weighted_sum_mod(p, weights, s) < p,
    decreases s.len(),
{
    if s.len() > 0 {
        lemma_weighted_sum_mod_bounds(p, weights.drop_last(), s.drop_last());
        lemma_mod_bound(
            weighted_sum_mod(p, weights.drop_last(), s.drop_last()) + weights.last() * s.last(),
            p,
        );
    }
}

} // verus!
