//! Prime-field arithmetic on residues.
//!
//! A field element is a residue `0 <= x < p` for a modulus `p` chosen by the
//! caller of the gadget. All gadget witness arithmetic reduces modulo `p`.

use vstd::prelude::*;

verus! {

use vstd::arithmetic::div_mod::lemma_fundamental_div_mod;
use vstd::arithmetic::div_mod::lemma_mod_add_multiples_vanish;
use vstd::arithmetic::div_mod::lemma_mod_bound;
use vstd::arithmetic::div_mod::lemma_mod_self_0;
use vstd::arithmetic::div_mod::lemma_mul_mod_noop_left;
use vstd::arithmetic::div_mod::lemma_mul_mod_noop_right;
use vstd::arithmetic::div_mod::lemma_small_mod;
use vstd::arithmetic::div_mod::lemma_sub_mod_noop;
use vstd::arithmetic::mul::lemma_mul_upper_bound;

/// The modulus admits no zero divisors: the product of two nonzero residues
/// is nonzero. This holds exactly when the modulus is prime, and it is the
/// correctness precondition of the accumulator-product match technique.
pub open spec fn no_zero_divisors(p: int) -> bool {
    forall|a: int, b: int| 0 < a < p && 0 < b < p ==> #[trigger] ((a * b) % p) != 0
}

/// Residue of `a + b` modulo `p`.
pub open spec fn add_mod(p: int, a: int, b: int) -> int {
    (a + b) % p
}

/// Residue of `a - b` modulo `p` (always in `[0, p)` for `p > 0`).
pub open spec fn sub_mod(p: int, a: int, b: int) -> int {
    (a - b) % p
}

/// Residue of `a * b` modulo `p`.
pub open spec fn mul_mod(p: int, a: int, b: int) -> int {
    (a * b) % p
}

/// Field addition of two residues.
pub fn fe_add(p: u64, a: u64, b: u64) -> (r: u64)
    requires
        p >= 2,
        a < p,
        b < p,
    ensures
        r < p,
        r as int == add_mod(p as int, a as int, b as int),
{
    let s: u128 = (a as u128) + (b as u128);
    let m: u128 = s % (p as u128);
    proof {
        lemma_mod_bound(s as int, p as int);
    }
    m as u64
}

/// Field subtraction of two residues.
pub fn fe_sub(p: u64, a: u64, b: u64) -> (r: u64)
    requires
        p >= 2,
        a < p,
        b < p,
    ensures
        r < p,
        r as int == sub_mod(p as int, a as int, b as int),
{
    let s: u128 = (a as u128) + (p as u128) - (b as u128);
    let m: u128 = s % (p as u128);
    proof {
        lemma_mod_bound(s as int, p as int);
        lemma_mod_add_multiples_vanish(a as int - b as int, p as int);
    }
    m as u64
}

/// Field multiplication of two residues.
pub fn fe_mul(p: u64, a: u64, b: u64) -> (r: u64)
    requires
        p >= 2,
        a < p,
        b < p,
    ensures
        r < p,
        r as int == mul_mod(p as int, a as int, b as int),
{
    proof {
        lemma_mul_upper_bound(a as int, p as int - 1, b as int, p as int - 1);
        lemma_mul_upper_bound(p as int - 1, u64::MAX as int, p as int - 1, u64::MAX as int);
    }
    let s: u128 = (a as u128) * (b as u128);
    let m: u128 = s % (p as u128);
    proof {
        lemma_mod_bound(s as int, p as int);
    }
    m as u64
}

/// Multiplicative inverse of a nonzero residue, by the extended Euclidean
/// algorithm. The running remainders stay congruent to known multiples of
/// `v`, and the inputs stay integer combinations of the remainders, so the
/// final remainder `g` divides both `v` and `p`. When `g` is `1`, the
/// multiple is the inverse; otherwise `g` exhibits a zero divisor of the
/// modulus, so over a modulus with no zero divisors (a prime) an inverse is
/// always found.
pub fn fe_inverse(p: u64, v: u64) -> (r: Option<u64>)
    requires
        p >= 2,
        0 < v < p,
    ensures
        r matches Some(i) ==> i < p && mul_mod(p as int, v as int, i as int) == 1,
        no_zero_divisors(p as int) ==> r is Some,
{
    let mut r0: u64 = p;
    let mut r1: u64 = v;
    let mut x0: u64 = 0;
    let mut x1: u64 = 1;
    let ghost mut a0: int = 0;
    let ghost mut b0: int = 1;
    let ghost mut a1: int = 1;
    let ghost mut b1: int = 0;
    proof {
        lemma_mod_self_0(p as int);
        lemma_small_mod(v as nat, p as nat);
        lemma_small_mod(0nat, p as nat);
        assert(x0 as int * v as int == 0) by (nonlinear_arith)
            requires x0 as int == 0;
        assert(x1 as int * v as int == v as int) by (nonlinear_arith)
            requires x1 as int == 1;
    }
    while r1 > 0
        invariant
            p >= 2,
            0 < v < p,
            0 < r0 <= p,
            r1 < r0,
            x0 < p,
            x1 < p,
            (x0 as int * v as int) % (p as int) == (r0 as int) % (p as int),
            (x1 as int * v as int) % (p as int) == (r1 as int) % (p as int),
            v as int == a0 * r0 + b0 * r1,
            p as int == a1 * r0 + b1 * r1,
        decreases r1,
    {
        let q: u64 = r0 / r1;
        let r2: u64 = r0 % r1;
        let qm: u64 = q % p;
        let t: u64 = fe_mul(p, qm, x1);
        let x2: u64 = fe_sub(p, x0, t);
        proof {
            let pp = p as int;
            let vv = v as int;
            lemma_fundamental_div_mod(r0 as int, r1 as int);
            assert(r0 as int - q as int * r1 as int == r2 as int);
            // t is congruent to q * x1, so q * r1 modulo p
            lemma_mul_mod_noop_left(q as int, x1 as int, pp);
            assert(t as int == (q as int * x1 as int) % pp);
            lemma_mul_mod_noop_left(q as int * x1 as int, vv, pp);
            assert((t as int * vv) % pp == (q as int * x1 as int * vv) % pp);
            assert(q as int * x1 as int * vv == q as int * (x1 as int * vv)) by (nonlinear_arith);
            lemma_mul_mod_noop_right(q as int, x1 as int * vv, pp);
            lemma_mul_mod_noop_right(q as int, r1 as int, pp);
            assert((t as int * vv) % pp == (q as int * r1 as int) % pp);
            // the next multiple: x2 * v is congruent to r0 - q * r1 == r2
            lemma_mul_mod_noop_left(x0 as int - t as int, vv, pp);
            assert(x2 as int * vv % pp == ((x0 as int - t as int) * vv) % pp);
            assert((x0 as int - t as int) * vv == x0 as int * vv - t as int * vv)
                by (nonlinear_arith);
            lemma_sub_mod_noop(x0 as int * vv, t as int * vv, pp);
            lemma_sub_mod_noop(r0 as int, q as int * r1 as int, pp);
            assert((x2 as int * vv) % pp == (r0 as int - q as int * r1 as int) % pp);
            lemma_small_mod(r2 as nat, p as nat);
            // the inputs stay combinations of the new remainder pair
            let na0 = b0 + q as int * a0;
            let nb0 = a0;
            let na1 = b1 + q as int * a1;
            let nb1 = a1;
            assert(a0 * r0 + b0 * r1 == na0 * r1 + nb0 * r2) by (nonlinear_arith)
                requires r0 as int == q as int * r1 + r2 as int, na0 == b0 + q as int * a0, nb0 == a0;
            assert(a1 * r0 + b1 * r1 == na1 * r1 + nb1 * r2) by (nonlinear_arith)
                requires r0 as int == q as int * r1 + r2 as int, na1 == b1 + q as int * a1, nb1 == a1;
            a0 = na0;
            b0 = nb0;
            a1 = na1;
            b1 = nb1;
        }
        r0 = r1;
        r1 = r2;
        x0 = x1;
        x1 = x2;
    }
    // r1 == 0: the final remainder divides both v and p
    proof {
        assert(v as int == a0 * r0);
        assert(p as int == a1 * r0);
    }
    if r0 == 1 {
        proof {
            lemma_small_mod(1nat, p as nat);
            assert((x0 as int * v as int) % (p as int) == 1);
            assert(v as int * x0 as int == x0 as int * v as int) by (nonlinear_arith);
        }
        Some(x0)
    } else {
        proof {
            let pp = p as int;
            let g = r0 as int;
            // a nonzero multiple bounds its factors
            assert(a0 >= 1) by (nonlinear_arith)
                requires a0 * g == v as int, v as int > 0, g > 0;
            assert(g <= v as int) by (nonlinear_arith)
                requires a0 * g == v as int, a0 >= 1, g > 0;
            assert(a1 >= 1) by (nonlinear_arith)
                requires a1 * g == pp, pp > 0, g > 0;
            assert(a1 < pp) by (nonlinear_arith)
                requires a1 * g == pp, a1 >= 1, g >= 2;
            if no_zero_divisors(pp) {
                // g and a1 are a pair of zero divisors: g * a1 == p
                assert(g * a1 == pp) by (nonlinear_arith)
                    requires a1 * g == pp;
                lemma_mod_self_0(pp);
                assert((g * a1) % pp == 0);
                assert(false);
            }
        }
        None
    }
}

/// Two residues subtract to zero exactly when they are equal.
pub proof fn lemma_sub_mod_zero_iff(p: int, a: int, b: int)
    requires
        p >= 2,
        0 <= a < p,
        0 <= b < p,
    ensures
        sub_mod(p, a, b) == 0 <==> a == b,
        0 <= sub_mod(p, a, b) < p,
{
    lemma_mod_bound(a - b, p);
    if a >= b {
        lemma_small_mod((a - b) as nat, p as nat);
    } else {
        lemma_mod_add_multiples_vanish(a - b, p);
        lemma_small_mod((a - b + p) as nat, p as nat);
    }
}

/// A coefficient of `p - 1` acts as subtraction of the variable's value:
/// `(a + (p - 1) * f) % p == (a - f) % p`.
pub proof fn lemma_neg_coeff(p: int, a: int, f: int)
    requires
        p >= 2,
        0 <= f,
    ensures
        (a + (p - 1) * f) % p == (a - f) % p,
{
    assert((p - 1) * f == p * f - f) by (nonlinear_arith);
    vstd::arithmetic::div_mod::lemma_mod_multiples_vanish(f, a - f, p);
}

/// `1 + (p - 1) * b` reduces to the complement `1 - b` for a bit `b`.
pub proof fn lemma_one_minus_bit(p: int, b: int)
    requires
        p >= 2,
        b == 0 || b == 1,
    ensures
        (1 + (p - 1) * b) % p == 1 - b,
{
    if b == 0 {
        assert((p - 1) * 0 == 0);
        lemma_small_mod(1nat, p as nat);
    } else {
        assert((p - 1) * 1 == p - 1);
        vstd::arithmetic::div_mod::lemma_mod_self_0(p);
    }
}

} // verus!
