use case_gadget::case::{bit_dot_product, case, multi_case, CaseClause};
use case_gadget::r1cs::{ConstraintSystem, SynthesisError};

// A 64-bit prime modulus (2^64 - 2^32 + 1), so the field has no zero
// divisors and the accumulator-product match detector is exact.
const P: u64 = 0xffffffff00000001;

#[test]
fn simple_case() {
    let mut cs = ConstraintSystem::new(P);

    let x: u64 = 123;
    let y: u64 = 124;
    let selected = cs.allocate(x);
    let val = cs.allocate(666);
    let val2 = cs.allocate(777);
    let default = cs.allocate(999);

    {
        let clauses = vec![
            CaseClause {
                key: x,
                value: val,
            },
            CaseClause {
                key: y,
                value: val2,
            },
        ];

        let result = case(&mut cs, selected, &clauses, default).unwrap();

        assert_eq!(cs.value(val), cs.value(result));
        assert!(cs.is_satisfied());
    }

    {
        let clauses = vec![CaseClause {
            key: y,
            value: val,
        }];

        let result = case(&mut cs, selected, &clauses, default).unwrap();

        assert_eq!(cs.value(default), cs.value(result));
        assert!(cs.is_satisfied());
    }
}

#[test]
fn matched_case_returns_clause_value() {
    let mut cs = ConstraintSystem::new(P);
    let selected = cs.allocate(123);
    let val = cs.allocate(666);
    let val2 = cs.allocate(777);
    let default = cs.allocate(999);
    let clauses = vec![
        CaseClause {
            key: 123,
            value: val,
        },
        CaseClause {
            key: 124,
            value: val2,
        },
    ];
    let result = case(&mut cs, selected, &clauses, default).unwrap();
    assert_eq!(cs.value(result), 666);
    assert!(cs.is_satisfied());
}

#[test]
fn unmatched_case_returns_default() {
    let mut cs = ConstraintSystem::new(P);
    let selected = cs.allocate(123);
    let val = cs.allocate(666);
    let default = cs.allocate(999);
    let clauses = vec![CaseClause {
        key: 124,
        value: val,
    }];
    let result = case(&mut cs, selected, &clauses, default).unwrap();
    assert_eq!(cs.value(result), 999);
    assert!(cs.is_satisfied());
}

#[test]
fn multi_case_channels() {
    let mut cs = ConstraintSystem::new(P);
    let selected = cs.allocate(123);
    let val = cs.allocate(666);
    let val2 = cs.allocate(777);
    let val3 = cs.allocate(1);
    let default0 = cs.allocate(999);
    let default1 = cs.allocate(999);
    let channels = vec![
        vec![
            CaseClause {
                key: 123,
                value: val,
            },
            CaseClause {
                key: 124,
                value: val2,
            },
        ],
        vec![CaseClause {
            key: 124,
            value: val3,
        }],
    ];
    let defaults = vec![default0, default1];
    let results = multi_case(&mut cs, selected, &channels, &defaults).unwrap();
    assert_eq!(results.len(), 2);
    assert_eq!(cs.value(results[0]), 666);
    assert_eq!(cs.value(results[1]), 999);
    assert!(cs.is_satisfied());
}

// With two clauses sharing the matched key, the recorded one-hot witness
// selects the first tied clause, so the output is one of the tied values and
// the recorded witness still satisfies the system.
#[test]
fn duplicate_matching_keys() {
    let mut cs = ConstraintSystem::new(P);
    let selected = cs.allocate(123);
    let val = cs.allocate(666);
    let val2 = cs.allocate(5);
    let default = cs.allocate(999);
    let clauses = vec![
        CaseClause {
            key: 123,
            value: val,
        },
        CaseClause {
            key: 123,
            value: val2,
        },
    ];
    let result = case(&mut cs, selected, &clauses, default).unwrap();
    assert_eq!(cs.value(result), 666);
    assert!(cs.is_satisfied());
}

// Over a composite modulus the zero test can fail to invert a nonzero
// value: 3 has no inverse modulo 6.
#[test]
fn composite_modulus_inverse_failure() {
    let mut cs = ConstraintSystem::new(6);
    let v = cs.allocate(3);
    let result = cs.zero_test(v);
    assert_eq!(result, Err(SynthesisError::DivisionByZero));
}

#[test]
fn zero_test_flags_zero_and_nonzero() {
    let mut cs = ConstraintSystem::new(P);
    let z = cs.allocate(0);
    let nz = cs.allocate(5);
    let bz = cs.zero_test(z).unwrap();
    let bnz = cs.zero_test(nz).unwrap();
    assert_eq!(cs.value(bz), 1);
    assert_eq!(cs.value(bnz), 0);
    assert!(cs.is_satisfied());
}

#[test]
fn bit_dot_product_picks_set_entries() {
    let mut cs = ConstraintSystem::new(P);
    let b1 = cs.allocate_bit(true);
    let b2 = cs.allocate_bit(false);
    let v1 = cs.allocate(5);
    let v2 = cs.allocate(7);
    let bits = vec![b1, b2];
    let values = vec![v1, v2];
    let r = bit_dot_product(&mut cs, &bits, &values);
    assert_eq!(cs.value(r), 5);
    assert!(cs.is_satisfied());
}

#[test]
fn pick_selects_by_condition() {
    let mut cs = ConstraintSystem::new(P);
    let cond = cs.allocate_bit(true);
    let ncond = cs.allocate_bit(false);
    let a = cs.allocate(11);
    let b = cs.allocate(22);
    let r1 = cs.pick(cond, a, b);
    let r2 = cs.pick(ncond, a, b);
    assert_eq!(cs.value(r1), 11);
    assert_eq!(cs.value(r2), 22);
    assert!(cs.is_satisfied());
}

#[test]
fn field_arithmetic_values() {
    assert_eq!(case_gadget::field::fe_add(7, 3, 6), 2);
    assert_eq!(case_gadget::field::fe_sub(7, 2, 5), 4);
    assert_eq!(case_gadget::field::fe_mul(7, 3, 5), 1);
    assert_eq!(case_gadget::field::fe_inverse(7, 3), Some(5));
    assert_eq!(case_gadget::field::fe_inverse(6, 3), None);
}
