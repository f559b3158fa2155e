// Comparison predicates and saturating subtraction.

use small_values_ops::cs::ConstraintSystem;
use small_values_ops::{enforce_ge, enforce_le, ge, le, saturating_sub};

const MODULUS: u128 = 170141183460469231731687303715884105727;

#[test]
fn test_le_boolean_value() {
    for (a, b, expected) in [(3u128, 5u128, 1u128), (5, 3, 0), (5, 5, 1), (0, 0, 1), (0, 7, 1)] {
        let mut cs = ConstraintSystem::new(MODULUS, true);
        let a_var = cs.new_witness(a).unwrap();
        let b_var = cs.new_witness(b).unwrap();
        let c = le(&mut cs, &a_var, &b_var, 3).unwrap();
        assert_eq!(cs.assignment[c.var], expected);
        assert!(cs.is_satisfied());
    }
}

#[test]
fn test_ge_boolean_value() {
    for (a, b, expected) in [(3u128, 5u128, 0u128), (5, 3, 1), (5, 5, 1), (7, 0, 1)] {
        let mut cs = ConstraintSystem::new(MODULUS, true);
        let a_var = cs.new_witness(a).unwrap();
        let b_var = cs.new_witness(b).unwrap();
        let c = ge(&mut cs, &a_var, &b_var, 3).unwrap();
        assert_eq!(cs.assignment[c.var], expected);
        assert!(cs.is_satisfied());
    }
}

#[test]
fn test_enforce_le_satisfied_iff_le() {
    for (a, b, ok) in [(3u128, 5u128, true), (5, 5, true), (5, 3, false), (0, 7, true)] {
        let mut cs = ConstraintSystem::new(MODULUS, true);
        let a_var = cs.new_witness(a).unwrap();
        let b_var = cs.new_witness(b).unwrap();
        enforce_le(&mut cs, &a_var, &b_var, 3).unwrap();
        assert_eq!(cs.is_satisfied(), ok);
    }
}

#[test]
fn test_enforce_ge_satisfied_iff_ge() {
    for (a, b, ok) in [(3u128, 5u128, false), (5, 5, true), (5, 3, true)] {
        let mut cs = ConstraintSystem::new(MODULUS, true);
        let a_var = cs.new_witness(a).unwrap();
        let b_var = cs.new_witness(b).unwrap();
        enforce_ge(&mut cs, &a_var, &b_var, 3).unwrap();
        assert_eq!(cs.is_satisfied(), ok);
    }
}

#[test]
fn test_saturating_sub_values() {
    for (a, b, expected) in [(5u128, 3u128, 2u128), (3, 5, 0), (7, 7, 0), (7, 0, 7), (0, 7, 0)] {
        let mut cs = ConstraintSystem::new(MODULUS, true);
        let a_var = cs.new_witness(a).unwrap();
        let b_var = cs.new_witness(b).unwrap();
        let d = saturating_sub(&mut cs, &a_var, &b_var, 3).unwrap();
        assert_eq!(d.value(&cs).unwrap(), expected);
        assert!(cs.is_satisfied());
    }
}

#[test]
fn test_saturating_sub_large_width() {
    let mut cs = ConstraintSystem::new(MODULUS, true);
    let a_var = cs.new_witness(234567890).unwrap();
    let b_var = cs.new_witness(123456789).unwrap();
    let d = saturating_sub(&mut cs, &a_var, &b_var, 64).unwrap();
    assert_eq!(d.value(&cs).unwrap(), 111111101);
    assert!(cs.is_satisfied());
}
