// Casts, witness read-back, the witness-less mode, and system counters.

use small_values_ops::cs::{ConstraintSystem, SynthesisError};
use small_values_ops::{cast_to_boolean, cast_to_u64, enforce_zero, get_slack, min, to_bits};

const MODULUS: u128 = 170141183460469231731687303715884105727;

#[test]
fn test_cast_to_u64_in_range() {
    let mut cs = ConstraintSystem::new(MODULUS, true);
    let var = cs.new_witness(123456789).unwrap();
    assert_eq!(cast_to_u64(&cs, &var).unwrap(), 123456789u64);
}

#[test]
fn test_cast_to_u64_out_of_range() {
    let mut cs = ConstraintSystem::new(MODULUS, true);
    let var = cs.new_witness(1u128 << 64).unwrap();
    assert_eq!(cast_to_u64(&cs, &var).unwrap_err(), SynthesisError::ValueOutOfRange);
}

#[test]
fn test_cast_to_boolean_accepts_bits() {
    for (v, expected) in [(0u128, 0u128), (1, 1)] {
        let mut cs = ConstraintSystem::new(MODULUS, true);
        let var = cs.new_witness(v).unwrap();
        let b = cast_to_boolean(&mut cs, &var).unwrap();
        assert_eq!(cs.assignment[b.var], expected);
        assert!(cs.is_satisfied());
    }
}

#[test]
fn test_cast_to_boolean_rejects_two() {
    let mut cs = ConstraintSystem::new(MODULUS, true);
    let var = cs.new_witness(2).unwrap();
    cast_to_boolean(&mut cs, &var).unwrap();
    assert!(!cs.is_satisfied());
}

#[test]
fn test_enforce_zero() {
    let mut cs = ConstraintSystem::new(MODULUS, true);
    let z = cs.new_witness(0).unwrap();
    enforce_zero(&mut cs, &z).unwrap();
    assert!(cs.is_satisfied());

    let mut cs2 = ConstraintSystem::new(MODULUS, true);
    let nz = cs2.new_witness(3).unwrap();
    enforce_zero(&mut cs2, &nz).unwrap();
    assert!(!cs2.is_satisfied());
}

#[test]
fn test_get_slack_values() {
    let mut cs = ConstraintSystem::new(MODULUS, true);
    let lo = cs.new_witness(3).unwrap();
    let hi = cs.new_witness(10).unwrap();
    let up = get_slack(&mut cs, &lo, &hi).unwrap();
    assert_eq!(up.value(&cs).unwrap(), 7);
    let down = get_slack(&mut cs, &hi, &lo).unwrap();
    assert_eq!(down.value(&cs).unwrap(), 0);
}

#[test]
fn test_witnessless_mode_fails_with_assignment_missing() {
    let mut cs = ConstraintSystem::new(MODULUS, false);
    assert_eq!(cs.new_witness(1).unwrap_err(), SynthesisError::AssignmentMissing);

    let a = cs.lc_constant(1);
    let b = cs.lc_constant(2);
    assert_eq!(min(&mut cs, &a, &b, 3).unwrap_err(), SynthesisError::AssignmentMissing);
    assert_eq!(to_bits(&mut cs, &a, 3).unwrap_err(), SynthesisError::AssignmentMissing);
    assert_eq!(a.value(&cs).unwrap_err(), SynthesisError::AssignmentMissing);
    assert_eq!(cs.num_constraints(), 0);
}

#[test]
fn test_counters() {
    let mut cs = ConstraintSystem::new(MODULUS, true);
    assert_eq!(cs.num_constraints(), 0);
    assert_eq!(cs.num_witness_variables(), 0);
    assert_eq!(cs.num_instance_variables(), 0);
    let a = cs.new_input(41).unwrap();
    let b = cs.new_witness(5).unwrap();
    assert_eq!(cs.num_instance_variables(), 1);
    assert_eq!(cs.num_witness_variables(), 1);
    let before = cs.num_constraints();
    min(&mut cs, &a, &b, 8).unwrap();
    assert!(cs.num_constraints() > before);
    assert!(cs.is_satisfied());
}
