// Minimum and maximum gadgets on concrete values.
//
// The modulus is the Mersenne prime 2^127 - 1, comfortably above every
// bit width used here.

use small_values_ops::cs::ConstraintSystem;
use small_values_ops::{max, min};

const MODULUS: u128 = 170141183460469231731687303715884105727;

fn run_min(bits: usize, a: u64, b: u64) {
    let mut cs = ConstraintSystem::new(MODULUS, true);
    let a_var = cs.new_witness(a as u128).unwrap();
    let b_var = cs.new_witness(b as u128).unwrap();

    let result = min(&mut cs, &a_var, &b_var, bits).unwrap();
    assert_eq!(result.value(&cs).unwrap(), a.min(b) as u128);
    assert!(cs.is_satisfied());
}

fn run_min_max(bits: usize, a: u64, b: u64) {
    let mut cs = ConstraintSystem::new(MODULUS, true);
    let a_var = cs.new_witness(a as u128).unwrap();
    let b_var = cs.new_witness(b as u128).unwrap();

    let min_result = min(&mut cs, &a_var, &b_var, bits).unwrap();
    assert_eq!(min_result.value(&cs).unwrap(), a.min(b) as u128);

    let max_result = max(&mut cs, &a_var, &b_var, bits).unwrap();
    assert_eq!(max_result.value(&cs).unwrap(), a.max(b) as u128);

    assert!(cs.is_satisfied());
}

#[test]
fn test_min() {
    // Small values
    run_min(3, 3, 5);
    run_min(3, 5, 3);

    // Equal values
    run_min(3, 5, 5);

    // Zero values
    run_min(3, 0, 5);
    run_min(3, 5, 0);
    run_min(3, 0, 0);

    // Larger values
    run_min(64, 123456789, 234567890);
}

#[test]
fn test() {
    // Small values
    run_min_max(3, 3, 5);
    run_min_max(3, 5, 3);

    // Equal values
    run_min_max(3, 5, 5);

    // Zero values
    run_min_max(3, 0, 5);
    run_min_max(3, 5, 0);
    run_min_max(3, 0, 0);

    // Larger values
    run_min_max(64, 123456789, 234567890);
}

#[test]
fn test_min_out_of_range_input_unsatisfied() {
    // With a 3-bit width, an input of 9 cannot be balanced by in-range
    // slacks: the range check on the slack witnesses must fail.
    let mut cs = ConstraintSystem::new(MODULUS, true);
    let a_var = cs.new_witness(9).unwrap();
    let b_var = cs.new_witness(1).unwrap();
    let result = min(&mut cs, &a_var, &b_var, 3).unwrap();
    assert_eq!(result.value(&cs).unwrap(), 1);
    assert!(!cs.is_satisfied());
}
