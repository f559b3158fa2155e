// Range and set-membership enforcement, and the bit decomposition
// underneath them.

use small_values_ops::cs::{ConstraintSystem, FieldVar};
use small_values_ops::{enforce_in_binary_bound, enforce_in_bound, enforce_in_set, from_bits,
    to_bits};

const MODULUS: u128 = 170141183460469231731687303715884105727;

#[test]
fn test_binary_bound_accepts_in_range() {
    for v in [0u128, 1, 7, 15] {
        let mut cs = ConstraintSystem::new(MODULUS, true);
        let var = cs.new_witness(v).unwrap();
        enforce_in_binary_bound(&mut cs, &var, 4).unwrap();
        assert!(cs.is_satisfied());
    }
}

#[test]
fn test_binary_bound_rejects_out_of_range() {
    for v in [16u128, 17, 255, 1 << 70] {
        let mut cs = ConstraintSystem::new(MODULUS, true);
        let var = cs.new_witness(v).unwrap();
        enforce_in_binary_bound(&mut cs, &var, 4).unwrap();
        assert!(!cs.is_satisfied());
    }
}

#[test]
fn test_binary_bound_zero_width_means_zero() {
    let mut cs = ConstraintSystem::new(MODULUS, true);
    let var = cs.new_witness(0).unwrap();
    enforce_in_binary_bound(&mut cs, &var, 0).unwrap();
    assert!(cs.is_satisfied());

    let mut cs2 = ConstraintSystem::new(MODULUS, true);
    let var2 = cs2.new_witness(1).unwrap();
    enforce_in_binary_bound(&mut cs2, &var2, 0).unwrap();
    assert!(!cs2.is_satisfied());
}

#[test]
fn test_bits_roundtrip() {
    let mut cs = ConstraintSystem::new(MODULUS, true);
    let var = cs.new_witness(11).unwrap();
    let bits = to_bits(&mut cs, &var, 4).unwrap();
    assert_eq!(bits.len(), 4);
    let expected = [true, true, false, true];
    for (i, b) in bits.iter().enumerate() {
        let bit_value = cs.assignment[b.var];
        assert_eq!(bit_value, if expected[i] { 1 } else { 0 });
    }
    let recon = from_bits(&cs, &bits).unwrap();
    assert_eq!(recon.value(&cs).unwrap(), 11);
    assert!(cs.is_satisfied());
}

#[test]
fn test_in_set_member() {
    let mut cs = ConstraintSystem::new(MODULUS, true);
    let var = cs.new_witness(7).unwrap();
    let mut set: Vec<FieldVar> = Vec::new();
    for c in [2u128, 7, 11] {
        set.push(cs.lc_constant(c));
    }
    enforce_in_set(&mut cs, &var, &set).unwrap();
    assert!(cs.is_satisfied());
}

#[test]
fn test_in_set_non_member() {
    let mut cs = ConstraintSystem::new(MODULUS, true);
    let var = cs.new_witness(5).unwrap();
    let mut set: Vec<FieldVar> = Vec::new();
    for c in [2u128, 7, 11] {
        set.push(cs.lc_constant(c));
    }
    enforce_in_set(&mut cs, &var, &set).unwrap();
    assert!(!cs.is_satisfied());
}

#[test]
fn test_in_set_empty_always_fails() {
    let mut cs = ConstraintSystem::new(MODULUS, true);
    let var = cs.new_witness(0).unwrap();
    let set: Vec<FieldVar> = Vec::new();
    enforce_in_set(&mut cs, &var, &set).unwrap();
    assert!(!cs.is_satisfied());
}

#[test]
fn test_in_bound_inclusive() {
    for (v, ok) in [(0u128, true), (3, true), (5, true), (6, false), (250, false)] {
        let mut cs = ConstraintSystem::new(MODULUS, true);
        let var = cs.new_witness(v).unwrap();
        enforce_in_bound(&mut cs, &var, 5).unwrap();
        assert_eq!(cs.is_satisfied(), ok);
    }
}
