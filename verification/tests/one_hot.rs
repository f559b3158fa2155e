// One-hot encoding of an index into field-element indicators.

use small_values_ops::cs::{ConstraintSystem, SynthesisError};
use small_values_ops::one_hot_encode;

const MODULUS: u128 = 170141183460469231731687303715884105727;

#[test]
fn test_one_hot_eight_wide() {
    let mut cs = ConstraintSystem::new(MODULUS, true);
    let x = cs.new_witness(5).unwrap();
    let encoded = one_hot_encode(&mut cs, &x, 8).unwrap();
    assert_eq!(encoded.len(), 8);
    let mut values: Vec<u128> = Vec::new();
    for e in encoded.iter() {
        values.push(e.value(&cs).unwrap());
    }
    assert_eq!(values, vec![0, 0, 0, 0, 0, 1, 0, 0]);
    assert!(cs.is_satisfied());
}

#[test]
fn test_one_hot_every_position() {
    for x in 0u128..4 {
        let mut cs = ConstraintSystem::new(MODULUS, true);
        let x_var = cs.new_witness(x).unwrap();
        let encoded = one_hot_encode(&mut cs, &x_var, 4).unwrap();
        let mut sum: u128 = 0;
        for (i, e) in encoded.iter().enumerate() {
            let v = e.value(&cs).unwrap();
            assert_eq!(v, if i as u128 == x { 1 } else { 0 });
            sum += v;
        }
        assert_eq!(sum, 1);
        assert!(cs.is_satisfied());
    }
}

#[test]
fn test_one_hot_index_beyond_width_unsatisfied() {
    let mut cs = ConstraintSystem::new(MODULUS, true);
    let x = cs.new_witness(9).unwrap();
    let encoded = one_hot_encode(&mut cs, &x, 8).unwrap();
    for e in encoded.iter() {
        assert_eq!(e.value(&cs).unwrap(), 0);
    }
    assert!(!cs.is_satisfied());
}

#[test]
fn test_one_hot_value_too_large_is_rejected() {
    let mut cs = ConstraintSystem::new(MODULUS, true);
    let x = cs.new_witness(1u128 << 64).unwrap();
    let r = one_hot_encode(&mut cs, &x, 8);
    assert_eq!(r.unwrap_err(), SynthesisError::ValueOutOfRange);
}
