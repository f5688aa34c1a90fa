use sort_gadgets::circuit_builder::CircuitBuilder;
use sort_gadgets::error::CircuitError;
use sort_gadgets::field::{field_add, field_inverse, field_mul, field_mul_add, field_sub, width_fits};
use sort_gadgets::gadgets::permutation_check::SortGenerator;
use sort_gadgets::generator::{EqualityGenerator, WitnessGenerator};
use sort_gadgets::sorting::sort_descending;
use sort_gadgets::target::Target;
use sort_gadgets::witness::{PartialWitness, WitnessError};

/// 2^64 - 2^32 + 1.
const GOLDILOCKS: u64 = 0xFFFF_FFFF_0000_0001;

#[test]
fn witness_sets_each_wire_once() {
    let mut witness = PartialWitness::new();
    let t = Target { index: 3 };
    assert_eq!(witness.get_target(t), None);
    assert_eq!(witness.set_target(t, 8), Ok(()));
    assert_eq!(witness.set_target(t, 8), Ok(()));
    assert_eq!(witness.set_target(t, 9), Err(WitnessError::Conflict));
    assert_eq!(witness.get_target(t), Some(8));
    assert_eq!(witness.len(), 4);
    witness.fill_target(t, 10);
    assert_eq!(witness.get_target(t), Some(8));
}

#[test]
fn witness_array_writes_stop_at_the_first_conflict() {
    let mut witness = PartialWitness::new();
    let ts = [Target { index: 0 }, Target { index: 1 }, Target { index: 0 }, Target { index: 2 }];
    assert_eq!(
        witness.set_target_arr(&ts, &[1, 2]),
        Err(WitnessError::LengthMismatch)
    );
    assert_eq!(
        witness.set_target_arr(&ts, &[1, 2, 3, 4]),
        Err(WitnessError::Conflict)
    );
    assert_eq!(witness.get_targets(&ts[..2]), Some(vec![1, 2]));
    assert_eq!(witness.get_target(ts[3]), None);
    assert_eq!(witness.get_targets(&ts), None);
}

#[test]
fn field_operations_reduce_modulo_the_modulus() {
    assert_eq!(field_add(GOLDILOCKS - 1, 5, GOLDILOCKS), 4);
    assert_eq!(field_sub(3, 5, GOLDILOCKS), GOLDILOCKS - 2);
    assert_eq!(field_sub(5, 3, GOLDILOCKS), 2);
    assert_eq!(field_mul(1 << 32, 1 << 32, GOLDILOCKS), (1 << 32) - 1);
    assert_eq!(field_mul_add(6, 7, 58, 97), 3);
    assert!(width_fits(63, GOLDILOCKS));
    assert!(!width_fits(64, GOLDILOCKS));
    assert!(width_fits(6, 97));
    assert!(!width_fits(7, 97));
}

#[test]
fn field_inverse_multiplies_to_one() {
    for x in [1u64, 2, 3, 96, 1 << 40, GOLDILOCKS - 1] {
        let inverse = field_inverse(x, GOLDILOCKS);
        assert_eq!(field_mul(x, inverse, GOLDILOCKS), 1);
    }
    assert_eq!(field_inverse(0, GOLDILOCKS), 0);
    assert_eq!(field_inverse(GOLDILOCKS, GOLDILOCKS), 0);
    assert_eq!(field_inverse(3, 10), 7);
    assert_eq!(field_inverse(4, 10), 0);
}

#[test]
fn sort_descending_sorts() {
    let mut values = vec![3, 1, 4, 1, 5, 9, 2, 6, 5, 3, 5];
    sort_descending(&mut values);
    assert_eq!(values, vec![9, 6, 5, 5, 5, 4, 3, 3, 2, 1, 1]);
    let mut empty: Vec<u64> = Vec::new();
    sort_descending(&mut empty);
    assert!(empty.is_empty());
}

#[test]
fn generators_are_validated_at_registration() {
    let mut builder = CircuitBuilder::new(GOLDILOCKS);
    let ts = builder.add_virtual_targets(4);
    let sum = builder.add(ts[0], ts[1]);

    let unknown = EqualityGenerator { x: ts[0], inverse: ts[1], is_zero: Target { index: 99 } };
    assert_eq!(
        builder.add_simple_generator(WitnessGenerator::Equality(unknown)),
        Err(CircuitError::UnknownWire)
    );
    let driven = EqualityGenerator { x: ts[0], inverse: ts[1], is_zero: sum };
    assert_eq!(
        builder.add_simple_generator(WitnessGenerator::Equality(driven)),
        Err(CircuitError::InvalidGenerator)
    );
    let twice = EqualityGenerator { x: ts[0], inverse: ts[1], is_zero: ts[1] };
    assert_eq!(
        builder.add_simple_generator(WitnessGenerator::Equality(twice)),
        Err(CircuitError::InvalidGenerator)
    );
    let backwards = EqualityGenerator { x: ts[3], inverse: ts[1], is_zero: ts[2] };
    assert_eq!(
        builder.add_simple_generator(WitnessGenerator::Equality(backwards)),
        Err(CircuitError::InvalidGenerator)
    );
    let uneven = SortGenerator::new(vec![ts[0]], vec![ts[1], ts[2]]);
    assert_eq!(
        builder.add_simple_generator(WitnessGenerator::Sort(uneven)),
        Err(CircuitError::LengthMismatch)
    );
    let fine = SortGenerator::new(vec![ts[0], ts[1]], vec![ts[2], ts[3]]);
    assert_eq!(builder.add_simple_generator(WitnessGenerator::Sort(fine)), Ok(()));
    let again = SortGenerator::new(vec![ts[0], ts[1]], vec![ts[2], ts[3]]);
    assert_eq!(
        builder.add_simple_generator(WitnessGenerator::Sort(again)),
        Err(CircuitError::InvalidGenerator)
    );
}

#[test]
fn resolve_runs_what_is_ready_and_keeps_what_is_set() {
    let mut builder = CircuitBuilder::new(97);
    let x = builder.add_virtual_target();
    let y = builder.add_virtual_target();
    let sum = builder.add(x, y);
    let product = builder.mul(sum, x);
    let digits = builder.split_le(product, 7);
    let data = builder.build();

    let mut witness = PartialWitness::new();
    witness.set_target(x, 5).unwrap();
    data.resolve(&mut witness);
    assert_eq!(witness.get_target(sum), None);
    assert!(!data.check(&witness));

    witness.set_target(y, 90).unwrap();
    data.resolve(&mut witness);
    assert_eq!(witness.get_target(sum), Some(95));
    assert_eq!(witness.get_target(product), Some(87));
    assert_eq!(witness.get_targets(&digits), Some(vec![1, 1, 1, 0, 1, 0, 1]));
    assert!(data.check(&witness));

    let mut forged = PartialWitness::new();
    forged.set_target(x, 5).unwrap();
    forged.set_target(y, 90).unwrap();
    forged.set_target(sum, 94).unwrap();
    data.resolve(&mut forged);
    assert_eq!(forged.get_target(sum), Some(94));
    assert_eq!(forged.get_target(product), Some(82));
    assert!(!data.check(&forged));
}

#[test]
fn check_rejects_values_outside_the_field() {
    let mut builder = CircuitBuilder::new(97);
    let x = builder.add_virtual_target();
    let data = builder.build();
    let mut witness = PartialWitness::new();
    witness.set_target(x, 97).unwrap();
    assert!(!data.check(&witness));
    let mut witness = PartialWitness::new();
    witness.set_target(x, 96).unwrap();
    assert!(data.check(&witness));
}
