use sort_gadgets::circuit_builder::CircuitBuilder;
use sort_gadgets::circuit_data::CircuitData;
use sort_gadgets::error::CircuitError;
use sort_gadgets::target::Target;
use sort_gadgets::witness::PartialWitness;

/// 2^64 - 2^32 + 1.
const GOLDILOCKS: u64 = 0xFFFF_FFFF_0000_0001;

fn mix(observed: &[u64], modulus: u64) -> u64 {
    let mut state: u64 = 0x9E37_79B9_7F4A_7C15;
    for value in observed {
        state = (state ^ value).wrapping_mul(0xFF51_AFD7_ED55_8CCD).rotate_left(29);
    }
    state % modulus
}

fn complete(data: &CircuitData, witness: &mut PartialWitness) {
    loop {
        data.resolve(witness);
        match data.next_challenge(witness) {
            Some((wire, observed)) => {
                witness.set_target(wire, mix(&observed, data.modulus())).unwrap();
            }
            None => break,
        }
    }
}

#[test]
fn test_permutation_check() {
    const N: usize = 100;
    const K: usize = 3;

    let mut pw = PartialWitness::new();
    let mut builder = CircuitBuilder::new(GOLDILOCKS);

    let a = builder.add_virtual_targets(N);
    let b = builder.add_virtual_targets(N);

    builder.permutation_check(&a, &b).unwrap();

    let a_vals = (0..N).map(|i| i as u64).collect::<Vec<_>>();
    let b_vals = (0..N).map(|i| ((i + K) % N) as u64).collect::<Vec<_>>();

    println!("a_vals: {:?}", a_vals);
    println!("b_vals: {:?}", b_vals);

    pw.set_target_arr(&a, &a_vals).unwrap();
    pw.set_target_arr(&b, &b_vals).unwrap();

    let data = builder.build();
    complete(&data, &mut pw);
    assert!(data.check(&pw));
}

#[test]
fn test_sort() {
    const N: usize = 100;
    const K: usize = 3;

    let mut pw = PartialWitness::new();
    let mut builder = CircuitBuilder::new(GOLDILOCKS);

    let a = builder.add_virtual_targets(N);
    let b = builder.sort(&a, 16).unwrap();

    builder.register_public_inputs(&b);

    let a_vals = (0..N).map(|i| ((i + K) % N) as u64).collect::<Vec<_>>();

    println!("a_vals: {:?}", a_vals);

    pw.set_target_arr(&a, &a_vals).unwrap();

    let data = builder.build();
    complete(&data, &mut pw);
    assert!(data.check(&pw));

    let public_inputs = data.public_values(&pw).unwrap();
    println!("sorted_a: {:?}", public_inputs);
    assert_eq!(public_inputs, (0..N).rev().map(|i| i as u64).collect::<Vec<_>>());
}

#[test]
fn permutation_check_rejects_a_substituted_element() {
    let mut builder = CircuitBuilder::new(GOLDILOCKS);
    let a = builder.add_virtual_targets(4);
    let b = builder.add_virtual_targets(4);
    builder.permutation_check(&a, &b).unwrap();
    let data = builder.build();

    let mut pw = PartialWitness::new();
    pw.set_target_arr(&a, &[5, 9, 9, 2]).unwrap();
    pw.set_target_arr(&b, &[9, 2, 7, 5]).unwrap();
    complete(&data, &mut pw);
    assert!(!data.check(&pw));

    let mut pw = PartialWitness::new();
    pw.set_target_arr(&a, &[5, 9, 9, 2]).unwrap();
    pw.set_target_arr(&b, &[9, 2, 9, 5]).unwrap();
    complete(&data, &mut pw);
    assert!(data.check(&pw));
}

#[test]
fn permutation_check_binds_the_challenge_to_both_sequences_in_order() {
    let mut builder = CircuitBuilder::new(GOLDILOCKS);
    let a = builder.add_virtual_targets(2);
    let b = builder.add_virtual_targets(2);
    builder.permutation_check(&a, &b).unwrap();
    let data = builder.build();

    let mut pw = PartialWitness::new();
    pw.set_target_arr(&a, &[3, 4]).unwrap();
    data.resolve(&mut pw);
    assert_eq!(data.next_challenge(&pw), None);
    pw.set_target_arr(&b, &[4, 3]).unwrap();
    data.resolve(&mut pw);
    assert_eq!(data.next_challenge(&pw), Some((Target { index: 4 }, vec![3, 4, 4, 3])));
}

#[test]
fn permutation_check_of_empty_sequences_holds() {
    let mut builder = CircuitBuilder::new(GOLDILOCKS);
    builder.permutation_check(&[], &[]).unwrap();
    let data = builder.build();
    let mut pw = PartialWitness::new();
    complete(&data, &mut pw);
    assert!(data.check(&pw));
}

#[test]
fn permutation_check_reports_construction_errors() {
    let mut builder = CircuitBuilder::new(GOLDILOCKS);
    let a = builder.add_virtual_targets(3);
    let b = builder.add_virtual_targets(2);
    assert_eq!(builder.permutation_check(&a, &b), Err(CircuitError::LengthMismatch));
    let strangers = [Target { index: 7 }, Target { index: 8 }];
    assert_eq!(builder.permutation_check(&b, &strangers), Err(CircuitError::UnknownWire));
    assert_eq!(builder.sorted_check(&a, &b, 8), Err(CircuitError::LengthMismatch));
    assert_eq!(builder.sort(&strangers, 8), Err(CircuitError::UnknownWire));
    assert_eq!(builder.assert_leq(a[0], strangers[0], 8), Err(CircuitError::UnknownWire));
    assert_eq!(builder.num_targets(), 5);
}

#[test]
fn sort_of_one_element_returns_it() {
    let mut builder = CircuitBuilder::new(GOLDILOCKS);
    let a = builder.add_virtual_targets(1);
    let before = builder.num_targets();
    let sorted = builder.sort(&a, 16).unwrap();
    // one sorted wire, no order assertion, and a permutation check of 3 + 4 wires
    assert_eq!(builder.num_targets(), before + 1 + 7);
    let data = builder.build();
    let mut pw = PartialWitness::new();
    pw.set_target(a[0], 41).unwrap();
    complete(&data, &mut pw);
    assert!(data.check(&pw));
    assert_eq!(pw.get_targets(&sorted), Some(vec![41]));
}

#[test]
fn sort_is_idempotent() {
    let mut builder = CircuitBuilder::new(GOLDILOCKS);
    let a = builder.add_virtual_targets(6);
    let once = builder.sort(&a, 8).unwrap();
    let twice = builder.sort(&once, 8).unwrap();
    let data = builder.build();
    let mut pw = PartialWitness::new();
    pw.set_target_arr(&a, &[3, 200, 7, 7, 0, 255]).unwrap();
    complete(&data, &mut pw);
    assert!(data.check(&pw));
    assert_eq!(pw.get_targets(&once), Some(vec![255, 200, 7, 7, 3, 0]));
    assert_eq!(pw.get_targets(&twice), pw.get_targets(&once));
}

#[test]
fn sort_rejects_a_wrong_claim() {
    let mut builder = CircuitBuilder::new(GOLDILOCKS);
    let a = builder.add_virtual_targets(3);
    let sorted = builder.sort(&a, 8).unwrap();
    let data = builder.build();

    // a rearrangement that is not in descending order
    let mut pw = PartialWitness::new();
    pw.set_target_arr(&a, &[1, 3, 2]).unwrap();
    pw.set_target_arr(&sorted, &[3, 1, 2]).unwrap();
    complete(&data, &mut pw);
    assert!(!data.check(&pw));

    // a descending sequence that is no rearrangement
    let mut pw = PartialWitness::new();
    pw.set_target_arr(&a, &[1, 3, 2]).unwrap();
    pw.set_target_arr(&sorted, &[3, 2, 2]).unwrap();
    complete(&data, &mut pw);
    assert!(!data.check(&pw));
}

#[test]
fn assert_leq_accepts_order_and_rejects_its_reverse() {
    let mut builder = CircuitBuilder::new(GOLDILOCKS);
    let small = builder.add_virtual_target();
    let large = builder.add_virtual_target();
    builder.assert_leq(small, large, 16).unwrap();
    let data = builder.build();
    for (s, l, expected) in [(0u64, 0u64, true), (3, 9, true), (0, 65535, true), (9, 3, false), (65535, 0, false)] {
        let mut pw = PartialWitness::new();
        pw.set_target(small, s).unwrap();
        pw.set_target(large, l).unwrap();
        complete(&data, &mut pw);
        assert_eq!(data.check(&pw), expected);
    }
}

#[test]
fn assert_leq_rejects_a_value_beyond_the_width() {
    let mut builder = CircuitBuilder::new(GOLDILOCKS);
    let small = builder.add_virtual_target();
    let large = builder.add_virtual_target();
    builder.assert_leq(small, large, 16).unwrap();
    let data = builder.build();
    for (s, l) in [(0u64, 1u64 << 16), (1 << 16, 0), (5, 1 << 40), (1 << 40, 5)] {
        let mut pw = PartialWitness::new();
        pw.set_target(small, s).unwrap();
        pw.set_target(large, l).unwrap();
        complete(&data, &mut pw);
        assert!(!data.check(&pw));
    }
}

#[test]
fn challenge_values_replay_the_transcript() {
    let mut builder = CircuitBuilder::new(GOLDILOCKS);
    let a = builder.add_virtual_targets(2);
    let b = builder.add_virtual_targets(2);
    builder.permutation_check(&a, &b).unwrap();
    let data = builder.build();
    assert_eq!(data.num_challenges(), 1);

    let mut pw = PartialWitness::new();
    pw.set_target_arr(&a, &[3, 4]).unwrap();
    pw.set_target_arr(&b, &[4, 3]).unwrap();
    assert_eq!(data.challenge_values(&pw, 0), None);
    complete(&data, &mut pw);
    let (observed, drawn) = data.challenge_values(&pw, 0).unwrap();
    assert_eq!(observed, vec![3, 4, 4, 3]);
    assert_eq!(drawn, mix(&observed, GOLDILOCKS));
}
