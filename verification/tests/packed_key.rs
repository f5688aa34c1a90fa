use sort_gadgets::circuit_builder::CircuitBuilder;
use sort_gadgets::circuit_data::CircuitData;
use sort_gadgets::error::CircuitError;
use sort_gadgets::gadgets::packed_key::KeyWidths;
use sort_gadgets::target::Target;
use sort_gadgets::witness::PartialWitness;

/// 2^64 - 2^32 + 1.
const GOLDILOCKS: u64 = 0xFFFF_FFFF_0000_0001;

fn mix(observed: &[u64], modulus: u64) -> u64 {
    let mut state: u64 = 0x9E37_79B9_7F4A_7C15;
    for value in observed {
        state = (state ^ value).wrapping_mul(0xFF51_AFD7_ED55_8CCD).rotate_left(29);
    }
    state % modulus
}

fn complete(data: &CircuitData, witness: &mut PartialWitness) {
    loop {
        data.resolve(witness);
        match data.next_challenge(witness) {
            Some((wire, observed)) => {
                witness.set_target(wire, mix(&observed, data.modulus())).unwrap();
            }
            None => break,
        }
    }
}

#[test]
fn encode_packs_the_three_components() {
    let widths = KeyWidths { value_bits: 16, index_bits: 7 };
    let mut builder = CircuitBuilder::new(GOLDILOCKS);
    let flag = builder.add_virtual_target();
    let index = builder.add_virtual_target();
    let value = builder.add_virtual_target();
    let packed = builder.encode(flag, index, value, widths).unwrap();
    let data = builder.build();
    let mut pw = PartialWitness::new();
    pw.set_target(flag, 1).unwrap();
    pw.set_target(index, 5).unwrap();
    pw.set_target(value, 300).unwrap();
    complete(&data, &mut pw);
    assert!(data.check(&pw));
    assert_eq!(pw.get_target(packed), Some(300 + 5 * 65536 + 8388608));
}

#[test]
fn decode_returns_flag_and_value() {
    let widths = KeyWidths { value_bits: 16, index_bits: 7 };
    let mut builder = CircuitBuilder::new(GOLDILOCKS);
    let flag = builder.add_virtual_target();
    let index = builder.add_virtual_target();
    let value = builder.add_virtual_target();
    let packed = builder.encode(flag, index, value, widths).unwrap();
    let (flag_out, value_out) = builder.decode(packed, widths).unwrap();
    let data = builder.build();
    for (f, i, v) in [(0u64, 0u64, 0u64), (1, 0, 0), (0, 127, 65535), (1, 127, 65535), (1, 64, 12345)] {
        let mut pw = PartialWitness::new();
        pw.set_target(flag, f).unwrap();
        pw.set_target(index, i).unwrap();
        pw.set_target(value, v).unwrap();
        complete(&data, &mut pw);
        assert!(data.check(&pw));
        assert_eq!(pw.get_target(flag_out), Some(f));
        assert_eq!(pw.get_target(value_out), Some(v));
    }
}

#[test]
fn decode_rejects_a_key_beyond_its_width() {
    let widths = KeyWidths { value_bits: 4, index_bits: 2 };
    let mut builder = CircuitBuilder::new(GOLDILOCKS);
    let packed = builder.add_virtual_target();
    builder.decode(packed, widths).unwrap();
    let data = builder.build();

    let mut pw = PartialWitness::new();
    pw.set_target(packed, 127).unwrap();
    complete(&data, &mut pw);
    assert!(data.check(&pw));

    let mut pw = PartialWitness::new();
    pw.set_target(packed, 128).unwrap();
    complete(&data, &mut pw);
    assert!(!data.check(&pw));
}

#[test]
fn codec_refuses_widths_beyond_the_field() {
    let mut builder = CircuitBuilder::new(GOLDILOCKS);
    let t = builder.add_virtual_target();
    let wide = KeyWidths { value_bits: 40, index_bits: 23 };
    assert_eq!(builder.encode(t, t, t, wide), Err(CircuitError::WidthExceedsCapacity));
    assert_eq!(builder.decode(t, wide), Err(CircuitError::WidthExceedsCapacity));
    let huge = KeyWidths { value_bits: usize::MAX, index_bits: usize::MAX };
    assert_eq!(builder.encode(t, t, t, huge), Err(CircuitError::WidthExceedsCapacity));
    let widest = KeyWidths { value_bits: 40, index_bits: 22 };
    assert!(builder.encode(t, t, t, widest).is_ok());
    let stranger = Target { index: 1000 };
    assert_eq!(builder.encode(t, stranger, t, widest), Err(CircuitError::UnknownWire));
    assert_eq!(builder.decode(stranger, widest), Err(CircuitError::UnknownWire));
}

/// The records whose key equals the query are moved to the front: keys
/// [2, 0, 2, 1, 2] and query 2 give match flags [1, 0, 1, 0, 1], and after
/// packing and sorting the three matches come first.
#[test]
fn sort_based_filter_puts_matches_first() {
    const N: usize = 5;
    let widths = KeyWidths { value_bits: 16, index_bits: 7 };
    let mut builder = CircuitBuilder::new(GOLDILOCKS);

    let query = builder.add_virtual_target();
    let keys = builder.add_virtual_targets(N);
    let vals = builder.add_virtual_targets(N);
    let matches = keys
        .iter()
        .map(|k| builder.is_equal(*k, query).unwrap())
        .collect::<Vec<_>>();

    let mut num_matches = builder.zero();
    for m in &matches {
        num_matches = builder.add(num_matches, *m);
    }

    let compact = matches
        .iter()
        .zip(vals.iter())
        .enumerate()
        .map(|(i, (m, v))| {
            let index = builder.constant((N - i) as u64);
            builder.encode(*m, index, *v, widths).unwrap()
        })
        .collect::<Vec<_>>();

    let sorted_compact = builder.sort(&compact, 1 + 16 + 7).unwrap();

    let mut sorted_matches = Vec::new();
    let mut sorted_vals = Vec::new();
    for c in &sorted_compact {
        let (flag, low) = builder.decode(*c, widths).unwrap();
        sorted_matches.push(flag);
        sorted_vals.push(builder.mul(low, flag));
    }
    let sorted_keys = sorted_matches
        .iter()
        .map(|m| builder.mul(*m, query))
        .collect::<Vec<_>>();

    builder.register_public_input(num_matches);
    builder.register_public_inputs(&sorted_keys);
    builder.register_public_inputs(&sorted_vals);

    let data = builder.build();
    let mut pw = PartialWitness::new();
    pw.set_target(query, 2).unwrap();
    pw.set_target_arr(&keys, &[2, 0, 2, 1, 2]).unwrap();
    pw.set_target_arr(&vals, &[5, 6, 7, 8, 9]).unwrap();
    complete(&data, &mut pw);
    assert!(data.check(&pw));

    assert_eq!(pw.get_targets(&matches), Some(vec![1, 0, 1, 0, 1]));
    assert_eq!(pw.get_targets(&sorted_matches), Some(vec![1, 1, 1, 0, 0]));
    let public = data.public_values(&pw).unwrap();
    assert_eq!(public[0], 3);
    assert_eq!(&public[1..1 + N], &[2, 2, 2, 0, 0]);
    let mut front = public[1 + N..1 + N + 3].to_vec();
    front.sort();
    assert_eq!(front, vec![5, 7, 9]);
    assert_eq!(&public[1 + N + 3..], &[0, 0]);
}
