use sort_gadgets::circuit_builder::CircuitBuilder;
use sort_gadgets::circuit_data::CircuitData;
use sort_gadgets::error::CircuitError;
use sort_gadgets::extension::ExtensionTarget;
use sort_gadgets::target::Target;
use sort_gadgets::witness::PartialWitness;

/// 2^64 - 9 * 2^28 + 1.
const CRANDALL: u64 = 18446744071293632513;

struct Lcg(u64);

impl Lcg {
    fn next(&mut self) -> u64 {
        self.0 = self.0.wrapping_mul(6364136223846793005).wrapping_add(1442695040888963407);
        self.0
    }

    fn element(&mut self) -> [u64; 4] {
        [self.next(), self.next(), self.next(), self.next()]
    }
}

fn mix(observed: &[u64], modulus: u64) -> u64 {
    let mut state: u64 = 0x9E37_79B9_7F4A_7C15;
    for value in observed {
        state = (state ^ value).wrapping_mul(0xFF51_AFD7_ED55_8CCD).rotate_left(29);
    }
    state % modulus
}

fn complete(data: &CircuitData, witness: &mut PartialWitness) {
    loop {
        data.resolve(witness);
        match data.next_challenge(witness) {
            Some((wire, observed)) => {
                witness.set_target(wire, mix(&observed, data.modulus())).unwrap();
            }
            None => break,
        }
    }
}

fn real_insert<const D: usize>(
    index: usize,
    element: ExtensionTarget<D>,
    v: &[ExtensionTarget<D>],
) -> Vec<ExtensionTarget<D>> {
    let mut res = v.to_vec();
    res.insert(index, element);
    res
}

fn test_insert_given_len(len_log: usize) {
    let mut random = Lcg(len_log as u64);
    let len = 1 << len_log;
    let mut builder = CircuitBuilder::new(CRANDALL);
    let v = (0..len - 1)
        .map(|_| builder.constant_extension(random.element()))
        .collect::<Vec<_>>();

    for i in 0..len {
        let it = builder.constant(i as u64);
        let elem = builder.constant_extension(random.element());
        let inserted = real_insert(i, elem, &v);
        let purported_inserted = builder.insert(it, elem, v.clone()).unwrap();
        assert_eq!(purported_inserted.len(), v.len());

        for (x, y) in inserted.into_iter().zip(purported_inserted) {
            builder.connect_extension(x, y);
        }
    }

    let data = builder.build();
    let mut witness = PartialWitness::new();
    complete(&data, &mut witness);
    assert!(data.check(&witness));
}

#[test]
fn test_insert() {
    for len_log in 1..3 {
        test_insert_given_len(len_log);
    }
}

#[test]
fn insert_places_the_element_at_the_index() {
    let mut builder = CircuitBuilder::new(97);
    let index = builder.add_virtual_target();
    let element = builder.constant_extension([50u64, 51]);
    let v = vec![
        builder.constant_extension([10u64, 11]),
        builder.constant_extension([20u64, 21]),
        builder.constant_extension([30u64, 31]),
    ];
    let out = builder.insert(index, element, v).unwrap();
    let data = builder.build();
    let expected: [[[u64; 2]; 3]; 5] = [
        [[50, 51], [10, 11], [20, 21]],
        [[10, 11], [50, 51], [20, 21]],
        [[10, 11], [20, 21], [50, 51]],
        [[10, 11], [20, 21], [30, 31]],
        [[10, 11], [20, 21], [30, 31]],
    ];
    for (position, rows) in expected.iter().enumerate() {
        let mut witness = PartialWitness::new();
        witness.set_target(index, position as u64).unwrap();
        complete(&data, &mut witness);
        assert!(data.check(&witness));
        for (item, row) in out.iter().zip(rows) {
            assert_eq!(witness.get_targets(&item.0), Some(row.to_vec()));
        }
    }
}

#[test]
fn is_zero_and_is_equal_give_flags() {
    let mut builder = CircuitBuilder::new(97);
    let x = builder.add_virtual_target();
    let y = builder.add_virtual_target();
    let zero_flag = builder.is_zero(x).unwrap();
    let equal_flag = builder.is_equal(x, y).unwrap();
    let data = builder.build();
    for (a, b) in [(0u64, 0u64), (0, 5), (5, 5), (96, 1), (13, 96)] {
        let mut witness = PartialWitness::new();
        witness.set_target(x, a).unwrap();
        witness.set_target(y, b).unwrap();
        complete(&data, &mut witness);
        assert!(data.check(&witness));
        assert_eq!(witness.get_target(zero_flag), Some((a == 0) as u64));
        assert_eq!(witness.get_target(equal_flag), Some((a == b) as u64));
    }
}

#[test]
fn is_zero_rejects_a_forged_flag() {
    let mut builder = CircuitBuilder::new(97);
    let x = builder.add_virtual_target();
    let flag = builder.is_zero(x).unwrap();
    let data = builder.build();
    let mut witness = PartialWitness::new();
    witness.set_target(x, 7).unwrap();
    witness.set_target(flag, 1).unwrap();
    complete(&data, &mut witness);
    assert!(!data.check(&witness));
}

#[test]
fn gadgets_refuse_unallocated_wires() {
    let mut builder = CircuitBuilder::new(97);
    let x = builder.add_virtual_target();
    let stranger = Target { index: 40 };
    assert_eq!(builder.is_zero(stranger), Err(CircuitError::UnknownWire));
    assert_eq!(builder.is_equal(x, stranger), Err(CircuitError::UnknownWire));
    let element = ExtensionTarget([x, x]);
    assert!(matches!(
        builder.insert(stranger, element, vec![element]),
        Err(CircuitError::UnknownWire)
    ));
    assert_eq!(builder.num_targets(), 1);
}
