use sort_gadgets::gadgets::permutation_check::SortGenerator;
use sort_gadgets::generator::GeneratedValues;
use sort_gadgets::serialization::{write_target_vec, write_usize, Buffer, IoError};
use sort_gadgets::target::Target;
use sort_gadgets::witness::PartialWitness;

fn wires(indices: &[usize]) -> Vec<Target> {
    indices.iter().map(|index| Target { index: *index }).collect()
}

#[test]
fn target_vec_is_length_then_indices_little_endian() {
    let mut bytes = Vec::new();
    write_target_vec(&mut bytes, &wires(&[1, 258])).unwrap();
    assert_eq!(
        bytes,
        vec![2, 0, 0, 0, 0, 0, 0, 0, 1, 0, 0, 0, 0, 0, 0, 0, 2, 1, 0, 0, 0, 0, 0, 0]
    );
}

#[test]
fn sort_generator_survives_a_round_trip() {
    let generator = SortGenerator::new(wires(&[0, 1, 2]), wires(&[3, 4, 5]));
    let mut bytes = vec![0xAB];
    generator.serialize(&mut bytes).unwrap();
    assert_eq!(bytes.len(), 1 + 2 * (8 + 3 * 8));
    bytes.push(0xCD);

    let mut buffer = Buffer::new(bytes.split_off(1));
    let restored = SortGenerator::deserialize(&mut buffer).unwrap();
    assert_eq!(restored.dependencies(), wires(&[0, 1, 2]));
    assert_eq!(restored.outputs(), wires(&[3, 4, 5]));
    assert_eq!(buffer.remaining(), 1);
    assert_eq!(restored.id(), "SortGenerator");
}

#[test]
fn deserialize_reports_truncated_bytes() {
    let generator = SortGenerator::new(wires(&[7, 8]), wires(&[9, 10]));
    let mut bytes = Vec::new();
    generator.serialize(&mut bytes).unwrap();
    for cut in 0..bytes.len() {
        let mut buffer = Buffer::new(bytes[..cut].to_vec());
        assert!(matches!(
            SortGenerator::deserialize(&mut buffer),
            Err(IoError::UnexpectedEnd)
        ));
    }
    let mut buffer = Buffer::new(bytes);
    assert!(SortGenerator::deserialize(&mut buffer).is_ok());
}

#[test]
fn read_usize_moves_only_on_success() {
    let mut bytes = Vec::new();
    write_usize(&mut bytes, 77);
    bytes.extend_from_slice(&[1, 2, 3]);
    let mut buffer = Buffer::new(bytes);
    assert_eq!(buffer.read_usize(), Ok(77));
    assert_eq!(buffer.remaining(), 3);
    assert_eq!(buffer.read_usize(), Err(IoError::UnexpectedEnd));
    assert_eq!(buffer.remaining(), 3);
}

#[test]
fn run_once_writes_the_descending_sort() {
    let generator = SortGenerator::new(wires(&[0, 1, 2, 3]), wires(&[10, 11, 12, 13]));
    let mut witness = PartialWitness::new();
    witness
        .set_target_arr(&wires(&[0, 1, 2, 3]), &[4, 9, 4, 1])
        .unwrap();
    let mut buffer = GeneratedValues::new();
    generator.run_once(&witness, &mut buffer);
    assert_eq!(
        buffer.target_values,
        vec![
            (Target { index: 10 }, 9),
            (Target { index: 11 }, 4),
            (Target { index: 12 }, 4),
            (Target { index: 13 }, 1),
        ]
    );
}
