use oddsketch::bits::count_ones;
use oddsketch::{Oddsketch, SketchError, DEFAULT_LEN};

#[test]
fn is_empty() {
    let mut oddsketch = Oddsketch::default();
    assert!(oddsketch.is_empty());

    oddsketch.insert(0);

    assert!(!oddsketch.is_empty());
}

#[test]
fn involution() {
    let mut oddsketch = Oddsketch::default();
    oddsketch.insert(0);
    oddsketch.insert(0);
    assert!(oddsketch.is_empty());
}

#[test]
fn fold_size() {
    for _i in 0..256 {
        let oddsketch = Oddsketch::default();
        let folded = oddsketch.fold(32).unwrap();
        assert_eq!(folded.len(), 32);
    }
}

#[test]
fn default_has_the_default_length() {
    let sketch = Oddsketch::default();
    assert_eq!(DEFAULT_LEN, 256);
    assert_eq!(sketch.len(), 256);
    assert_eq!(sketch.as_bytes(), vec![0u8; 256].as_slice());
    assert_eq!(sketch.hamming_weight(), 0);
}

#[test]
fn with_length_is_empty_at_any_length() {
    for length in [0usize, 1, 2, 7, 32, 255, 256, 1000] {
        let sketch = Oddsketch::with_length(length);
        assert_eq!(sketch.len(), length);
        assert!(sketch.is_empty());
        assert_eq!(sketch.hamming_weight(), 0);
        assert!(sketch.as_bytes().iter().all(|byte| *byte == 0));
    }
}

#[test]
fn new_adopts_the_buffer_verbatim() {
    let raw = vec![0x00u8, 0x01, 0x80, 0xff, 0x5a];
    let sketch = Oddsketch::new(raw.clone());
    assert_eq!(sketch.len(), 5);
    assert_eq!(sketch.as_bytes(), raw.as_slice());
    assert!(!sketch.is_empty());
}

#[test]
fn insert_sets_the_bit_of_the_byte_layout() {
    let mut sketch = Oddsketch::default();
    sketch.insert(0);
    assert_eq!(sketch.as_bytes()[0], 0x01);
    sketch.insert(9);
    assert_eq!(sketch.as_bytes()[1], 0x02);
    sketch.insert(15);
    assert_eq!(sketch.as_bytes()[1], 0x82);
    sketch.insert(2047);
    assert_eq!(sketch.as_bytes()[255], 0x80);
    assert_eq!(sketch.hamming_weight(), 4);
    for (at, byte) in sketch.as_bytes().iter().enumerate() {
        if at != 0 && at != 1 && at != 255 {
            assert_eq!(*byte, 0);
        }
    }
}

#[test]
fn insert_reduces_the_id_modulo_the_bit_length() {
    let mut sketch = Oddsketch::default();
    sketch.insert(2048 + 3);
    assert_eq!(sketch.as_bytes()[0], 0x08);
    sketch.insert(u64::MAX);
    // 2^64 - 1 = 2047 modulo 2048
    assert_eq!(sketch.as_bytes()[255], 0x80);

    let mut small = Oddsketch::with_length(3);
    small.insert(100);
    // 100 = 4 modulo 24
    assert_eq!(small.as_bytes(), [0x10u8, 0, 0].as_slice());
    small.insert(u64::MAX);
    // 2^64 - 1 = 15 modulo 24
    assert_eq!(small.as_bytes(), [0x10u8, 0x80, 0].as_slice());
}

#[test]
fn colliding_ids_cancel() {
    let mut sketch = Oddsketch::default();
    sketch.insert(5);
    sketch.insert(5 + 2048);
    assert!(sketch.is_empty());
    assert_eq!(sketch.hamming_weight(), 0);
}

#[test]
fn insert_one_gives_weight_one() {
    let mut sketch = Oddsketch::default();
    sketch.insert(0);
    assert!(!sketch.is_empty());
    assert_eq!(sketch.hamming_weight(), 1);
}

#[test]
fn bit_reads_least_significant_bit_first() {
    let sketch = Oddsketch::new(vec![0x01, 0x82]);
    let set: Vec<usize> = (0..16).filter(|i| sketch.bit(*i)).collect();
    assert_eq!(set, vec![0, 9, 15]);

    let mut other = Oddsketch::with_length(2);
    other.insert_batch(&[0, 9, 15]);
    assert_eq!(other.as_bytes(), sketch.as_bytes());
}

#[test]
fn insert_batch_is_insert_one_by_one() {
    let ids = [3u64, 77, 2047, 4096, 77, 123_456_789, u64::MAX, 1 << 40];
    let mut batch = Oddsketch::default();
    batch.insert_batch(&ids);
    let mut single = Oddsketch::default();
    for id in ids {
        single.insert(id);
    }
    assert_eq!(batch.as_bytes(), single.as_bytes());
    // 77 comes twice; 2047 and 2^64 - 1 select the same bit, as do 4096 and
    // 2^40; what is left is bit 3 and bit 123_456_789 % 2048 = 1301
    assert_eq!(batch.hamming_weight(), 2);
    assert!(batch.bit(3));
    assert!(batch.bit(1301));
}

#[test]
fn insert_batch_of_nothing_changes_nothing() {
    let mut sketch = Oddsketch::new(vec![1, 2, 3]);
    sketch.insert_batch(&[]);
    assert_eq!(sketch.as_bytes(), [1u8, 2, 3].as_slice());
    let mut none = Oddsketch::with_length(0);
    none.insert_batch(&[]);
    assert_eq!(none.len(), 0);
    assert!(none.is_empty());
}

#[test]
fn hamming_weight_sums_the_set_bits() {
    assert_eq!(Oddsketch::new(vec![0xff, 0x0f, 0x01, 0x00]).hamming_weight(), 13);
    assert_eq!(Oddsketch::new(vec![0xff; 256]).hamming_weight(), 2048);
    assert_eq!(Oddsketch::new(vec![0x80]).hamming_weight(), 1);
    assert_eq!(Oddsketch::new(Vec::new()).hamming_weight(), 0);
}

#[test]
fn count_ones_agrees_with_the_machine() {
    for byte in 0..=255u8 {
        assert_eq!(count_ones(byte), byte.count_ones());
    }
}

#[test]
fn combine_is_bytewise_exclusive_or() {
    let a = Oddsketch::new(vec![0b1100, 0xff, 0x00]);
    let b = Oddsketch::new(vec![0b1010, 0x0f, 0x55]);
    let both = a.combine(&b).unwrap();
    assert_eq!(both.as_bytes(), [0b0110u8, 0xf0, 0x55].as_slice());
    // the operands are untouched
    assert_eq!(a.as_bytes(), [0b1100u8, 0xff, 0x00].as_slice());
    assert_eq!(b.as_bytes(), [0b1010u8, 0x0f, 0x55].as_slice());
}

#[test]
fn combine_refuses_different_lengths() {
    let a = Oddsketch::with_length(4);
    let b = Oddsketch::with_length(5);
    assert_eq!(a.combine(&b).err(), Some(SketchError::LengthMismatch));
    assert_eq!(b.combine(&a).err(), Some(SketchError::LengthMismatch));
    let none = Oddsketch::with_length(0);
    assert_eq!(none.combine(&a).err(), Some(SketchError::LengthMismatch));
    assert!(none.combine(&Oddsketch::with_length(0)).is_ok());
}

#[test]
fn combine_into_works_in_place() {
    let mut a = Oddsketch::new(vec![0b1100, 0xff, 0x00]);
    let b = Oddsketch::new(vec![0b1010, 0x0f, 0x55]);
    assert_eq!(a.combine_into(&b), Ok(()));
    assert_eq!(a.as_bytes(), [0b0110u8, 0xf0, 0x55].as_slice());
    assert_eq!(a.combine_into(&b), Ok(()));
    assert_eq!(a.as_bytes(), [0b1100u8, 0xff, 0x00].as_slice());
}

#[test]
fn combine_into_refused_changes_nothing() {
    let mut a = Oddsketch::new(vec![1, 2, 3]);
    let longer = Oddsketch::new(vec![0xff; 4]);
    let shorter = Oddsketch::new(vec![0xff; 2]);
    assert_eq!(a.combine_into(&longer), Err(SketchError::LengthMismatch));
    assert_eq!(a.as_bytes(), [1u8, 2, 3].as_slice());
    assert_eq!(a.combine_into(&shorter), Err(SketchError::LengthMismatch));
    assert_eq!(a.as_bytes(), [1u8, 2, 3].as_slice());
}

#[test]
fn fold_of_default_is_all_zero() {
    let folded = Oddsketch::default().fold(32).unwrap();
    assert_eq!(folded, vec![0u8; 32]);
}

#[test]
fn fold_reduces_each_chunk() {
    let bytes = vec![1u8, 2, 3, 4, 5, 6];
    assert_eq!(Oddsketch::new(bytes.clone()).fold(3), Ok(vec![1 ^ 2, 3 ^ 4, 5 ^ 6]));
    assert_eq!(Oddsketch::new(bytes.clone()).fold(3), Ok(vec![3, 7, 3]));
    assert_eq!(Oddsketch::new(bytes.clone()).fold(2), Ok(vec![0, 7]));
    assert_eq!(Oddsketch::new(bytes.clone()).fold(1), Ok(vec![7]));
    assert_eq!(Oddsketch::new(bytes.clone()).fold(6), Ok(bytes));
}

#[test]
fn fold_keeps_what_was_inserted() {
    let mut sketch = Oddsketch::default();
    sketch.insert(0);
    sketch.insert(8 * 8 + 1);
    sketch.insert(255 * 8 + 7);
    let folded = sketch.fold(32).unwrap();
    let mut expected = vec![0u8; 32];
    expected[0] = 0x01;
    expected[1] = 0x02;
    expected[31] = 0x80;
    assert_eq!(folded, expected);
}

#[test]
fn fold_refuses_a_length_that_does_not_divide() {
    let sketch = Oddsketch::default();
    assert_eq!(sketch.fold(255), Err(SketchError::InvalidTargetLength));
    assert_eq!(Oddsketch::default().fold(3), Err(SketchError::InvalidTargetLength));
    assert_eq!(Oddsketch::with_length(6).fold(4), Err(SketchError::InvalidTargetLength));
}

#[test]
fn fold_refuses_zero_and_too_long() {
    assert_eq!(Oddsketch::default().fold(0), Err(SketchError::InvalidTargetLength));
    assert_eq!(Oddsketch::default().fold(257), Err(SketchError::InvalidTargetLength));
    assert_eq!(Oddsketch::default().fold(512), Err(SketchError::InvalidTargetLength));
    assert_eq!(Oddsketch::with_length(0).fold(0), Err(SketchError::InvalidTargetLength));
    assert_eq!(Oddsketch::with_length(0).fold(1), Err(SketchError::InvalidTargetLength));
}

#[test]
fn clone_is_independent() {
    let mut first = Oddsketch::default();
    first.insert(42);
    let mut copy = first.clone();
    assert_eq!(copy.as_bytes(), first.as_bytes());
    copy.insert(43);
    assert_eq!(first.hamming_weight(), 1);
    assert_eq!(copy.hamming_weight(), 2);
}

#[test]
fn checked_hamming_weight_counts_what_fits() {
    assert_eq!(Oddsketch::default().checked_hamming_weight(), Some(0));
    assert_eq!(Oddsketch::new(vec![0xff, 0x0f, 0x01, 0x00]).checked_hamming_weight(), Some(13));
    assert_eq!(Oddsketch::new(vec![0xff; 256]).checked_hamming_weight(), Some(2048));
}

#[test]
fn deref_reads_the_buffer() {
    let mut sketch = Oddsketch::default();
    sketch.insert(8);
    let buffer: &Vec<u8> = &sketch;
    assert_eq!(buffer.len(), 256);
    assert_eq!(sketch[1], 0x01);
    assert_eq!(sketch.iter().filter(|byte| **byte != 0).count(), 1);
    assert_eq!(sketch.as_slice(), sketch.as_bytes());
}

#[test]
fn operator_combines() {
    let a = Oddsketch::new(vec![0b1100, 0xff, 0x00]);
    let b = Oddsketch::new(vec![0b1010, 0x0f, 0x55]);
    let named = a.combine(&b).unwrap();
    let both = a ^ b;
    assert_eq!(both.as_bytes(), [0b0110u8, 0xf0, 0x55].as_slice());
    assert_eq!(both.as_bytes(), named.as_bytes());
}
