use image_dedup::distance::{count_bits, within_distance, SIMILARITY_THRESHOLD};
use image_dedup::order::{compare_hashes, Position};

#[test]
fn count_bits_of_known_bytes() {
    assert_eq!(count_bits(0x00), 0);
    assert_eq!(count_bits(0x01), 1);
    assert_eq!(count_bits(0x80), 1);
    assert_eq!(count_bits(0b1011_0000), 3);
    assert_eq!(count_bits(0xff), 8);
}

#[test]
fn count_bits_agrees_with_count_ones_on_every_byte() {
    for b in 0..=255u8 {
        assert_eq!(count_bits(b), b.count_ones());
    }
}

#[test]
fn threshold_is_five_bits() {
    assert_eq!(SIMILARITY_THRESHOLD, 5);
}

#[test]
fn distance_is_popcount_of_xor() {
    let a = vec![0b0000_0000u8, 0b1111_0000, 0x00];
    let b = vec![0b0000_0111u8, 0b1111_0000, 0x80];
    // three bits differ in the first byte, none in the second, one in the third
    assert!(within_distance(&a, &b, 4));
    assert!(!within_distance(&a, &b, 3));
    assert!(within_distance(&b, &a, 4));
    assert!(!within_distance(&b, &a, 3));
}

#[test]
fn distance_to_itself_is_zero() {
    let a = vec![0xde, 0xad, 0xbe, 0xef];
    assert!(within_distance(&a, &a, 0));
}

#[test]
fn distance_at_and_beyond_the_threshold() {
    let zero = vec![0u8; 8];
    let five = vec![0b0001_1111u8, 0, 0, 0, 0, 0, 0, 0];
    let six = vec![0b0001_1111u8, 0, 0, 0, 0, 0, 0, 0x01];
    assert!(within_distance(&zero, &five, SIMILARITY_THRESHOLD));
    assert!(!within_distance(&zero, &six, SIMILARITY_THRESHOLD));
}

#[test]
fn distance_of_empty_hashes_is_zero() {
    assert!(within_distance(&Vec::new(), &Vec::new(), 0));
}

#[test]
fn distance_does_not_overflow_on_a_huge_limit() {
    let a = vec![0x00u8; 64];
    let b = vec![0xffu8; 64];
    assert!(within_distance(&a, &b, u32::MAX));
    assert!(within_distance(&a, &b, 512));
    assert!(!within_distance(&a, &b, 511));
}

#[test]
fn byte_order_compares_from_the_front() {
    assert_eq!(compare_hashes(&vec![1, 2, 3], &vec![1, 2, 4]), Position::Before);
    assert_eq!(compare_hashes(&vec![1, 2, 4], &vec![1, 2, 3]), Position::After);
    assert_eq!(compare_hashes(&vec![1, 2, 3], &vec![1, 2, 3]), Position::Same);
    assert_eq!(compare_hashes(&vec![0, 255], &vec![1, 0]), Position::Before);
    assert_eq!(compare_hashes(&vec![2, 0], &vec![1, 255]), Position::After);
}

#[test]
fn byte_order_puts_a_prefix_first() {
    assert_eq!(compare_hashes(&vec![1, 2], &vec![1, 2, 0]), Position::Before);
    assert_eq!(compare_hashes(&vec![1, 2, 0], &vec![1, 2]), Position::After);
    assert_eq!(compare_hashes(&Vec::new(), &vec![0]), Position::Before);
    assert_eq!(compare_hashes(&Vec::new(), &Vec::new()), Position::Same);
}

#[test]
fn byte_order_agrees_with_std_on_vectors() {
    let samples: Vec<Vec<u8>> = vec![
        vec![],
        vec![0],
        vec![0, 0],
        vec![0, 1],
        vec![1],
        vec![1, 0],
        vec![255],
        vec![255, 255],
    ];
    for a in &samples {
        for b in &samples {
            let expected = if a < b {
                Position::Before
            } else if a == b {
                Position::Same
            } else {
                Position::After
            };
            assert_eq!(compare_hashes(a, b), expected);
        }
    }
}
