use succinct::bit_vector::BitVector;
use succinct::utils::{bv_get, bv_set, bv_size, my_log};

#[test]
fn new_starts_all_clear() {
    let bv = BitVector::new(100);
    assert_eq!(bv.size(), 100);
    for i in 0..100 {
        assert!(!bv.get(i));
    }
}

#[test]
fn set_and_get_round_trip() {
    let mut bv = BitVector::new(200);
    let positions = [0usize, 1, 63, 64, 65, 127, 128, 199];
    for &p in positions.iter() {
        bv.set(p, true);
    }
    for i in 0..200 {
        assert_eq!(bv.get(i), positions.contains(&i));
    }
    // Clearing works and leaves the rest alone.
    bv.set(64, false);
    assert!(!bv.get(64));
    assert!(bv.get(63));
    assert!(bv.get(65));
}

#[test]
fn set_keeps_sibling_bits_of_same_word() {
    let mut bv = BitVector::new(64);
    bv.set(3, true);
    bv.set(5, true);
    bv.set(3, false);
    assert!(!bv.get(3));
    assert!(bv.get(5));
}

#[test]
fn first_x_bits_masks_low_bits() {
    let bv = BitVector::new(2);
    assert_eq!(bv.get_first_x_bits(0b1011_0110, 4), 0b0110);
    assert_eq!(bv.get_first_x_bits(0b1011_0110, 0), 0);
    assert_eq!(bv.get_first_x_bits(u64::MAX, 63), u64::MAX >> 1);
}

#[test]
fn first_x_bits_from_left_takes_high_bits() {
    let bv = BitVector::new(2);
    assert_eq!(bv.get_first_x_bits_from_left(1u64 << 63, 1), 1);
    assert_eq!(bv.get_first_x_bits_from_left(0xFF00_0000_0000_0000, 8), 0xFF);
    assert_eq!(bv.get_first_x_bits_from_left(0xABCD, 64), 0xABCD);
    assert_eq!(bv.get_first_x_bits_from_left(0xABCD, 100), 0xABCD);
    assert_eq!(bv.get_first_x_bits_from_left(u64::MAX, 0), 0);
}

#[test]
fn interpret_range_within_one_word() {
    let mut bv = BitVector::new(100);
    bv.set(2, true);
    bv.set(3, true);
    // Bits of [1, 6) are 0,1,1,0,0 from the bottom: the value 6.
    assert_eq!(bv.interpret_as_u64_int(1, 6), 0b110);
}

#[test]
fn interpret_range_spanning_two_words() {
    let mut bv = BitVector::new(130);
    bv.set(62, true);
    bv.set(64, true);
    bv.set(65, true);
    // Bits of [60, 70): set offsets are 2, 4 and 5.
    assert_eq!(bv.interpret_as_u64_int(60, 70), (1 << 2) | (1 << 4) | (1 << 5));
}

#[test]
fn interpret_full_word_at_boundary() {
    let mut bv = BitVector::new(192);
    bv.set(64, true);
    bv.set(127, true);
    assert_eq!(bv.interpret_as_u64_int(64, 128), 1 | (1u64 << 63));
}

#[test]
fn rank_within_word_counts_low_positions() {
    let bv = BitVector::new(2);
    assert_eq!(bv.get_i_th_rank(0b1011, 0), 0);
    assert_eq!(bv.get_i_th_rank(0b1011, 1), 1);
    assert_eq!(bv.get_i_th_rank(0b1011, 2), 2);
    assert_eq!(bv.get_i_th_rank(0b1011, 3), 2);
    assert_eq!(bv.get_i_th_rank(0b1011, 4), 3);
    assert_eq!(bv.get_i_th_rank(u64::MAX, 64), 64);
}

#[test]
fn my_log_rounds_down_then_up_to_even() {
    assert_eq!(my_log(1), 0);
    assert_eq!(my_log(2), 2);
    assert_eq!(my_log(3), 2);
    assert_eq!(my_log(4), 2);
    assert_eq!(my_log(20), 4);
    assert_eq!(my_log(1000), 10);
    assert_eq!(my_log(1023), 10);
    assert_eq!(my_log(1024), 10);
    assert_eq!(my_log(100_000_000), 26);
}

#[test]
fn free_function_wrappers_match_methods() {
    let mut bv = BitVector::new(50);
    assert_eq!(bv_size(&bv), 50);
    bv_set(&mut bv, 7, true);
    assert!(bv_get(&mut bv, 7));
    assert!(!bv_get(&mut bv, 8));
    bv_set(&mut bv, 7, false);
    assert!(!bv_get(&mut bv, 7));
}

#[test]
fn memory_usage_counts_words() {
    let bv = BitVector::new(100);
    // 100 bits pack into (100 + 64) / 64 = 2 words of 8 bytes.
    assert_eq!(bv.memory_usage(), 16);
}
