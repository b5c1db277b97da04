use justext4::bitmap::{clear_bit, find_first_zero, find_first_zero_run, get_bit, set_bit};

#[test]
fn test_bit_round_trip() {
    let mut buf = vec![0u8; 4];
    assert!(!get_bit(&buf, 5));
    set_bit(&mut buf, 5);
    assert!(get_bit(&buf, 5));
    clear_bit(&mut buf, 5);
    assert!(!get_bit(&buf, 5));
}

#[test]
fn test_bit_little_endian_within_byte() {
    let mut buf = vec![0u8; 2];
    set_bit(&mut buf, 0);
    assert_eq!(buf[0], 0b0000_0001);
    set_bit(&mut buf, 7);
    assert_eq!(buf[0], 0b1000_0001);
    set_bit(&mut buf, 8);
    assert_eq!(buf[1], 0b0000_0001);
}

#[test]
fn test_get_bit_out_of_bounds_returns_false() {
    let buf = vec![0xFFu8; 2];
    assert!(!get_bit(&buf, 100));
}

#[test]
fn test_find_first_zero_in_clean_buffer_returns_zero() {
    let buf = vec![0u8; 4];
    assert_eq!(find_first_zero(&buf, 32), Some(0));
}

#[test]
fn test_find_first_zero_skips_set_bits() {
    let mut buf = vec![0u8; 4];
    set_bit(&mut buf, 0);
    set_bit(&mut buf, 1);
    set_bit(&mut buf, 2);
    assert_eq!(find_first_zero(&buf, 32), Some(3));
}

#[test]
fn test_find_first_zero_all_full_returns_none() {
    let buf = vec![0xFFu8; 4];
    assert_eq!(find_first_zero(&buf, 32), None);
}

#[test]
fn test_find_first_zero_respects_max_bit_below_buffer_size() {
    let mut buf = vec![0u8; 4];
    buf[0] = 0xFF;
    buf[1] = 0xFF;
    assert_eq!(find_first_zero(&buf, 16), None);
    assert_eq!(find_first_zero(&buf, 24), Some(16));
}

#[test]
fn test_find_first_zero_run_in_clean_buffer_returns_zero() {
    let buf = vec![0u8; 8];
    assert_eq!(find_first_zero_run(&buf, 5, 64), Some(0));
    assert_eq!(find_first_zero_run(&buf, 1, 64), Some(0));
}

#[test]
fn test_find_first_zero_run_skips_past_obstruction() {
    let mut buf = vec![0u8; 8];
    set_bit(&mut buf, 3);
    assert_eq!(find_first_zero_run(&buf, 5, 64), Some(4));
}

#[test]
fn test_find_first_zero_run_zero_length_returns_zero() {
    let buf = vec![0xFFu8; 4];
    assert_eq!(find_first_zero_run(&buf, 0, 32), Some(0));
}

#[test]
fn test_find_first_zero_run_no_room_returns_none() {
    let mut buf = vec![0u8; 4];
    for bit in (0..32).step_by(2) {
        set_bit(&mut buf, bit);
    }
    assert_eq!(find_first_zero_run(&buf, 2, 32), None);
}

// ── further cases ────────────────────────────────────────────────

#[test]
fn test_set_bit_leaves_other_bits_alone() {
    let mut buf = vec![0b1010_0101u8, 0xFF];
    set_bit(&mut buf, 1);
    assert_eq!(buf, vec![0b1010_0111, 0xFF]);
    clear_bit(&mut buf, 9);
    assert_eq!(buf, vec![0b1010_0111, 0b1111_1101]);
    clear_bit(&mut buf, 9);
    assert_eq!(buf, vec![0b1010_0111, 0b1111_1101]);
}

#[test]
fn test_find_first_zero_max_bit_not_multiple_of_8() {
    let buf = vec![0b0001_1111u8];
    assert_eq!(find_first_zero(&buf, 5), None);
    assert_eq!(find_first_zero(&buf, 6), Some(5));
    // Bits past the buffer are never reported by find_first_zero.
    let full = vec![0xFFu8];
    assert_eq!(find_first_zero(&full, 64), None);
    assert_eq!(find_first_zero(&[], 8), None);
}

#[test]
fn test_find_first_zero_run_counts_bits_past_buffer_as_clear() {
    let buf = vec![0b0111_1111u8];
    // bit 7 is clear, bits 8.. lie past the buffer and read as clear.
    assert_eq!(find_first_zero_run(&buf, 3, 16), Some(7));
    assert_eq!(find_first_zero_run(&buf, 3, 9), None);
    assert_eq!(find_first_zero_run(&buf, 2, 9), Some(7));
}
