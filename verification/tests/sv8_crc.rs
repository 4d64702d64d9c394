//! The header checksum.

#![allow(dead_code)]

use oxideav_musepack::sv8_crc::sv8_crc32;

#[test]
fn matches_the_standard_check_value() {
    assert_eq!(sv8_crc32(b"123456789"), 0xCBF4_3926);
}

#[test]
fn empty_input() {
    assert_eq!(sv8_crc32(b""), 0);
}

#[test]
fn detects_single_bit_flip() {
    let a = sv8_crc32(&[0x00, 0x01, 0x02, 0x03]);
    let b = sv8_crc32(&[0x00, 0x01, 0x02, 0x07]);
    assert_ne!(a, b);
}
