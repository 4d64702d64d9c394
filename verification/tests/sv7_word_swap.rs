//! Byte order of the older format.

#![allow(dead_code)]

use oxideav_musepack::sv7_word_swap::{word_swap_sv7_body, word_swap_sv7_body_in_place};

#[test]
fn empty_input_is_empty_output() {
    assert!(word_swap_sv7_body(&[]).is_empty());
}

#[test]
fn single_aligned_word_reverses() {
    assert_eq!(word_swap_sv7_body(&[0, 1, 2, 3]), vec![3, 2, 1, 0]);
}

#[test]
fn two_aligned_words_reverse_independently() {
    let raw = [0, 1, 2, 3, 4, 5, 6, 7];
    assert_eq!(word_swap_sv7_body(&raw), vec![3, 2, 1, 0, 7, 6, 5, 4],);
}

#[test]
fn trailing_one_byte_zero_extends_high() {
    assert_eq!(word_swap_sv7_body(&[0xAB]), vec![0x00, 0x00, 0x00, 0xAB]);
}

#[test]
fn trailing_two_bytes_zero_extend_high() {
    assert_eq!(
        word_swap_sv7_body(&[0xAB, 0xCD]),
        vec![0x00, 0x00, 0xCD, 0xAB],
    );
}

#[test]
fn trailing_three_bytes_zero_extend_high() {
    assert_eq!(
        word_swap_sv7_body(&[0xAB, 0xCD, 0xEF]),
        vec![0x00, 0xEF, 0xCD, 0xAB],
    );
}

#[test]
fn aligned_plus_partial() {
    let raw = [1, 2, 3, 4, 5, 6];
    assert_eq!(word_swap_sv7_body(&raw), vec![4, 3, 2, 1, 0, 0, 6, 5],);
}

#[test]
fn output_length_is_word_padded() {
    for len in 0..=16usize {
        let raw: Vec<u8> = (0..len as u8).collect();
        let out = word_swap_sv7_body(&raw);
        assert_eq!(out.len(), len.div_ceil(4) * 4, "len {len}");
    }
}

#[test]
fn in_place_matches_allocating_for_aligned() {
    let raw = [10u8, 20, 30, 40, 50, 60, 70, 80];
    let mut buf = raw;
    assert!(word_swap_sv7_body_in_place(&mut buf));
    assert_eq!(buf.to_vec(), word_swap_sv7_body(&raw));
}

#[test]
fn in_place_rejects_unaligned() {
    let mut buf = [1u8, 2, 3];
    assert!(!word_swap_sv7_body_in_place(&mut buf));
    assert_eq!(buf, [1, 2, 3]);
}

#[test]
fn double_swap_is_identity_for_aligned() {
    let raw = [9u8, 8, 7, 6, 5, 4, 3, 2];
    let once = word_swap_sv7_body(&raw);
    let twice = word_swap_sv7_body(&once);
    assert_eq!(twice, raw.to_vec());
}

#[test]
fn swapped_word_is_big_endian_of_le_word() {
    let raw = [0x78u8, 0x56, 0x34, 0x12];
    let le = u32::from_le_bytes(raw);
    assert_eq!(word_swap_sv7_body(&raw), le.to_be_bytes().to_vec());
}
