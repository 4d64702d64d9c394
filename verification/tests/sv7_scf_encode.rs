//! Scalefactor encoding of the older format.

#![allow(dead_code)]

use oxideav_musepack::bit_reader::Sv7BitReader;
use oxideav_musepack::bit_writer::Sv7BitWriter;
use oxideav_musepack::error::Error;
use oxideav_musepack::sv7_scf_decode::decode_sv7_band_scf;
use oxideav_musepack::sv7_scf_encode::{choose_scfi, encode_sv7_band_scf, encode_sv7_band_scf_auto};

fn round_trip(indices: [i32; 3], prev: i32) -> (u8, [i32; 3]) {
    let mut w = Sv7BitWriter::new();
    let scfi = encode_sv7_band_scf_auto(&mut w, indices, prev).expect("encode");
    let mut bytes = w.finish();
    bytes.push(0);
    bytes.push(0);
    let mut r = Sv7BitReader::new(&bytes);
    let dec = decode_sv7_band_scf(&mut r, prev).expect("decode");
    assert_eq!(dec.scfi, scfi, "scfi mismatch");
    (dec.scfi, dec.indices)
}

#[test]
fn choose_scfi_matches_case_table() {
    assert_eq!(choose_scfi([5, 5, 5]), 3);
    assert_eq!(choose_scfi([5, 5, 9]), 2);
    assert_eq!(choose_scfi([5, 9, 9]), 1);
    assert_eq!(choose_scfi([5, 9, 13]), 0);
    assert_eq!(choose_scfi([5, 9, 5]), 0);
}

#[test]
fn scfi0_all_distinct_round_trips() {
    let (scfi, idx) = round_trip([50, 49, 52], 48);
    assert_eq!(scfi, 0);
    assert_eq!(idx, [50, 49, 52]);
}

#[test]
fn scfi1_shared_scf2_round_trips() {
    let (scfi, idx) = round_trip([14, 16, 16], 10);
    assert_eq!(scfi, 1);
    assert_eq!(idx, [14, 16, 16]);
}

#[test]
fn scfi2_shared_scf1_round_trips() {
    let (scfi, idx) = round_trip([21, 21, 26], 20);
    assert_eq!(scfi, 2);
    assert_eq!(idx, [21, 21, 26]);
}

#[test]
fn scfi3_all_shared_round_trips() {
    let (scfi, idx) = round_trip([28, 28, 28], 30);
    assert_eq!(scfi, 3);
    assert_eq!(idx, [28, 28, 28]);
}

#[test]
fn escape_used_when_delta_out_of_range() {
    let (scfi, idx) = round_trip([45, 45, 45], 0);
    assert_eq!(scfi, 3);
    assert_eq!(idx, [45, 45, 45]);
}

#[test]
fn escape_for_a_later_coded_index() {
    let (scfi, idx) = round_trip([3, 40, 39], 0);
    assert_eq!(scfi, 0);
    assert_eq!(idx, [3, 40, 39]);
}

#[test]
fn explicit_scfi_with_consistent_indices_round_trips() {
    let mut w = Sv7BitWriter::new();
    encode_sv7_band_scf(&mut w, 2, [12, 12, 20], 5).expect("encode");
    let mut bytes = w.finish();
    bytes.push(0);
    bytes.push(0);
    let mut r = Sv7BitReader::new(&bytes);
    let dec = decode_sv7_band_scf(&mut r, 5).unwrap();
    assert_eq!(dec.scfi, 2);
    assert_eq!(dec.indices, [12, 12, 20]);
}

#[test]
fn prev_band_scf2_threads_between_bands() {
    let mut w = Sv7BitWriter::new();
    let s0 = encode_sv7_band_scf_auto(&mut w, [5, 5, 5], 0).unwrap();
    let s1 = encode_sv7_band_scf_auto(&mut w, [7, 7, 7], 5).unwrap();
    let mut bytes = w.finish();
    bytes.push(0);
    bytes.push(0);
    let mut r = Sv7BitReader::new(&bytes);
    let b0 = decode_sv7_band_scf(&mut r, 0).unwrap();
    let b1 = decode_sv7_band_scf(&mut r, b0.last_index()).unwrap();
    assert_eq!((b0.scfi, b0.indices), (s0, [5, 5, 5]));
    assert_eq!((b1.scfi, b1.indices), (s1, [7, 7, 7]));
}

#[test]
fn rejects_scfi_above_three() {
    let mut w = Sv7BitWriter::new();
    assert_eq!(
        encode_sv7_band_scf(&mut w, 4, [0, 0, 0], 0),
        Err(Error::InvalidScfCodingMethod(4)),
    );
}

#[test]
fn rejects_unrepresentable_escape_index() {
    let mut w = Sv7BitWriter::new();
    assert_eq!(
        encode_sv7_band_scf(&mut w, 3, [200, 200, 200], 0),
        Err(Error::SampleOutOfRange(200)),
    );
}
