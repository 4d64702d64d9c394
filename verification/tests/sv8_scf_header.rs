//! Scalefactor methods.

#![allow(dead_code)]

use oxideav_musepack::bit_reader::Sv7BitReader;
use oxideav_musepack::error::Error;
use oxideav_musepack::sv8_huffman::{Sv8CanonicalEntry, Sv8CanonicalTable, Sv8TableSet};
use oxideav_musepack::sv8_scf_header::{
    CONTEXT_FAULT_SENTINEL, RawScfiVlc, decode_scfi_selectors, decode_sv8_scfi,
};
use std::cell::RefCell;

/// A complete code: `shape` says how many of the symbols, in their order, have code words of
/// each length.
fn code(name: &'static str, shape: &[(u8, u32)], symbols: Vec<i8>) -> Sv8CanonicalTable {
    let mut rows = Vec::new();
    let mut bottom = 0x1_0000_u32;
    let mut index = 0_u32;
    for &(length, count) in shape {
        let step = 1_u32 << (16 - length);
        let top = bottom / step;
        bottom -= count * step;
        rows.push(Sv8CanonicalEntry {
            code: bottom as u16,
            length,
            cum_index: (index + top - 1) as i16,
        });
        index += count;
    }
    Sv8CanonicalTable { lengths: rows.leak(), symbols: symbols.leak(), name }
}

fn pairs(bound: i8) -> Vec<i8> {
    let mut out = Vec::new();
    for hi in -bound..=bound {
        for lo in -bound..=bound {
            out.push((hi << 4) | (lo & 15));
        }
    }
    out
}

fn triples() -> Vec<i8> {
    let mut out: Vec<i8> = vec![62];
    out.extend((0..125_i8).filter(|&s| s != 62));
    out
}

fn levels(bound: i8) -> Vec<i8> {
    let mut out = vec![0];
    for l in 1..=bound {
        out.push(l);
        out.push(-l);
    }
    out
}

fn set() -> &'static Sv8TableSet {
    Box::leak(Box::new(Sv8TableSet {
        bands: code(
            "sv8-canonical-bands",
            &[(1, 1), (3, 1), (4, 1), (5, 1), (6, 13), (7, 9), (8, 1), (9, 1), (10, 1), (11, 1), (12, 1), (13, 2)],
            (0..33).collect(),
        ),
        res: [
            code(
                "sv8-canonical-res-1",
                &[
                    (1, 1), (2, 1), (3, 1), (4, 1), (5, 1), (6, 1), (7, 1), (8, 1), (9, 1), (10, 1), (11, 1),
                    (12, 1), (13, 1), (14, 1), (15, 1), (16, 2),
                ],
                (0..17).collect(),
            ),
            code(
                "sv8-canonical-res-2",
                &[(1, 1), (3, 1), (4, 5), (5, 1), (6, 1), (7, 1), (8, 1), (9, 1), (10, 1), (11, 1), (12, 1), (13, 2)],
                (0..17).collect(),
            ),
        ],
        scfi: [
            code("sv8-canonical-scfi-1", &[(1, 1), (2, 1), (3, 2)], (0..4).collect()),
            code(
                "sv8-canonical-scfi-2",
                &[(1, 1), (3, 1), (4, 1), (5, 7), (6, 6)],
                (0..16).collect(),
            ),
        ],
        dscf: [
            code(
                "sv8-canonical-dscf-1",
                &[(1, 1), (3, 1), (4, 1), (5, 1), (6, 1), (7, 14), (8, 39), (9, 1), (10, 1), (11, 1), (12, 1), (13, 2)],
                (0..64).collect(),
            ),
            code(
                "sv8-canonical-dscf-2",
                &[
                    (1, 1), (3, 1), (4, 1), (5, 1), (6, 1), (7, 14), (8, 39), (9, 1), (10, 1), (11, 1), (12, 1),
                    (13, 1), (14, 2),
                ],
                (0..65).collect(),
            ),
        ],
        q1: code(
            "sv8-canonical-q1",
            &[(3, 5), (4, 5), (5, 1), (6, 1), (7, 1), (8, 1), (9, 1), (10, 1), (11, 1), (12, 2)],
            (0..19).collect(),
        ),
        q2: [
            code(
                "sv8-canonical-q2-1",
                &[(1, 1), (3, 1), (4, 1), (5, 1), (6, 1), (7, 1), (8, 15), (9, 101), (10, 1), (11, 2)],
                triples(),
            ),
            code(
                "sv8-canonical-q2-2",
                &[(1, 1), (3, 1), (4, 1), (5, 1), (6, 1), (7, 1), (8, 14), (9, 103), (10, 2)],
                triples(),
            ),
        ],
        q3: code(
            "sv8-canonical-q3",
            &[(1, 1), (3, 1), (4, 1), (5, 1), (6, 1), (7, 24), (8, 20)],
            pairs(3),
        ),
        q4: code(
            "sv8-canonical-q4",
            &[(3, 1), (5, 1), (6, 32), (7, 43), (8, 1), (9, 1), (10, 2)],
            pairs(4),
        ),
        q5: [
            code("sv8-canonical-q5-1", &[(1, 1), (3, 1), (4, 1), (5, 9), (6, 1), (7, 2)], levels(7)),
            code("sv8-canonical-q5-2", &[(1, 1), (4, 3), (5, 9), (6, 2)], levels(7)),
        ],
        q6: [
            code(
                "sv8-canonical-q6-1",
                &[(1, 1), (3, 1), (4, 1), (5, 1), (6, 11), (7, 13), (8, 1), (9, 2)],
                levels(15),
            ),
            code("sv8-canonical-q6-2", &[(1, 1), (4, 1), (5, 1), (6, 24), (7, 4)], levels(15)),
        ],
        q7: [
            code(
                "sv8-canonical-q7-1",
                &[(1, 1), (3, 1), (4, 1), (5, 1), (6, 1), (7, 12), (8, 43), (9, 1), (10, 2)],
                levels(31),
            ),
            code("sv8-canonical-q7-2", &[(1, 1), (5, 1), (6, 1), (7, 56), (8, 4)], levels(31)),
        ],
        q8: [
            code(
                "sv8-canonical-q8-1",
                &[(1, 1), (3, 1), (4, 1), (5, 1), (6, 1), (7, 1), (8, 14), (9, 103), (10, 1), (11, 1), (12, 2)],
                levels(63),
            ),
            code("sv8-canonical-q8-2", &[(1, 1), (7, 3), (8, 121), (9, 2)], levels(63)),
        ],
        q9up: code(
            "sv8-canonical-q9up",
            &[(1, 1), (6, 1), (7, 1), (8, 1), (9, 232), (10, 20)],
            (i8::MIN..=i8::MAX).collect(),
        ),
    }))
}

fn scfi_1_table() -> &'static Sv8CanonicalTable {
    &set().scfi[0]
}

fn scfi_2_table() -> &'static Sv8CanonicalTable {
    &set().scfi[1]
}

struct BitPacker {
    bytes: Vec<u8>,
    acc: u32,
    nbits: u8,
}

impl BitPacker {
    fn new() -> Self {
        BitPacker {
            bytes: Vec::new(),
            acc: 0,
            nbits: 0,
        }
    }
    fn push(&mut self, pattern: u16, length: u8) {
        for i in 0..length {
            let bit = (pattern >> (15 - i)) & 1;
            self.acc = (self.acc << 1) | bit as u32;
            self.nbits += 1;
            if self.nbits == 8 {
                self.bytes.push(self.acc as u8);
                self.acc = 0;
                self.nbits = 0;
            }
        }
    }
    fn finish(mut self) -> Vec<u8> {
        if self.nbits > 0 {
            self.bytes.push((self.acc << (8 - self.nbits)) as u8);
        }
        self.bytes.push(0);
        self.bytes.push(0);
        self.bytes
    }
}

fn symbol_for_row(table: &Sv8CanonicalTable, r: usize) -> i8 {
    let e = table.lengths[r];
    let mut p = BitPacker::new();
    p.push(e.code, e.length);
    let bytes = p.finish();
    let mut reader = Sv7BitReader::new(&bytes);
    table.decode(&mut reader).expect("single-codeword decode")
}

#[test]
fn raw_scfi_vlc_roundtrips() {
    for v in [-1_i8, 0, 1, 3, 15, 16, i8::MIN, i8::MAX] {
        let w = RawScfiVlc::from_raw(v);
        assert_eq!(w.as_i8(), v);
    }
}

#[test]
fn raw_scfi_vlc_is_copy_and_eq() {
    let a = RawScfiVlc::from_raw(7);
    let b = a;
    assert_eq!(a, b);
    assert_ne!(a, RawScfiVlc::from_raw(8));
}

#[test]
fn decode_one_band_uses_initial_ctx_zero_variant1() {
    let want = symbol_for_row(scfi_1_table(), 0);
    let e = scfi_1_table().lengths[0];
    let mut p = BitPacker::new();
    p.push(e.code, e.length);
    let bytes = p.finish();
    let mut r = Sv7BitReader::new(&bytes);
    let got = decode_scfi_selectors(set(), &mut r, 1, 0, |_| 0).unwrap();
    assert_eq!(got.len(), 1);
    assert_eq!(got[0], RawScfiVlc::from_raw(want));
}

#[test]
fn decode_one_band_uses_initial_ctx_one_variant2() {
    let want = symbol_for_row(scfi_2_table(), 0);
    let e = scfi_2_table().lengths[0];
    let mut p = BitPacker::new();
    p.push(e.code, e.length);
    let bytes = p.finish();
    let mut r = Sv7BitReader::new(&bytes);
    let got = decode_scfi_selectors(set(), &mut r, 1, 1, |_| 1).unwrap();
    assert_eq!(got[0], RawScfiVlc::from_raw(want));
}

#[test]
fn decode_two_bands_switches_context_from_first_to_second() {
    let e0 = scfi_1_table().lengths[1];
    let e1 = scfi_2_table().lengths[1];
    let want0 = symbol_for_row(scfi_1_table(), 1);
    let want1 = symbol_for_row(scfi_2_table(), 1);
    let mut p = BitPacker::new();
    p.push(e0.code, e0.length);
    p.push(e1.code, e1.length);
    let bytes = p.finish();
    let mut r = Sv7BitReader::new(&bytes);
    let seen_prev: RefCell<Vec<RawScfiVlc>> = RefCell::new(Vec::new());
    let got = decode_scfi_selectors(set(), &mut r, 2, 0, |prev| {
        seen_prev.borrow_mut().push(prev);
        1
    })
    .unwrap();
    assert_eq!(
        got,
        vec![RawScfiVlc::from_raw(want0), RawScfiVlc::from_raw(want1)]
    );
    assert_eq!(
        seen_prev.into_inner(),
        vec![RawScfiVlc::from_raw(want0), RawScfiVlc::from_raw(want1)]
    );
}

#[test]
fn zero_bands_reads_nothing_and_returns_empty() {
    let bytes = [0u8, 0, 0, 0];
    let mut r = Sv7BitReader::new(&bytes);
    let got = decode_scfi_selectors(set(), &mut r, 0, 0, |_| {
        panic!("closure must not run for zero bands")
    })
    .unwrap();
    assert!(got.is_empty());
}

#[test]
fn sv8_scf_header_out_of_range_initial_ctx_is_context_fault() {
    let bytes = [0xFFu8, 0xFF, 0, 0];
    let mut r = Sv7BitReader::new(&bytes);
    assert_eq!(
        decode_scfi_selectors(set(), &mut r, 1, 2, |_| 0),
        Err(Error::UnsupportedBandType(CONTEXT_FAULT_SENTINEL))
    );
}

#[test]
fn out_of_range_ctx_from_closure_is_context_fault_on_second_band() {
    let e0 = scfi_1_table().lengths[0];
    let mut p = BitPacker::new();
    p.push(e0.code, e0.length);
    let bytes = p.finish();
    let mut r = Sv7BitReader::new(&bytes);
    assert_eq!(
        decode_scfi_selectors(set(), &mut r, 2, 0, |_| 5),
        Err(Error::UnsupportedBandType(CONTEXT_FAULT_SENTINEL))
    );
}

#[test]
fn sv8_scf_header_propagates_unexpected_eof_mid_walk() {
    let bytes: [u8; 0] = [];
    let mut r = Sv7BitReader::new(&bytes);
    assert_eq!(
        decode_scfi_selectors(set(), &mut r, 1, 0, |_| 0),
        Err(Error::UnexpectedEof)
    );
}

#[test]
fn context_fault_sentinel_is_outside_band_type_and_scfi_domains() {
    assert_eq!(CONTEXT_FAULT_SENTINEL, i8::MIN);
    for v in -1i8..=17 {
        assert_ne!(v, CONTEXT_FAULT_SENTINEL);
    }
}

fn codeword_for_symbol(table: &Sv8CanonicalTable, target: i8) -> Option<(u16, u8)> {
    let mut upper: u32 = 0x1_0000;
    for e in table.lengths.iter() {
        if e.length == 0 {
            continue;
        }
        let step = 1u32 << (16 - e.length as u32);
        let mut pat = e.code as u32;
        while pat < upper {
            let mut p = BitPacker::new();
            p.push(pat as u16, e.length);
            let bytes = p.finish();
            let mut r = Sv7BitReader::new(&bytes);
            if table.decode(&mut r).unwrap() == target {
                return Some((pat as u16, e.length));
            }
            pat += step;
        }
        upper = e.code as u32;
    }
    None
}

#[test]
fn scfi_single_channel_reads_scfi1_value_directly() {
    for &target in &[0i8, 1, 2, 3] {
        let Some((code, len)) = codeword_for_symbol(scfi_1_table(), target) else {
            continue;
        };
        for nch in [0u8, 1] {
            let mut p = BitPacker::new();
            p.push(code, len);
            let bytes = p.finish();
            let mut r = Sv7BitReader::new(&bytes);
            let scfi = decode_sv8_scfi(set(), &mut r, nch).unwrap();
            assert_eq!(scfi.left, target as u8, "nch {nch} target {target}");
            assert_eq!(scfi.right, target as u8);
        }
    }
}

#[test]
fn scfi_both_channels_splits_packed_value_into_left_and_right() {
    for value in 0i8..=15 {
        let Some((code, len)) = codeword_for_symbol(scfi_2_table(), value) else {
            continue;
        };
        let mut p = BitPacker::new();
        p.push(code, len);
        let bytes = p.finish();
        let mut r = Sv7BitReader::new(&bytes);
        let scfi = decode_sv8_scfi(set(), &mut r, 2).unwrap();
        assert_eq!(scfi.left, (value as u8) >> 2, "value {value} left");
        assert_eq!(scfi.right, (value as u8) & 3, "value {value} right");
        assert!(scfi.left <= 3 && scfi.right <= 3);
    }
}

#[test]
fn scfi_both_channels_recovers_each_of_the_four_left_right_combos() {
    for l in 0u8..=3 {
        for rgt in 0u8..=3 {
            let packed = (l * 4 + rgt) as i8;
            let Some((code, len)) = codeword_for_symbol(scfi_2_table(), packed) else {
                continue;
            };
            let mut p = BitPacker::new();
            p.push(code, len);
            let bytes = p.finish();
            let mut r = Sv7BitReader::new(&bytes);
            let scfi = decode_sv8_scfi(set(), &mut r, 2).unwrap();
            assert_eq!((scfi.left, scfi.right), (l, rgt), "packed {packed}");
        }
    }
}

#[test]
fn scfi_rejects_channel_count_above_two() {
    for nch in [3u8, 4, u8::MAX] {
        let mut r = Sv7BitReader::new(&[0xFF; 4]);
        assert_eq!(
            decode_sv8_scfi(set(), &mut r, nch),
            Err(Error::ChannelCountInvalid(nch))
        );
    }
}

#[test]
fn scfi_grounded_propagates_eof() {
    let mut r = Sv7BitReader::new(&[]);
    assert_eq!(decode_sv8_scfi(set(), &mut r, 2), Err(Error::UnexpectedEof));
}
