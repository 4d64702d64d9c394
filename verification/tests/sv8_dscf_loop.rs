//! Scalefactor differences.

#![allow(dead_code)]

use oxideav_musepack::bit_reader::Sv7BitReader;
use oxideav_musepack::error::Error;
use oxideav_musepack::sv8_dscf_loop::{
    CONTEXT_FAULT_SENTINEL, RawDscfVlc, decode_dscf_deltas, decode_sv8_band_scf,
    scfi_coded_granules,
};
use oxideav_musepack::sv8_huffman::{Sv8CanonicalEntry, Sv8CanonicalTable, Sv8TableSet};
use std::cell::RefCell;

/// A complete code: `shape` says how many of the symbols, in their order, have code words of
/// each length.
fn code(name: &'static str, shape: &[(u8, u32)], symbols: Vec<i8>) -> Sv8CanonicalTable {
    let mut rows = Vec::new();
    let mut bottom = 0x1_0000_u32;
    let mut index = 0_u32;
    for &(length, count) in shape {
        let step = 1_u32 << (16 - length);
        let top = bottom / step;
        bottom -= count * step;
        rows.push(Sv8CanonicalEntry {
            code: bottom as u16,
            length,
            cum_index: (index + top - 1) as i16,
        });
        index += count;
    }
    Sv8CanonicalTable { lengths: rows.leak(), symbols: symbols.leak(), name }
}

fn pairs(bound: i8) -> Vec<i8> {
    let mut out = Vec::new();
    for hi in -bound..=bound {
        for lo in -bound..=bound {
            out.push((hi << 4) | (lo & 15));
        }
    }
    out
}

fn triples() -> Vec<i8> {
    let mut out: Vec<i8> = vec![62];
    out.extend((0..125_i8).filter(|&s| s != 62));
    out
}

fn levels(bound: i8) -> Vec<i8> {
    let mut out = vec![0];
    for l in 1..=bound {
        out.push(l);
        out.push(-l);
    }
    out
}

fn set() -> &'static Sv8TableSet {
    Box::leak(Box::new(Sv8TableSet {
        bands: code(
            "sv8-canonical-bands",
            &[(1, 1), (3, 1), (4, 1), (5, 1), (6, 13), (7, 9), (8, 1), (9, 1), (10, 1), (11, 1), (12, 1), (13, 2)],
            (0..33).collect(),
        ),
        res: [
            code(
                "sv8-canonical-res-1",
                &[
                    (1, 1), (2, 1), (3, 1), (4, 1), (5, 1), (6, 1), (7, 1), (8, 1), (9, 1), (10, 1), (11, 1),
                    (12, 1), (13, 1), (14, 1), (15, 1), (16, 2),
                ],
                (0..17).collect(),
            ),
            code(
                "sv8-canonical-res-2",
                &[(1, 1), (3, 1), (4, 5), (5, 1), (6, 1), (7, 1), (8, 1), (9, 1), (10, 1), (11, 1), (12, 1), (13, 2)],
                (0..17).collect(),
            ),
        ],
        scfi: [
            code("sv8-canonical-scfi-1", &[(1, 1), (2, 1), (3, 2)], (0..4).collect()),
            code(
                "sv8-canonical-scfi-2",
                &[(1, 1), (3, 1), (4, 1), (5, 7), (6, 6)],
                (0..16).collect(),
            ),
        ],
        dscf: [
            code(
                "sv8-canonical-dscf-1",
                &[(1, 1), (3, 1), (4, 1), (5, 1), (6, 1), (7, 14), (8, 39), (9, 1), (10, 1), (11, 1), (12, 1), (13, 2)],
                (0..64).collect(),
            ),
            code(
                "sv8-canonical-dscf-2",
                &[
                    (1, 1), (3, 1), (4, 1), (5, 1), (6, 1), (7, 14), (8, 39), (9, 1), (10, 1), (11, 1), (12, 1),
                    (13, 1), (14, 2),
                ],
                (0..65).collect(),
            ),
        ],
        q1: code(
            "sv8-canonical-q1",
            &[(3, 5), (4, 5), (5, 1), (6, 1), (7, 1), (8, 1), (9, 1), (10, 1), (11, 1), (12, 2)],
            (0..19).collect(),
        ),
        q2: [
            code(
                "sv8-canonical-q2-1",
                &[(1, 1), (3, 1), (4, 1), (5, 1), (6, 1), (7, 1), (8, 15), (9, 101), (10, 1), (11, 2)],
                triples(),
            ),
            code(
                "sv8-canonical-q2-2",
                &[(1, 1), (3, 1), (4, 1), (5, 1), (6, 1), (7, 1), (8, 14), (9, 103), (10, 2)],
                triples(),
            ),
        ],
        q3: code(
            "sv8-canonical-q3",
            &[(1, 1), (3, 1), (4, 1), (5, 1), (6, 1), (7, 24), (8, 20)],
            pairs(3),
        ),
        q4: code(
            "sv8-canonical-q4",
            &[(3, 1), (5, 1), (6, 32), (7, 43), (8, 1), (9, 1), (10, 2)],
            pairs(4),
        ),
        q5: [
            code("sv8-canonical-q5-1", &[(1, 1), (3, 1), (4, 1), (5, 9), (6, 1), (7, 2)], levels(7)),
            code("sv8-canonical-q5-2", &[(1, 1), (4, 3), (5, 9), (6, 2)], levels(7)),
        ],
        q6: [
            code(
                "sv8-canonical-q6-1",
                &[(1, 1), (3, 1), (4, 1), (5, 1), (6, 11), (7, 13), (8, 1), (9, 2)],
                levels(15),
            ),
            code("sv8-canonical-q6-2", &[(1, 1), (4, 1), (5, 1), (6, 24), (7, 4)], levels(15)),
        ],
        q7: [
            code(
                "sv8-canonical-q7-1",
                &[(1, 1), (3, 1), (4, 1), (5, 1), (6, 1), (7, 12), (8, 43), (9, 1), (10, 2)],
                levels(31),
            ),
            code("sv8-canonical-q7-2", &[(1, 1), (5, 1), (6, 1), (7, 56), (8, 4)], levels(31)),
        ],
        q8: [
            code(
                "sv8-canonical-q8-1",
                &[(1, 1), (3, 1), (4, 1), (5, 1), (6, 1), (7, 1), (8, 14), (9, 103), (10, 1), (11, 1), (12, 2)],
                levels(63),
            ),
            code("sv8-canonical-q8-2", &[(1, 1), (7, 3), (8, 121), (9, 2)], levels(63)),
        ],
        q9up: code(
            "sv8-canonical-q9up",
            &[(1, 1), (6, 1), (7, 1), (8, 1), (9, 232), (10, 20)],
            (i8::MIN..=i8::MAX).collect(),
        ),
    }))
}

fn dscf_1_table() -> &'static Sv8CanonicalTable {
    &set().dscf[0]
}

fn dscf_2_table() -> &'static Sv8CanonicalTable {
    &set().dscf[1]
}

struct BitPacker {
    bytes: Vec<u8>,
    acc: u32,
    nbits: u8,
}

impl BitPacker {
    fn new() -> Self {
        BitPacker {
            bytes: Vec::new(),
            acc: 0,
            nbits: 0,
        }
    }
    fn push(&mut self, pattern: u16, length: u8) {
        for i in 0..length {
            let bit = (pattern >> (15 - i)) & 1;
            self.acc = (self.acc << 1) | bit as u32;
            self.nbits += 1;
            if self.nbits == 8 {
                self.bytes.push(self.acc as u8);
                self.acc = 0;
                self.nbits = 0;
            }
        }
    }
    fn push_raw(&mut self, value: u32, length: u8) {
        for i in (0..length).rev() {
            let bit = (value >> i) & 1;
            self.acc = (self.acc << 1) | bit;
            self.nbits += 1;
            if self.nbits == 8 {
                self.bytes.push(self.acc as u8);
                self.acc = 0;
                self.nbits = 0;
            }
        }
    }
    fn finish(mut self) -> Vec<u8> {
        if self.nbits > 0 {
            self.bytes.push((self.acc << (8 - self.nbits)) as u8);
        }
        self.bytes.push(0);
        self.bytes.push(0);
        self.bytes
    }
}

fn symbol_for_row(table: &Sv8CanonicalTable, r: usize) -> i8 {
    let e = table.lengths[r];
    let mut p = BitPacker::new();
    p.push(e.code, e.length);
    let bytes = p.finish();
    let mut reader = Sv7BitReader::new(&bytes);
    table.decode(&mut reader).expect("single-codeword decode")
}

#[test]
fn raw_dscf_vlc_roundtrips() {
    for v in [-1_i8, 0, 1, 31, 63, 64, i8::MIN, i8::MAX] {
        let w = RawDscfVlc::from_raw(v);
        assert_eq!(w.as_i8(), v);
    }
}

#[test]
fn raw_dscf_vlc_is_copy_and_eq() {
    let a = RawDscfVlc::from_raw(7);
    let b = a;
    assert_eq!(a, b);
    assert_ne!(a, RawDscfVlc::from_raw(8));
}

#[test]
fn one_band_one_delta_uses_initial_ctx_zero_variant1() {
    let want = symbol_for_row(dscf_1_table(), 0);
    let e = dscf_1_table().lengths[0];
    let mut p = BitPacker::new();
    p.push(e.code, e.length);
    let bytes = p.finish();
    let mut r = Sv7BitReader::new(&bytes);
    let got = decode_dscf_deltas(set(), &mut r, &[1], 0, |_| 0).unwrap();
    assert_eq!(got.len(), 1);
    assert_eq!(got[0], vec![RawDscfVlc::from_raw(want)]);
}

#[test]
fn one_band_one_delta_uses_initial_ctx_one_variant2() {
    let want = symbol_for_row(dscf_2_table(), 0);
    let e = dscf_2_table().lengths[0];
    let mut p = BitPacker::new();
    p.push(e.code, e.length);
    let bytes = p.finish();
    let mut r = Sv7BitReader::new(&bytes);
    let got = decode_dscf_deltas(set(), &mut r, &[1], 1, |_| 1).unwrap();
    assert_eq!(got[0], vec![RawDscfVlc::from_raw(want)]);
}

#[test]
fn one_band_three_deltas_reads_all_three_in_order() {
    let rows = [0usize, 2, 4];
    let mut p = BitPacker::new();
    let mut wants = Vec::new();
    for &row in &rows {
        let e = dscf_1_table().lengths[row];
        p.push(e.code, e.length);
        wants.push(RawDscfVlc::from_raw(symbol_for_row(dscf_1_table(), row)));
    }
    let bytes = p.finish();
    let mut r = Sv7BitReader::new(&bytes);
    let got = decode_dscf_deltas(set(), &mut r, &[3], 0, |_| 0).unwrap();
    assert_eq!(got.len(), 1);
    assert_eq!(got[0], wants);
}

#[test]
fn two_bands_varying_counts_partition_correctly() {
    let rows = [1usize, 3, 5];
    let mut p = BitPacker::new();
    let mut sym = Vec::new();
    for &row in &rows {
        let e = dscf_1_table().lengths[row];
        p.push(e.code, e.length);
        sym.push(RawDscfVlc::from_raw(symbol_for_row(dscf_1_table(), row)));
    }
    let bytes = p.finish();
    let mut r = Sv7BitReader::new(&bytes);
    let got = decode_dscf_deltas(set(), &mut r, &[2, 1], 0, |_| 0).unwrap();
    assert_eq!(got.len(), 2);
    assert_eq!(got[0], vec![sym[0], sym[1]]);
    assert_eq!(got[1], vec![sym[2]]);
}

#[test]
fn context_switches_from_first_delta_to_second() {
    let e0 = dscf_1_table().lengths[1];
    let e1 = dscf_2_table().lengths[1];
    let want0 = symbol_for_row(dscf_1_table(), 1);
    let want1 = symbol_for_row(dscf_2_table(), 1);
    let mut p = BitPacker::new();
    p.push(e0.code, e0.length);
    p.push(e1.code, e1.length);
    let bytes = p.finish();
    let mut r = Sv7BitReader::new(&bytes);
    let seen_prev: RefCell<Vec<RawDscfVlc>> = RefCell::new(Vec::new());
    let got = decode_dscf_deltas(set(), &mut r, &[2], 0, |prev| {
        seen_prev.borrow_mut().push(prev);
        1
    })
    .unwrap();
    assert_eq!(
        got[0],
        vec![RawDscfVlc::from_raw(want0), RawDscfVlc::from_raw(want1)]
    );
    assert_eq!(
        seen_prev.into_inner(),
        vec![RawDscfVlc::from_raw(want0), RawDscfVlc::from_raw(want1)]
    );
}

#[test]
fn context_carries_across_band_boundary() {
    let e0 = dscf_1_table().lengths[0];
    let e1 = dscf_2_table().lengths[0];
    let want0 = symbol_for_row(dscf_1_table(), 0);
    let want1 = symbol_for_row(dscf_2_table(), 0);
    let mut p = BitPacker::new();
    p.push(e0.code, e0.length);
    p.push(e1.code, e1.length);
    let bytes = p.finish();
    let mut r = Sv7BitReader::new(&bytes);
    let got = decode_dscf_deltas(set(), &mut r, &[1, 1], 0, |_| 1).unwrap();
    assert_eq!(got[0], vec![RawDscfVlc::from_raw(want0)]);
    assert_eq!(got[1], vec![RawDscfVlc::from_raw(want1)]);
}

#[test]
fn empty_band_list_reads_nothing() {
    let bytes = [0u8, 0, 0, 0];
    let mut r = Sv7BitReader::new(&bytes);
    let got = decode_dscf_deltas(set(), &mut r, &[], 0, |_| {
        panic!("closure must not run for an empty band list")
    })
    .unwrap();
    assert!(got.is_empty());
}

#[test]
fn zero_count_band_yields_empty_inner_vec() {
    let e = dscf_1_table().lengths[0];
    let want = symbol_for_row(dscf_1_table(), 0);
    let mut p = BitPacker::new();
    p.push(e.code, e.length);
    let bytes = p.finish();
    let mut r = Sv7BitReader::new(&bytes);
    let got = decode_dscf_deltas(set(), &mut r, &[0, 1], 0, |_| 0).unwrap();
    assert_eq!(got.len(), 2);
    assert!(got[0].is_empty());
    assert_eq!(got[1], vec![RawDscfVlc::from_raw(want)]);
}

#[test]
fn sv8_dscf_loop_out_of_range_initial_ctx_is_context_fault() {
    let bytes = [0xFFu8, 0xFF, 0, 0];
    let mut r = Sv7BitReader::new(&bytes);
    assert_eq!(
        decode_dscf_deltas(set(), &mut r, &[1], 2, |_| 0),
        Err(Error::UnsupportedBandType(CONTEXT_FAULT_SENTINEL))
    );
}

#[test]
fn out_of_range_ctx_from_closure_is_context_fault_on_second_delta() {
    let e0 = dscf_1_table().lengths[0];
    let mut p = BitPacker::new();
    p.push(e0.code, e0.length);
    let bytes = p.finish();
    let mut r = Sv7BitReader::new(&bytes);
    assert_eq!(
        decode_dscf_deltas(set(), &mut r, &[2], 0, |_| 5),
        Err(Error::UnsupportedBandType(CONTEXT_FAULT_SENTINEL))
    );
}

#[test]
fn sv8_dscf_loop_propagates_unexpected_eof_mid_walk() {
    let bytes: [u8; 0] = [];
    let mut r = Sv7BitReader::new(&bytes);
    assert_eq!(
        decode_dscf_deltas(set(), &mut r, &[1], 0, |_| 0),
        Err(Error::UnexpectedEof)
    );
}

#[test]
fn context_fault_sentinel_is_outside_band_type_and_dscf_domains() {
    assert_eq!(CONTEXT_FAULT_SENTINEL, i8::MIN);
    for v in -1i8..=17 {
        assert_ne!(v, CONTEXT_FAULT_SENTINEL);
    }
    for v in 0i8..=64 {
        assert_ne!(v, CONTEXT_FAULT_SENTINEL);
    }
}

fn codeword_for_symbol(table: &Sv8CanonicalTable, target: i8) -> Option<(u16, u8)> {
    let mut upper: u32 = 0x1_0000;
    for e in table.lengths.iter() {
        if e.length == 0 {
            continue;
        }
        let step = 1u32 << (16 - e.length as u32);
        let mut pat = e.code as u32;
        while pat < upper {
            let mut p = BitPacker::new();
            p.push(pat as u16, e.length);
            let bytes = p.finish();
            let mut r = Sv7BitReader::new(&bytes);
            if table.decode(&mut r).unwrap() == target {
                return Some((pat as u16, e.length));
            }
            pat += step;
        }
        upper = e.code as u32;
    }
    None
}

fn fold_ref(prev: i32, delta: i32) -> i32 {
    ((prev - 25 + delta) & 127) - 6
}

#[test]
fn scfi_coded_granules_matches_section_5_3_case_table() {
    assert_eq!(scfi_coded_granules(0).unwrap(), [true, true, true]);
    assert_eq!(scfi_coded_granules(1).unwrap(), [true, true, false]);
    assert_eq!(scfi_coded_granules(2).unwrap(), [true, false, true]);
    assert_eq!(scfi_coded_granules(3).unwrap(), [true, false, false]);
    for bad in [4u8, 5, 255] {
        assert_eq!(
            scfi_coded_granules(bad),
            Err(Error::InvalidScfCodingMethod(bad as i8))
        );
    }
}

#[test]
fn band_scf_new_block_reads_raw7_minus_6_for_scf0() {
    let abs: u32 = 70;
    let (code2, len2) = codeword_for_symbol(dscf_1_table(), 3).expect("dscf-1 has symbol 3");
    let mut p = BitPacker::new();
    p.push_raw(abs, 7);
    p.push(code2, len2);
    let bytes = p.finish();
    let mut r = Sv7BitReader::new(&bytes);
    let scf = decode_sv8_band_scf(set(), &mut r, 2, true, 999).unwrap();
    let scf0 = abs as i32 - 6;
    let scf2 = fold_ref(scf0, 3);
    assert_eq!(scf, [scf0, scf0, scf2]);
}

#[test]
fn band_scf_non_new_block_folds_dscf2_delta_off_prev_scf2() {
    let (code0, len0) = codeword_for_symbol(dscf_2_table(), 5).expect("dscf-2 has symbol 5");
    let mut p = BitPacker::new();
    p.push(code0, len0);
    let bytes = p.finish();
    let mut r = Sv7BitReader::new(&bytes);
    let prev = 40;
    let scf = decode_sv8_band_scf(set(), &mut r, 3, false, prev).unwrap();
    let scf0 = fold_ref(prev, 5);
    assert_eq!(scf, [scf0, scf0, scf0]);
}

#[test]
fn band_scf_scfi0_codes_all_three_granules_with_dscf1_deltas() {
    let (c0, l0) = codeword_for_symbol(dscf_2_table(), 2).unwrap();
    let (c1, l1) = codeword_for_symbol(dscf_1_table(), 4).unwrap();
    let (c2, l2) = codeword_for_symbol(dscf_1_table(), 1).unwrap();
    let mut p = BitPacker::new();
    p.push(c0, l0);
    p.push(c1, l1);
    p.push(c2, l2);
    let bytes = p.finish();
    let mut r = Sv7BitReader::new(&bytes);
    let prev = 30;
    let scf = decode_sv8_band_scf(set(), &mut r, 0, false, prev).unwrap();
    let scf0 = fold_ref(prev, 2);
    let scf1 = fold_ref(scf0, 4);
    let scf2 = fold_ref(scf1, 1);
    assert_eq!(scf, [scf0, scf1, scf2]);
}

#[test]
fn band_scf_dscf2_escape_64_adds_raw6() {
    let (c0, l0) = codeword_for_symbol(dscf_2_table(), 64).expect("dscf-2 escape symbol 64");
    let raw6: u32 = 41;
    let mut p = BitPacker::new();
    p.push(c0, l0);
    p.push_raw(raw6, 6);
    let bytes = p.finish();
    let mut r = Sv7BitReader::new(&bytes);
    let prev = 12;
    let scf = decode_sv8_band_scf(set(), &mut r, 3, false, prev).unwrap();
    let scf0 = fold_ref(prev, 64 + raw6 as i32);
    assert_eq!(scf, [scf0, scf0, scf0]);
}

#[test]
fn band_scf_dscf1_escape_31_switches_to_64_plus_raw6() {
    let (c1, l1) = codeword_for_symbol(dscf_1_table(), 31).expect("dscf-1 escape symbol 31");
    let abs: u32 = 50;
    let raw6: u32 = 7;
    let mut p = BitPacker::new();
    p.push_raw(abs, 7);
    p.push(c1, l1);
    p.push_raw(raw6, 6);
    let bytes = p.finish();
    let mut r = Sv7BitReader::new(&bytes);
    let scf = decode_sv8_band_scf(set(), &mut r, 1, true, 0).unwrap();
    let scf0 = abs as i32 - 6;
    let scf1 = fold_ref(scf0, 64 + raw6 as i32);
    assert_eq!(scf, [scf0, scf1, scf1]);
}

#[test]
fn band_scf_rejects_scfi_above_three() {
    let mut r = Sv7BitReader::new(&[0xFF; 8]);
    assert_eq!(
        decode_sv8_band_scf(set(), &mut r, 4, true, 0),
        Err(Error::InvalidScfCodingMethod(4))
    );
}

#[test]
fn band_scf_propagates_eof() {
    let mut r = Sv7BitReader::new(&[]);
    assert_eq!(
        decode_sv8_band_scf(set(), &mut r, 3, true, 0),
        Err(Error::UnexpectedEof)
    );
}
