//! The sample arms.

#![allow(dead_code)]

use oxideav_musepack::bit_reader::Sv7BitReader;
use oxideav_musepack::cns::SAMPLES_PER_BAND;
use oxideav_musepack::combinadic::binomial;
use oxideav_musepack::error::Error;
use oxideav_musepack::phased::enum_bitlen_lost;
use oxideav_musepack::sv8_band_decode::{Sv8BandDecodeCase, sv8_band_type_case};
use oxideav_musepack::sv8_context::{case2_magnitude, context_threshold};
use oxideav_musepack::sv8_huffman::{
    Sv8CanonicalEntry, Sv8CanonicalTable, Sv8TableRole, Sv8TableSet, table_for_role,
};
use oxideav_musepack::sv8_quantize::quantizer_offset;
use oxideav_musepack::sv8_sample_decode::{
    ESCAPE_VLC_SYMBOL_BITS, GROUPED2_CODEWORDS_PER_BAND, GROUPED3_CODEWORDS_PER_BAND,
    decode_sv8_context_band, decode_sv8_context_band_grounded, decode_sv8_escape_band,
    decode_sv8_grouped2_band, decode_sv8_grouped3_band, decode_sv8_grouped3_band_grounded,
    decode_sv8_sparse_band, escape_raw_bits, unpack_grouped2_symbol, unpack_grouped3_symbol,
};
use std::cell::Cell;
use std::collections::BTreeSet;

/// A complete code: `shape` says how many of the symbols, in their order, have code words of
/// each length.
fn code(name: &'static str, shape: &[(u8, u32)], symbols: Vec<i8>) -> Sv8CanonicalTable {
    let mut rows = Vec::new();
    let mut bottom = 0x1_0000_u32;
    let mut index = 0_u32;
    for &(length, count) in shape {
        let step = 1_u32 << (16 - length);
        let top = bottom / step;
        bottom -= count * step;
        rows.push(Sv8CanonicalEntry {
            code: bottom as u16,
            length,
            cum_index: (index + top - 1) as i16,
        });
        index += count;
    }
    Sv8CanonicalTable { lengths: rows.leak(), symbols: symbols.leak(), name }
}

fn pairs(bound: i8) -> Vec<i8> {
    let mut out = Vec::new();
    for hi in -bound..=bound {
        for lo in -bound..=bound {
            out.push((hi << 4) | (lo & 15));
        }
    }
    out
}

fn triples() -> Vec<i8> {
    let mut out: Vec<i8> = vec![62];
    out.extend((0..125_i8).filter(|&s| s != 62));
    out
}

fn levels(bound: i8) -> Vec<i8> {
    let mut out = vec![0];
    for l in 1..=bound {
        out.push(l);
        out.push(-l);
    }
    out
}

fn set() -> &'static Sv8TableSet {
    Box::leak(Box::new(Sv8TableSet {
        bands: code(
            "sv8-canonical-bands",
            &[(1, 1), (3, 1), (4, 1), (5, 1), (6, 13), (7, 9), (8, 1), (9, 1), (10, 1), (11, 1), (12, 1), (13, 2)],
            (0..33).collect(),
        ),
        res: [
            code(
                "sv8-canonical-res-1",
                &[
                    (1, 1), (2, 1), (3, 1), (4, 1), (5, 1), (6, 1), (7, 1), (8, 1), (9, 1), (10, 1), (11, 1),
                    (12, 1), (13, 1), (14, 1), (15, 1), (16, 2),
                ],
                (0..17).collect(),
            ),
            code(
                "sv8-canonical-res-2",
                &[(1, 1), (3, 1), (4, 5), (5, 1), (6, 1), (7, 1), (8, 1), (9, 1), (10, 1), (11, 1), (12, 1), (13, 2)],
                (0..17).collect(),
            ),
        ],
        scfi: [
            code("sv8-canonical-scfi-1", &[(1, 1), (2, 1), (3, 2)], (0..4).collect()),
            code(
                "sv8-canonical-scfi-2",
                &[(1, 1), (3, 1), (4, 1), (5, 7), (6, 6)],
                (0..16).collect(),
            ),
        ],
        dscf: [
            code(
                "sv8-canonical-dscf-1",
                &[(1, 1), (3, 1), (4, 1), (5, 1), (6, 1), (7, 14), (8, 39), (9, 1), (10, 1), (11, 1), (12, 1), (13, 2)],
                (0..64).collect(),
            ),
            code(
                "sv8-canonical-dscf-2",
                &[
                    (1, 1), (3, 1), (4, 1), (5, 1), (6, 1), (7, 14), (8, 39), (9, 1), (10, 1), (11, 1), (12, 1),
                    (13, 1), (14, 2),
                ],
                (0..65).collect(),
            ),
        ],
        q1: code(
            "sv8-canonical-q1",
            &[(3, 5), (4, 5), (5, 1), (6, 1), (7, 1), (8, 1), (9, 1), (10, 1), (11, 1), (12, 2)],
            (0..19).collect(),
        ),
        q2: [
            code(
                "sv8-canonical-q2-1",
                &[(1, 1), (3, 1), (4, 1), (5, 1), (6, 1), (7, 1), (8, 15), (9, 101), (10, 1), (11, 2)],
                triples(),
            ),
            code(
                "sv8-canonical-q2-2",
                &[(1, 1), (3, 1), (4, 1), (5, 1), (6, 1), (7, 1), (8, 14), (9, 103), (10, 2)],
                triples(),
            ),
        ],
        q3: code(
            "sv8-canonical-q3",
            &[(1, 1), (3, 1), (4, 1), (5, 1), (6, 1), (7, 24), (8, 20)],
            pairs(3),
        ),
        q4: code(
            "sv8-canonical-q4",
            &[(3, 1), (5, 1), (6, 32), (7, 43), (8, 1), (9, 1), (10, 2)],
            pairs(4),
        ),
        q5: [
            code("sv8-canonical-q5-1", &[(1, 1), (3, 1), (4, 1), (5, 9), (6, 1), (7, 2)], levels(7)),
            code("sv8-canonical-q5-2", &[(1, 1), (4, 3), (5, 9), (6, 2)], levels(7)),
        ],
        q6: [
            code(
                "sv8-canonical-q6-1",
                &[(1, 1), (3, 1), (4, 1), (5, 1), (6, 11), (7, 13), (8, 1), (9, 2)],
                levels(15),
            ),
            code("sv8-canonical-q6-2", &[(1, 1), (4, 1), (5, 1), (6, 24), (7, 4)], levels(15)),
        ],
        q7: [
            code(
                "sv8-canonical-q7-1",
                &[(1, 1), (3, 1), (4, 1), (5, 1), (6, 1), (7, 12), (8, 43), (9, 1), (10, 2)],
                levels(31),
            ),
            code("sv8-canonical-q7-2", &[(1, 1), (5, 1), (6, 1), (7, 56), (8, 4)], levels(31)),
        ],
        q8: [
            code(
                "sv8-canonical-q8-1",
                &[(1, 1), (3, 1), (4, 1), (5, 1), (6, 1), (7, 1), (8, 14), (9, 103), (10, 1), (11, 1), (12, 2)],
                levels(63),
            ),
            code("sv8-canonical-q8-2", &[(1, 1), (7, 3), (8, 121), (9, 2)], levels(63)),
        ],
        q9up: code(
            "sv8-canonical-q9up",
            &[(1, 1), (6, 1), (7, 1), (8, 1), (9, 232), (10, 20)],
            (i8::MIN..=i8::MAX).collect(),
        ),
    }))
}

fn q1_table() -> &'static Sv8CanonicalTable {
    &set().q1
}

fn q3_table() -> &'static Sv8CanonicalTable {
    &set().q3
}

fn q4_table() -> &'static Sv8CanonicalTable {
    &set().q4
}

fn q9up_table() -> &'static Sv8CanonicalTable {
    &set().q9up
}

fn q2_1_table() -> &'static Sv8CanonicalTable {
    &set().q2[0]
}

fn q2_2_table() -> &'static Sv8CanonicalTable {
    &set().q2[1]
}

fn q5_1_table() -> &'static Sv8CanonicalTable {
    &set().q5[0]
}

fn q5_2_table() -> &'static Sv8CanonicalTable {
    &set().q5[1]
}

fn q6_1_table() -> &'static Sv8CanonicalTable {
    &set().q6[0]
}

fn q6_2_table() -> &'static Sv8CanonicalTable {
    &set().q6[1]
}

fn q7_1_table() -> &'static Sv8CanonicalTable {
    &set().q7[0]
}

fn q7_2_table() -> &'static Sv8CanonicalTable {
    &set().q7[1]
}

fn q8_1_table() -> &'static Sv8CanonicalTable {
    &set().q8[0]
}

fn q8_2_table() -> &'static Sv8CanonicalTable {
    &set().q8[1]
}

struct BitPacker {
    bytes: Vec<u8>,
    acc: u32,
    nbits: u8,
}

impl BitPacker {
    fn new() -> Self {
        BitPacker {
            bytes: Vec::new(),
            acc: 0,
            nbits: 0,
        }
    }
    fn push(&mut self, pattern: u16, length: u8) {
        for i in 0..length {
            let bit = (pattern >> (15 - i)) & 1;
            self.acc = (self.acc << 1) | bit as u32;
            self.nbits += 1;
            if self.nbits == 8 {
                self.bytes.push(self.acc as u8);
                self.acc = 0;
                self.nbits = 0;
            }
        }
    }
    fn push_raw(&mut self, value: u32, length: u8) {
        for i in (0..length).rev() {
            let bit = (value >> i) & 1;
            self.acc = (self.acc << 1) | bit;
            self.nbits += 1;
            if self.nbits == 8 {
                self.bytes.push(self.acc as u8);
                self.acc = 0;
                self.nbits = 0;
            }
        }
    }
    fn finish(mut self) -> Vec<u8> {
        if self.nbits > 0 {
            self.bytes.push((self.acc << (8 - self.nbits)) as u8);
        }
        self.bytes.push(0);
        self.bytes.push(0);
        self.bytes
    }
}

fn symbol_for_row(table: &Sv8CanonicalTable, row: usize) -> i8 {
    let entry = table.lengths[row];
    symbol_for_pattern(table, entry.code, entry.length)
}

fn symbol_for_pattern(table: &Sv8CanonicalTable, pattern: u16, length: u8) -> i8 {
    let mut p = BitPacker::new();
    p.push(pattern, length);
    let bytes = p.finish();
    let mut reader = Sv7BitReader::new(&bytes);
    let before = reader.bits_remaining();
    let symbol = table.decode(&mut reader).expect("single-codeword decode");
    assert_eq!(
        before - reader.bits_remaining(),
        length as u64,
        "{}: pattern {pattern:#06x} must consume exactly {length} bits",
        table.name,
    );
    symbol
}

fn find_codeword(
    table: &Sv8CanonicalTable,
    pred: impl Fn(i8) -> bool,
) -> Option<(u16, u8, i8)> {
    let mut upper: u32 = 0x1_0000;
    for entry in table.lengths.iter() {
        if entry.length == 0 {
            continue;
        }
        let step = 1_u32 << (16 - entry.length as u32);
        let mut pat = entry.code as u32;
        while pat < upper {
            let symbol = symbol_for_pattern(table, pat as u16, entry.length);
            if pred(symbol) {
                return Some((pat as u16, entry.length, symbol));
            }
            pat += step;
        }
        upper = entry.code as u32;
    }
    None
}

#[test]
fn unpack_grouped3_hand_vectors() {
    assert_eq!(unpack_grouped3_symbol(62).unwrap(), [0, 0, 0]);
    assert_eq!(unpack_grouped3_symbol(63).unwrap(), [1, 0, 0]);
    assert_eq!(unpack_grouped3_symbol(61).unwrap(), [-1, 0, 0]);
    assert_eq!(unpack_grouped3_symbol(67).unwrap(), [0, 1, 0]);
    assert_eq!(unpack_grouped3_symbol(57).unwrap(), [0, -1, 0]);
    assert_eq!(unpack_grouped3_symbol(87).unwrap(), [0, 0, 1]);
    assert_eq!(unpack_grouped3_symbol(37).unwrap(), [0, 0, -1]);
    assert_eq!(unpack_grouped3_symbol(0).unwrap(), [-2, -2, -2]);
    assert_eq!(unpack_grouped3_symbol(124).unwrap(), [2, 2, 2]);
}

#[test]
fn unpack_grouped3_covers_alphabet_bijectively() {
    let mut seen = BTreeSet::new();
    for s in 0..=124_i8 {
        let t = unpack_grouped3_symbol(s).unwrap();
        assert!(t.iter().all(|&v| (-2..=2).contains(&v)), "symbol {s}");
        seen.insert(t);
    }
    assert_eq!(seen.len(), 125);
}

#[test]
fn unpack_grouped3_rejects_out_of_alphabet() {
    for s in [-1_i8, 125, 127, i8::MIN] {
        assert!(matches!(
            unpack_grouped3_symbol(s),
            Err(Error::GroupedSymbolOutOfRange(v)) if v == s,
        ));
    }
}

#[test]
fn unpack_grouped2_hand_vectors() {
    assert_eq!(unpack_grouped2_symbol(0, 3).unwrap(), [0, 0]);
    assert_eq!(unpack_grouped2_symbol(0x11, 3).unwrap(), [1, 1]);
    assert_eq!(unpack_grouped2_symbol(0x10, 3).unwrap(), [0, 1]);
    assert_eq!(unpack_grouped2_symbol(0x01, 3).unwrap(), [1, 0]);
    assert_eq!(unpack_grouped2_symbol(0x1F, 3).unwrap(), [-1, 1]);
    assert_eq!(unpack_grouped2_symbol(-16, 3).unwrap(), [0, -1]);
    assert_eq!(unpack_grouped2_symbol(-1, 3).unwrap(), [-1, -1]);
    assert_eq!(unpack_grouped2_symbol(0x3F, 3).unwrap(), [-1, 3]);
    assert_eq!(unpack_grouped2_symbol(0x33, 3).unwrap(), [3, 3]);
    assert_eq!(unpack_grouped2_symbol(0x40, 4).unwrap(), [0, 4]);
    assert_eq!(unpack_grouped2_symbol(0x4C, 4).unwrap(), [-4, 4]);
    assert_eq!(unpack_grouped2_symbol(-52, 4).unwrap(), [-4, -4]);
}

#[test]
fn unpack_grouped2_rejects_out_of_range_nibbles_and_band_type() {
    assert!(matches!(
        unpack_grouped2_symbol(0x04, 3),
        Err(Error::GroupedSymbolOutOfRange(0x04)),
    ));
    assert_eq!(unpack_grouped2_symbol(0x04, 4).unwrap(), [4, 0]);
    for bt in [3_i8, 4] {
        assert!(matches!(
            unpack_grouped2_symbol(0x50, bt),
            Err(Error::GroupedSymbolOutOfRange(0x50)),
        ));
    }
    for bt in [-1_i8, 0, 1, 2, 5, 8, i8::MAX] {
        assert!(matches!(
            unpack_grouped2_symbol(0, bt),
            Err(Error::UnsupportedBandType(v)) if v == bt,
        ));
    }
}

#[test]
fn grouped3_band_decodes_twelve_codewords_both_contexts() {
    for (ctx, table) in [(0_u8, q2_1_table()), (1, q2_2_table())] {
        let entry = table.lengths[0];
        let expected_symbol = symbol_for_row(table, 0);
        let expected_triplet = unpack_grouped3_symbol(expected_symbol).unwrap();
        let mut p = BitPacker::new();
        for _ in 0..GROUPED3_CODEWORDS_PER_BAND {
            p.push(entry.code, entry.length);
        }
        let bytes = p.finish();
        let mut reader = Sv7BitReader::new(&bytes);
        let before = reader.bits_remaining();
        let mut out = [99_i8; SAMPLES_PER_BAND];
        decode_sv8_grouped3_band(set(), &mut reader, ctx, &mut out).expect("decode");
        for (g, group) in out.chunks_exact(3).enumerate() {
            assert_eq!(group, expected_triplet, "ctx {ctx} group {g}");
        }
        assert_eq!(
            before - reader.bits_remaining(),
            12 * entry.length as u64,
            "ctx {ctx}"
        );
    }
}

#[test]
fn grouped3_band_orders_groups_by_codeword_sequence() {
    let table = q2_1_table();
    let row_a = 0;
    let row_b = table.lengths.len() - 1;
    let tri_a = unpack_grouped3_symbol(symbol_for_row(table, row_a)).unwrap();
    let tri_b = unpack_grouped3_symbol(symbol_for_row(table, row_b)).unwrap();
    assert_ne!(tri_a, tri_b, "rows must decode to distinct triplets");
    let mut p = BitPacker::new();
    for g in 0..GROUPED3_CODEWORDS_PER_BAND {
        let row = if g % 2 == 0 { row_a } else { row_b };
        p.push(table.lengths[row].code, table.lengths[row].length);
    }
    let bytes = p.finish();
    let mut reader = Sv7BitReader::new(&bytes);
    let mut out = [0_i8; SAMPLES_PER_BAND];
    decode_sv8_grouped3_band(set(), &mut reader, 0, &mut out).expect("decode");
    for (g, group) in out.chunks_exact(3).enumerate() {
        let expected = if g % 2 == 0 { tri_a } else { tri_b };
        assert_eq!(group, expected, "group {g}");
    }
}

#[test]
fn grouped3_band_rejects_out_of_range_ctx() {
    let mut out = [0_i8; SAMPLES_PER_BAND];
    for ctx in [2_u8, 3, u8::MAX] {
        let mut reader = Sv7BitReader::new(&[0xFF; 64]);
        assert!(matches!(
            decode_sv8_grouped3_band(set(), &mut reader, ctx, &mut out),
            Err(Error::UnsupportedBandType(2)),
        ));
    }
}

#[test]
fn grouped3_band_propagates_eof() {
    let mut reader = Sv7BitReader::new(&[0xFF]);
    let mut out = [0_i8; SAMPLES_PER_BAND];
    assert!(matches!(
        decode_sv8_grouped3_band(set(), &mut reader, 0, &mut out),
        Err(Error::UnexpectedEof),
    ));
}

#[test]
fn grouped2_band_decodes_eighteen_codewords_for_q3_and_q4() {
    for (band_type, table) in [(3_i8, q3_table()), (4, q4_table())] {
        let entry = table.lengths[0];
        let expected_pair =
            unpack_grouped2_symbol(symbol_for_row(table, 0), band_type).unwrap();
        let mut p = BitPacker::new();
        for _ in 0..GROUPED2_CODEWORDS_PER_BAND {
            p.push(entry.code, entry.length);
        }
        let bytes = p.finish();
        let mut reader = Sv7BitReader::new(&bytes);
        let before = reader.bits_remaining();
        let mut out = [99_i8; SAMPLES_PER_BAND];
        decode_sv8_grouped2_band(set(), &mut reader, band_type, &mut out).expect("decode");
        for (g, group) in out.chunks_exact(2).enumerate() {
            assert_eq!(group, expected_pair, "band_type {band_type} group {g}");
        }
        assert_eq!(
            before - reader.bits_remaining(),
            18 * entry.length as u64,
            "band_type {band_type}"
        );
    }
}

#[test]
fn grouped2_band_orders_groups_by_codeword_sequence() {
    let table = q3_table();
    let row_a = 0;
    let row_b = table.lengths.len() - 1;
    let pair_a = unpack_grouped2_symbol(symbol_for_row(table, row_a), 3).unwrap();
    let pair_b = unpack_grouped2_symbol(symbol_for_row(table, row_b), 3).unwrap();
    assert_ne!(pair_a, pair_b, "rows must decode to distinct pairs");
    let mut p = BitPacker::new();
    for g in 0..GROUPED2_CODEWORDS_PER_BAND {
        let row = if g % 2 == 0 { row_a } else { row_b };
        p.push(table.lengths[row].code, table.lengths[row].length);
    }
    let bytes = p.finish();
    let mut reader = Sv7BitReader::new(&bytes);
    let mut out = [0_i8; SAMPLES_PER_BAND];
    decode_sv8_grouped2_band(set(), &mut reader, 3, &mut out).expect("decode");
    for (g, group) in out.chunks_exact(2).enumerate() {
        let expected = if g % 2 == 0 { pair_a } else { pair_b };
        assert_eq!(group, expected, "group {g}");
    }
}

#[test]
fn grouped2_band_rejects_band_type_outside_3_4() {
    let mut out = [0_i8; SAMPLES_PER_BAND];
    for bt in [-1_i8, 0, 1, 2, 5, 8, 9, i8::MAX] {
        let mut reader = Sv7BitReader::new(&[0xFF; 64]);
        assert!(matches!(
            decode_sv8_grouped2_band(set(), &mut reader, bt, &mut out),
            Err(Error::UnsupportedBandType(v)) if v == bt,
        ));
    }
}

#[test]
fn grouped2_band_propagates_eof() {
    let mut reader = Sv7BitReader::new(&[0xFF]);
    let mut out = [0_i8; SAMPLES_PER_BAND];
    assert!(matches!(
        decode_sv8_grouped2_band(set(), &mut reader, 3, &mut out),
        Err(Error::UnexpectedEof),
    ));
}

#[test]
fn context_band_constant_rule_decodes_per_sample_all_band_types() {
    for (band_type, table) in [
        (5_i8, q5_1_table()),
        (6, q6_1_table()),
        (7, q7_1_table()),
        (8, q8_1_table()),
    ] {
        let entry = table.lengths[0];
        let expected = symbol_for_row(table, 0);
        let mut p = BitPacker::new();
        for _ in 0..SAMPLES_PER_BAND {
            p.push(entry.code, entry.length);
        }
        let bytes = p.finish();
        let mut reader = Sv7BitReader::new(&bytes);
        let before = reader.bits_remaining();
        let mut out = [99_i8; SAMPLES_PER_BAND];
        decode_sv8_context_band(set(), &mut reader, band_type, 0, |_| 0, &mut out).expect("decode");
        assert!(out.iter().all(|&s| s == expected), "band_type {band_type}");
        assert_eq!(
            before - reader.bits_remaining(),
            36 * entry.length as u64,
            "band_type {band_type}"
        );
    }
}

#[test]
fn context_band_switches_tables_on_previous_sample() {
    let t0 = q5_1_table();
    let t1 = q5_2_table();
    let (neg_pat, neg_len, neg_sym) =
        find_codeword(t0, |s| s < 0).expect("q5-1 has a negative-symbol codeword");
    let (nonneg_pat, nonneg_len, nonneg_sym) =
        find_codeword(t1, |s| s >= 0).expect("q5-2 has a non-negative-symbol codeword");
    let mut p = BitPacker::new();
    for i in 0..SAMPLES_PER_BAND {
        if i % 2 == 0 {
            p.push(neg_pat, neg_len);
        } else {
            p.push(nonneg_pat, nonneg_len);
        }
    }
    let bytes = p.finish();
    let mut reader = Sv7BitReader::new(&bytes);
    let mut out = [0_i8; SAMPLES_PER_BAND];
    decode_sv8_context_band(set(), &mut reader,
        5,
        0,
        |prev| if prev < 0 { 1 } else { 0 },
        &mut out,
    )
    .expect("decode");
    for (i, &s) in out.iter().enumerate() {
        let expected = if i % 2 == 0 { neg_sym } else { nonneg_sym };
        assert_eq!(s, expected, "sample {i}");
    }
}

#[test]
fn context_band_rejects_band_type_outside_5_8() {
    let mut out = [0_i8; SAMPLES_PER_BAND];
    for bt in [-1_i8, 0, 1, 2, 3, 4, 9, 17, i8::MAX] {
        let mut reader = Sv7BitReader::new(&[0xFF; 128]);
        assert!(matches!(
            decode_sv8_context_band(set(), &mut reader, bt, 0, |_| 0, &mut out),
            Err(Error::UnsupportedBandType(v)) if v == bt,
        ));
    }
}

#[test]
fn context_band_rejects_out_of_range_context_values() {
    let mut out = [0_i8; SAMPLES_PER_BAND];
    let mut reader = Sv7BitReader::new(&[0xFF; 128]);
    let before = reader.bits_remaining();
    assert!(matches!(
        decode_sv8_context_band(set(), &mut reader, 5, 2, |_| 0, &mut out),
        Err(Error::UnsupportedBandType(5)),
    ));
    assert_eq!(reader.bits_remaining(), before);
    let mut reader = Sv7BitReader::new(&[0xFF; 128]);
    assert!(matches!(
        decode_sv8_context_band(set(), &mut reader, 5, 0, |_| 2, &mut out),
        Err(Error::UnsupportedBandType(5)),
    ));
}

#[test]
fn context_band_propagates_eof() {
    let mut reader = Sv7BitReader::new(&[0xFF]);
    let mut out = [0_i8; SAMPLES_PER_BAND];
    assert!(matches!(
        decode_sv8_context_band(set(), &mut reader, 5, 0, |_| 0, &mut out),
        Err(Error::UnexpectedEof),
    ));
}

#[test]
fn grounded_context_band_starts_in_context_one() {
    for (band_type, t1) in [
        (5_i8, q5_2_table()),
        (6, q6_2_table()),
        (7, q7_2_table()),
        (8, q8_2_table()),
    ] {
        let entry1 = t1.lengths[0];
        let sym_via_ctx1 = symbol_for_row(t1, 0);
        let mut p = BitPacker::new();
        for _ in 0..SAMPLES_PER_BAND {
            p.push(entry1.code, entry1.length);
        }
        let bytes = p.finish();
        let mut reader = Sv7BitReader::new(&bytes);
        let mut out = [0_i8; SAMPLES_PER_BAND];
        decode_sv8_context_band_grounded(set(), &mut reader, band_type, &mut out).expect("decode");
        assert_eq!(
            out[0], sym_via_ctx1,
            "band_type {band_type}: first sample must use ctx-1 (idx init = 2·thres)",
        );
    }
}

#[test]
fn grounded_context_band_matches_replicated_accumulator() {
    for band_type in [5_i8, 6, 7, 8] {
        let t0 = match band_type {
            5 => q5_1_table(),
            6 => q6_1_table(),
            7 => q7_1_table(),
            _ => q8_1_table(),
        };
        let entry = t0.lengths[0];
        let mut p = BitPacker::new();
        for _ in 0..(SAMPLES_PER_BAND * 4) {
            p.push(entry.code, entry.length);
        }
        let bytes = p.finish();
        let mut r_g = Sv7BitReader::new(&bytes);
        let mut out_g = [0_i8; SAMPLES_PER_BAND];
        decode_sv8_context_band_grounded(set(), &mut r_g, band_type, &mut out_g).expect("grounded");
        let thres = context_threshold(band_type).unwrap();
        let idx = Cell::new(2 * thres);
        let initial_ctx = (idx.get() > thres) as u8;
        let mut r_c = Sv7BitReader::new(&bytes);
        let mut out_c = [0_i8; SAMPLES_PER_BAND];
        decode_sv8_context_band(set(), &mut r_c,
            band_type,
            initial_ctx,
            |prev| {
                idx.set((idx.get() >> 1) + (prev as i32).unsigned_abs());
                (idx.get() > thres) as u8
            },
            &mut out_c,
        )
        .expect("closure");
        assert_eq!(
            out_g, out_c,
            "band_type {band_type}: grounded vs replicated"
        );
    }
}

#[test]
fn grounded_context_band_rejects_band_type_outside_5_8() {
    let mut out = [0_i8; SAMPLES_PER_BAND];
    for bt in [-1_i8, 0, 1, 2, 3, 4, 9, 17, i8::MAX] {
        let mut reader = Sv7BitReader::new(&[0xFF; 128]);
        assert!(matches!(
            decode_sv8_context_band_grounded(set(), &mut reader, bt, &mut out),
            Err(Error::UnsupportedBandType(v)) if v == bt,
        ));
    }
}

#[test]
fn grounded_context_band_propagates_eof() {
    let mut reader = Sv7BitReader::new(&[0xFF]);
    let mut out = [0_i8; SAMPLES_PER_BAND];
    assert!(matches!(
        decode_sv8_context_band_grounded(set(), &mut reader, 5, &mut out),
        Err(Error::UnexpectedEof),
    ));
}

#[test]
fn grounded_grouped3_band_starts_in_context_one() {
    let entry1 = q2_2_table().lengths[0];
    let sym_via_ctx1 = symbol_for_row(q2_2_table(), 0);
    let mut p = BitPacker::new();
    for _ in 0..GROUPED3_CODEWORDS_PER_BAND {
        p.push(entry1.code, entry1.length);
    }
    let bytes = p.finish();
    let mut reader = Sv7BitReader::new(&bytes);
    let mut out = [0_i8; SAMPLES_PER_BAND];
    decode_sv8_grouped3_band_grounded(set(), &mut reader, &mut out).expect("decode");
    let first_triplet = unpack_grouped3_symbol(sym_via_ctx1).unwrap();
    assert_eq!(
        &out[0..3],
        &first_triplet[..],
        "first group must use q2-2 (ctx-1) per idx init = 2·thres[2]",
    );
}

#[test]
fn grounded_grouped3_band_matches_replicated_accumulator() {
    let entry = q2_1_table().lengths[0];
    let mut p = BitPacker::new();
    for _ in 0..GROUPED3_CODEWORDS_PER_BAND {
        p.push(entry.code, entry.length);
    }
    let bytes = p.finish();
    let mut r_g = Sv7BitReader::new(&bytes);
    let mut out_g = [0_i8; SAMPLES_PER_BAND];
    decode_sv8_grouped3_band_grounded(set(), &mut r_g, &mut out_g).expect("grounded");
    let thres = context_threshold(2).unwrap();
    let mut idx = 2 * thres;
    let mut r_m = Sv7BitReader::new(&bytes);
    let mut out_m = [0_i8; SAMPLES_PER_BAND];
    for group in out_m.chunks_exact_mut(3) {
        let ctx = (idx > thres) as u8;
        let table = table_for_role(set(), Sv8TableRole::Q2, ctx).unwrap();
        let symbol = table.decode(&mut r_m).unwrap();
        group.copy_from_slice(&unpack_grouped3_symbol(symbol).unwrap());
        idx = (idx >> 1) + case2_magnitude(symbol as i32);
    }
    assert_eq!(out_g, out_m, "grounded grouped3 vs replicated accumulator");
}

#[test]
fn grounded_grouped3_band_propagates_eof() {
    let mut reader = Sv7BitReader::new(&[0x00]);
    let mut out = [0_i8; SAMPLES_PER_BAND];
    assert!(matches!(
        decode_sv8_grouped3_band_grounded(set(), &mut reader, &mut out),
        Err(Error::UnexpectedEof),
    ));
}

#[test]
fn escape_raw_bits_ladder_matches_res_bits_minus_vlc_width() {
    for bt in 9..=17_i8 {
        assert_eq!(escape_raw_bits(bt), Some(bt as u8 - 9), "band_type {bt}");
        assert_eq!(
            escape_raw_bits(bt),
            Some((bt as u8 - 1) - ESCAPE_VLC_SYMBOL_BITS),
            "band_type {bt}"
        );
    }
    for bt in [i8::MIN, -1, 0, 1, 5, 8, 18, 19, 64, i8::MAX] {
        assert_eq!(escape_raw_bits(bt), None, "band_type {bt}");
    }
}

#[test]
fn escape_composition_tiles_the_dc_pinned_level_range() {
    for bt in 9..=17_i8 {
        let n = escape_raw_bits(bt).unwrap() as u32;
        let d = quantizer_offset(bt).unwrap();
        let max = (127_i32 << n) | ((1 << n) - 1);
        let min = (-128_i32) << n;
        assert_eq!(max, d, "band_type {bt}: composed max must equal D");
        assert_eq!(
            min,
            -(d + 1),
            "band_type {bt}: composed min is the two's-complement extremum"
        );
    }
}

#[test]
fn escape_band_type_nine_is_pure_vlc_per_sample() {
    let table = q9up_table();
    let entry = table.lengths[0];
    let expected = symbol_for_row(table, 0) as i32;
    let mut p = BitPacker::new();
    for _ in 0..SAMPLES_PER_BAND {
        p.push(entry.code, entry.length);
    }
    let bytes = p.finish();
    let mut reader = Sv7BitReader::new(&bytes);
    let before = reader.bits_remaining();
    let mut out = [99_i32; SAMPLES_PER_BAND];
    decode_sv8_escape_band(set(), &mut reader, 9, &mut out).expect("decode");
    assert!(out.iter().all(|&s| s == expected));
    assert_eq!(before - reader.bits_remaining(), 36 * entry.length as u64);
}

#[test]
fn escape_band_composes_vlc_high_bits_with_raw_low_bits() {
    let table = q9up_table();
    let (neg_pat, neg_len, neg_sym) =
        find_codeword(table, |s| s < 0).expect("q9up has a negative-symbol codeword");
    let (pos_pat, pos_len, pos_sym) =
        find_codeword(table, |s| s > 0).expect("q9up has a positive-symbol codeword");
    let raw_for = |i: usize| [0b1010_u16, 0b0001, 0b1111, 0b0000][i % 4];
    let mut p = BitPacker::new();
    for i in 0..SAMPLES_PER_BAND {
        if i % 2 == 0 {
            p.push(neg_pat, neg_len);
        } else {
            p.push(pos_pat, pos_len);
        }
        p.push(raw_for(i) << 12, 4);
    }
    let bytes = p.finish();
    let mut reader = Sv7BitReader::new(&bytes);
    let before = reader.bits_remaining();
    let mut out = [0_i32; SAMPLES_PER_BAND];
    decode_sv8_escape_band(set(), &mut reader, 13, &mut out).expect("decode");
    for (i, &s) in out.iter().enumerate() {
        let sym = if i % 2 == 0 { neg_sym } else { pos_sym } as i32;
        let expected = (sym << 4) | raw_for(i) as i32;
        assert_eq!(s, expected, "sample {i}");
    }
    let codeword_bits = 18 * (neg_len as u64 + pos_len as u64);
    assert_eq!(
        before - reader.bits_remaining(),
        codeword_bits + 36 * 4,
        "every sample must consume its codeword plus exactly 4 raw bits"
    );
}

#[test]
fn escape_band_widest_raw_field_reads_msb_first() {
    let table = q9up_table();
    let entry = table.lengths[0];
    let symbol = symbol_for_row(table, 0) as i32;
    let mut p = BitPacker::new();
    for i in 0..SAMPLES_PER_BAND {
        p.push(entry.code, entry.length);
        p.push((i as u16) << 8, 8);
    }
    let bytes = p.finish();
    let mut reader = Sv7BitReader::new(&bytes);
    let mut out = [0_i32; SAMPLES_PER_BAND];
    decode_sv8_escape_band(set(), &mut reader, 17, &mut out).expect("decode");
    for (i, &s) in out.iter().enumerate() {
        assert_eq!(s, (symbol << 8) | i as i32, "sample {i}");
    }
}

#[test]
fn escape_band_rejects_band_type_outside_9_17() {
    let mut out = [0_i32; SAMPLES_PER_BAND];
    for bt in [i8::MIN, -1, 0, 1, 2, 5, 8, 18, 19, 64, i8::MAX] {
        let mut reader = Sv7BitReader::new(&[0xFF; 128]);
        assert!(matches!(
            decode_sv8_escape_band(set(), &mut reader, bt, &mut out),
            Err(Error::UnsupportedBandType(v)) if v == bt,
        ));
    }
}

#[test]
fn escape_band_propagates_eof_at_codeword_and_inside_raw_field() {
    let mut reader = Sv7BitReader::new(&[0xFF]);
    let mut out = [0_i32; SAMPLES_PER_BAND];
    assert!(matches!(
        decode_sv8_escape_band(set(), &mut reader, 17, &mut out),
        Err(Error::UnexpectedEof),
    ));
    let mut reader = Sv7BitReader::new(&[0x00, 0x00]);
    let before = reader.bits_remaining();
    assert_eq!(before, 16);
    assert!(matches!(
        decode_sv8_escape_band(set(), &mut reader, 17, &mut out),
        Err(Error::UnexpectedEof),
    ));
}

fn comb(n: u32, k: u32) -> u32 {
    if k > n {
        return 0;
    }
    let k = k.min(n - k);
    let mut r: u64 = 1;
    for i in 0..k {
        r = r * (n - i) as u64 / (i + 1) as u64;
    }
    r as u32
}

fn pack_enum_subset(p: &mut BitPacker, coded: u32, k: u32, n: u32) {
    let total = comb(n, k);
    if total <= 1 {
        return;
    }
    let mut bitlen: u8 = 0;
    while (1u32 << bitlen) < total {
        bitlen += 1;
    }
    let lost = (1u32 << bitlen) - total;
    let mut rank: u32 = 0;
    let mut kk = k;
    let mut m = n;
    while m > 0 && kk > 0 {
        m -= 1;
        if coded & (1 << m) != 0 {
            rank += comb(m, kk);
            kk -= 1;
        }
    }
    if rank < lost {
        p.push_raw(rank, bitlen - 1);
    } else {
        p.push_raw(rank + lost, bitlen);
    }
}

fn pack_sparse_group(p: &mut BitPacker, samples: &[i8; 18]) -> u8 {
    let n = 18u32;
    let mut present: u32 = 0;
    for (i, &s) in samples.iter().enumerate() {
        if s != 0 {
            present |= 1 << i;
        }
    }
    let cnt = present.count_ones();
    if cnt != 0 && cnt != n {
        let (coded, k) = if cnt > n / 2 {
            ((!present) & ((1 << n) - 1), n - cnt)
        } else {
            (present, cnt)
        };
        pack_enum_subset(p, coded, k, n);
    }
    for pos in (0..18).rev() {
        if present & (1 << pos) != 0 {
            let s = samples[pos];
            p.push_raw(if s > 0 { 1 } else { 0 }, 1);
        }
    }
    cnt as u8
}

fn push_q1_count(p: &mut BitPacker, cnt: u8) {
    let (pat, len, _sym) = find_codeword(q1_table(), |s| s == cnt as i8)
        .unwrap_or_else(|| panic!("q1 has a codeword for cnt {cnt}"));
    p.push(pat, len);
}

fn nonzero_count(samples: &[i8; 18]) -> u8 {
    samples.iter().filter(|&&s| s != 0).count() as u8
}

fn sparse_roundtrip(first: [i8; 18], second: [i8; 18]) {
    let mut p = BitPacker::new();
    push_q1_count(&mut p, nonzero_count(&first));
    pack_sparse_group(&mut p, &first);
    push_q1_count(&mut p, nonzero_count(&second));
    pack_sparse_group(&mut p, &second);
    let bytes = p.finish();
    let mut reader = Sv7BitReader::new(&bytes);
    let mut out = [99_i8; SAMPLES_PER_BAND];
    decode_sv8_sparse_band(set(), &mut reader, &mut out).expect("sparse decode");
    let mut expected = [0_i8; SAMPLES_PER_BAND];
    expected[..18].copy_from_slice(&first);
    expected[18..].copy_from_slice(&second);
    assert_eq!(out, expected);
}

#[test]
fn sparse_all_zero_band_reads_only_two_q1_counts() {
    let (pat, len, _) = find_codeword(q1_table(), |s| s == 0).unwrap();
    let mut p = BitPacker::new();
    p.push(pat, len);
    p.push(pat, len);
    let bytes = p.finish();
    let mut reader = Sv7BitReader::new(&bytes);
    let before = reader.bits_remaining();
    let mut out = [7_i8; SAMPLES_PER_BAND];
    decode_sv8_sparse_band(set(), &mut reader, &mut out).expect("decode");
    assert_eq!(out, [0; SAMPLES_PER_BAND]);
    assert_eq!(before - reader.bits_remaining(), 2 * len as u64);
}

#[test]
fn sparse_single_nonzero_per_half_roundtrips() {
    let mut a = [0_i8; 18];
    a[5] = 1;
    let mut b = [0_i8; 18];
    b[12] = -1;
    sparse_roundtrip(a, b);
}

#[test]
fn sparse_complement_inversion_above_half_roundtrips() {
    let mut a = [0_i8; 18];
    for (i, s) in a.iter_mut().enumerate() {
        *s = if matches!(i, 2 | 7 | 11 | 15) {
            0
        } else if i % 2 == 0 {
            1
        } else {
            -1
        };
    }
    let b = [1_i8; 18];
    sparse_roundtrip(a, b);
}

#[test]
fn sparse_every_count_roundtrips_with_distinct_positions() {
    for cnt in 0..=18usize {
        let mut a = [0_i8; 18];
        for (i, s) in a.iter_mut().enumerate().take(cnt) {
            *s = if i % 2 == 0 { 1 } else { -1 };
        }
        sparse_roundtrip(a, [0; 18]);
    }
}

#[test]
fn sparse_full_band_all_present_both_halves() {
    let a = [1_i8; 18];
    let mut b = [0_i8; 18];
    for (i, s) in b.iter_mut().enumerate() {
        *s = if i % 3 == 0 { -1 } else { 1 };
    }
    sparse_roundtrip(a, b);
}

#[test]
fn sparse_rejects_malformed_count_above_18() {
    let mut tables = *set();
    tables.q1 = code("nineteen", &[(1, 1), (2, 2)], vec![19, 0, 1]);
    let mut reader = Sv7BitReader::new(&[0xFF; 8]);
    let mut out = [0_i8; SAMPLES_PER_BAND];
    assert!(matches!(
        decode_sv8_sparse_band(&tables, &mut reader, &mut out),
        Err(Error::GroupedSymbolOutOfRange(19)),
    ));
}

#[test]
fn sparse_propagates_eof() {
    let (pat, len, _) = find_codeword(q1_table(), |s| s == 1).unwrap();
    let mut p = BitPacker::new();
    p.push(pat, len);
    let mut bytes = p.finish();
    bytes.truncate(1);
    let mut reader = Sv7BitReader::new(&bytes);
    let mut out = [0_i8; SAMPLES_PER_BAND];
    assert!(matches!(
        decode_sv8_sparse_band(set(), &mut reader, &mut out),
        Err(Error::UnexpectedEof),
    ));
}

#[test]
fn enum_bitlen_lost_matches_binomial_code_space() {
    for k in 0..=18u32 {
        let total = binomial(18, k);
        let (bitlen, lost) = enum_bitlen_lost(total);
        if total <= 1 {
            assert_eq!((bitlen, lost), (0, 0), "k {k}");
        } else {
            assert_eq!((1u32 << bitlen) - lost, total, "k {k}");
            assert!((1u32 << (bitlen - 1)) < total, "k {k}");
        }
    }
}

#[test]
fn binomial_recurrence_matches_reference() {
    for n in 0..=18u32 {
        for k in 0..=n {
            assert_eq!(binomial(n, k), comb(n, k), "C({n},{k})");
        }
    }
    assert_eq!(binomial(18, 9), 48620);
    assert_eq!(binomial(5, 3), 10);
}

#[test]
fn implemented_cases_match_classifier_arms() {
    assert_eq!(sv8_band_type_case(2), Sv8BandDecodeCase::Grouped3);
    for bt in 3..=4 {
        assert_eq!(sv8_band_type_case(bt), Sv8BandDecodeCase::Grouped2);
    }
    for bt in 5..=8 {
        assert_eq!(
            sv8_band_type_case(bt),
            Sv8BandDecodeCase::ContextHuffmanPerSample
        );
    }
    for bt in 9..=17 {
        assert_eq!(sv8_band_type_case(bt), Sv8BandDecodeCase::LargeCoeffEscape);
        assert!(escape_raw_bits(bt).is_some());
    }
    assert_eq!(sv8_band_type_case(1), Sv8BandDecodeCase::SparseBand);
    let mut out = [0_i8; SAMPLES_PER_BAND];
    let mut out_i32 = [0_i32; SAMPLES_PER_BAND];
    let mut reader = Sv7BitReader::new(&[0xFF; 64]);
    assert!(decode_sv8_grouped2_band(set(), &mut reader, 1, &mut out).is_err());
    let mut reader = Sv7BitReader::new(&[0xFF; 64]);
    assert!(decode_sv8_context_band(set(), &mut reader, 1, 0, |_| 0, &mut out).is_err());
    let mut reader = Sv7BitReader::new(&[0xFF; 64]);
    assert!(decode_sv8_escape_band(set(), &mut reader, 1, &mut out_i32).is_err());
}
