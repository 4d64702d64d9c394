//! Code words, log codes and subsets.

#![allow(dead_code)]

use oxideav_musepack::bit_reader::Sv7BitReader;
use oxideav_musepack::bit_writer::Sv7BitWriter;
use oxideav_musepack::combinadic::enum_decode_subset;
use oxideav_musepack::error::Error;
use oxideav_musepack::sv8_band_header::decode_log_code;
use oxideav_musepack::sv8_huffman::{
    Sv8CanonicalEntry, Sv8CanonicalTable, Sv8TableRole, Sv8TableSet, table_for_role,
};
use oxideav_musepack::sv8_huffman_encode::{
    encode_symbol, encode_symbol_index, write_enum_subset, write_log_code, write_symbol,
};

/// A complete code: `shape` says how many of the symbols, in their order, have code words of
/// each length.
fn code(name: &'static str, shape: &[(u8, u32)], symbols: Vec<i8>) -> Sv8CanonicalTable {
    let mut rows = Vec::new();
    let mut bottom = 0x1_0000_u32;
    let mut index = 0_u32;
    for &(length, count) in shape {
        let step = 1_u32 << (16 - length);
        let top = bottom / step;
        bottom -= count * step;
        rows.push(Sv8CanonicalEntry {
            code: bottom as u16,
            length,
            cum_index: (index + top - 1) as i16,
        });
        index += count;
    }
    Sv8CanonicalTable { lengths: rows.leak(), symbols: symbols.leak(), name }
}

fn pairs(bound: i8) -> Vec<i8> {
    let mut out = Vec::new();
    for hi in -bound..=bound {
        for lo in -bound..=bound {
            out.push((hi << 4) | (lo & 15));
        }
    }
    out
}

fn triples() -> Vec<i8> {
    let mut out: Vec<i8> = vec![62];
    out.extend((0..125_i8).filter(|&s| s != 62));
    out
}

fn levels(bound: i8) -> Vec<i8> {
    let mut out = vec![0];
    for l in 1..=bound {
        out.push(l);
        out.push(-l);
    }
    out
}

fn set() -> &'static Sv8TableSet {
    Box::leak(Box::new(Sv8TableSet {
        bands: code(
            "sv8-canonical-bands",
            &[(1, 1), (3, 1), (4, 1), (5, 1), (6, 13), (7, 9), (8, 1), (9, 1), (10, 1), (11, 1), (12, 1), (13, 2)],
            (0..33).collect(),
        ),
        res: [
            code(
                "sv8-canonical-res-1",
                &[
                    (1, 1), (2, 1), (3, 1), (4, 1), (5, 1), (6, 1), (7, 1), (8, 1), (9, 1), (10, 1), (11, 1),
                    (12, 1), (13, 1), (14, 1), (15, 1), (16, 2),
                ],
                (0..17).collect(),
            ),
            code(
                "sv8-canonical-res-2",
                &[(1, 1), (3, 1), (4, 5), (5, 1), (6, 1), (7, 1), (8, 1), (9, 1), (10, 1), (11, 1), (12, 1), (13, 2)],
                (0..17).collect(),
            ),
        ],
        scfi: [
            code("sv8-canonical-scfi-1", &[(1, 1), (2, 1), (3, 2)], (0..4).collect()),
            code(
                "sv8-canonical-scfi-2",
                &[(1, 1), (3, 1), (4, 1), (5, 7), (6, 6)],
                (0..16).collect(),
            ),
        ],
        dscf: [
            code(
                "sv8-canonical-dscf-1",
                &[(1, 1), (3, 1), (4, 1), (5, 1), (6, 1), (7, 14), (8, 39), (9, 1), (10, 1), (11, 1), (12, 1), (13, 2)],
                (0..64).collect(),
            ),
            code(
                "sv8-canonical-dscf-2",
                &[
                    (1, 1), (3, 1), (4, 1), (5, 1), (6, 1), (7, 14), (8, 39), (9, 1), (10, 1), (11, 1), (12, 1),
                    (13, 1), (14, 2),
                ],
                (0..65).collect(),
            ),
        ],
        q1: code(
            "sv8-canonical-q1",
            &[(3, 5), (4, 5), (5, 1), (6, 1), (7, 1), (8, 1), (9, 1), (10, 1), (11, 1), (12, 2)],
            (0..19).collect(),
        ),
        q2: [
            code(
                "sv8-canonical-q2-1",
                &[(1, 1), (3, 1), (4, 1), (5, 1), (6, 1), (7, 1), (8, 15), (9, 101), (10, 1), (11, 2)],
                triples(),
            ),
            code(
                "sv8-canonical-q2-2",
                &[(1, 1), (3, 1), (4, 1), (5, 1), (6, 1), (7, 1), (8, 14), (9, 103), (10, 2)],
                triples(),
            ),
        ],
        q3: code(
            "sv8-canonical-q3",
            &[(1, 1), (3, 1), (4, 1), (5, 1), (6, 1), (7, 24), (8, 20)],
            pairs(3),
        ),
        q4: code(
            "sv8-canonical-q4",
            &[(3, 1), (5, 1), (6, 32), (7, 43), (8, 1), (9, 1), (10, 2)],
            pairs(4),
        ),
        q5: [
            code("sv8-canonical-q5-1", &[(1, 1), (3, 1), (4, 1), (5, 9), (6, 1), (7, 2)], levels(7)),
            code("sv8-canonical-q5-2", &[(1, 1), (4, 3), (5, 9), (6, 2)], levels(7)),
        ],
        q6: [
            code(
                "sv8-canonical-q6-1",
                &[(1, 1), (3, 1), (4, 1), (5, 1), (6, 11), (7, 13), (8, 1), (9, 2)],
                levels(15),
            ),
            code("sv8-canonical-q6-2", &[(1, 1), (4, 1), (5, 1), (6, 24), (7, 4)], levels(15)),
        ],
        q7: [
            code(
                "sv8-canonical-q7-1",
                &[(1, 1), (3, 1), (4, 1), (5, 1), (6, 1), (7, 12), (8, 43), (9, 1), (10, 2)],
                levels(31),
            ),
            code("sv8-canonical-q7-2", &[(1, 1), (5, 1), (6, 1), (7, 56), (8, 4)], levels(31)),
        ],
        q8: [
            code(
                "sv8-canonical-q8-1",
                &[(1, 1), (3, 1), (4, 1), (5, 1), (6, 1), (7, 1), (8, 14), (9, 103), (10, 1), (11, 1), (12, 2)],
                levels(63),
            ),
            code("sv8-canonical-q8-2", &[(1, 1), (7, 3), (8, 121), (9, 2)], levels(63)),
        ],
        q9up: code(
            "sv8-canonical-q9up",
            &[(1, 1), (6, 1), (7, 1), (8, 1), (9, 232), (10, 20)],
            (i8::MIN..=i8::MAX).collect(),
        ),
    }))
}

fn bands_table() -> &'static Sv8CanonicalTable {
    &set().bands
}

fn res_1_table() -> &'static Sv8CanonicalTable {
    &set().res[0]
}

fn res_2_table() -> &'static Sv8CanonicalTable {
    &set().res[1]
}

fn scfi_1_table() -> &'static Sv8CanonicalTable {
    &set().scfi[0]
}

fn scfi_2_table() -> &'static Sv8CanonicalTable {
    &set().scfi[1]
}

fn dscf_1_table() -> &'static Sv8CanonicalTable {
    &set().dscf[0]
}

fn dscf_2_table() -> &'static Sv8CanonicalTable {
    &set().dscf[1]
}

fn q1_table() -> &'static Sv8CanonicalTable {
    &set().q1
}

fn q9up_table() -> &'static Sv8CanonicalTable {
    &set().q9up
}

fn all_tables() -> Vec<&'static Sv8CanonicalTable> {
    let mut out: Vec<&'static Sv8CanonicalTable> = vec![
        bands_table(),
        res_1_table(),
        res_2_table(),
        scfi_1_table(),
        scfi_2_table(),
        dscf_1_table(),
        dscf_2_table(),
        q1_table(),
        q9up_table(),
    ];
    for role in [
        Sv8TableRole::Q2,
        Sv8TableRole::Q3,
        Sv8TableRole::Q4,
        Sv8TableRole::Q5,
        Sv8TableRole::Q6,
        Sv8TableRole::Q7,
        Sv8TableRole::Q8,
    ] {
        for ctx in 0..2 {
            if let Some(t) = table_for_role(set(), role, ctx) {
                if !out.iter().any(|e| std::ptr::eq(*e, t)) {
                    out.push(t);
                }
            }
        }
    }
    out
}

fn covered_indices(table: &Sv8CanonicalTable) -> Vec<usize> {
    let mut out = Vec::new();
    let mut upper: u32 = 0x1_0000;
    for e in table.lengths.iter() {
        if e.length == 0 {
            continue;
        }
        let shift = 16 - u32::from(e.length);
        let lo = u32::from(e.code) >> shift;
        let hi = (upper >> shift) - 1;
        for bin in lo..=hi {
            out.push((i32::from(e.cum_index) - bin as i32).rem_euclid(256) as usize);
        }
        upper = u32::from(e.code);
    }
    out
}

#[test]
fn every_reachable_codeword_round_trips_exactly() {
    for table in all_tables() {
        let covered = covered_indices(table);
        assert!(!covered.is_empty(), "{}", table.name);
        for &index in &covered {
            let (code, length) = encode_symbol_index(table, index)
                .unwrap_or_else(|e| panic!("{}[{index}]: {e:?}", table.name));
            let mut w = Sv7BitWriter::new();
            w.write_left_justified(code, length);
            w.write_bits(0, 16);
            let bytes = w.finish();
            let mut r = Sv7BitReader::new(&bytes);
            let before = r.bits_remaining();
            let got = table.decode_symbol_index(&mut r).unwrap();
            assert_eq!(got, index, "{} index {index}", table.name);
            assert_eq!(
                before - r.bits_remaining(),
                u64::from(length),
                "{} index {index}: exact codeword width",
                table.name
            );
        }
    }
}

#[test]
fn reachable_symbols_are_unique_and_symbol_encode_round_trips() {
    for table in all_tables() {
        let covered = covered_indices(table);
        let mut seen = std::collections::BTreeSet::new();
        for &i in &covered {
            assert!(
                seen.insert(table.symbols[i]),
                "{}: duplicate reachable symbol {}",
                table.name,
                table.symbols[i]
            );
        }
        for &i in &covered {
            let symbol = table.symbols[i];
            let mut w = Sv7BitWriter::new();
            write_symbol(&mut w, table, symbol).unwrap();
            w.write_bits(0, 16);
            let bytes = w.finish();
            let mut r = Sv7BitReader::new(&bytes);
            assert_eq!(
                table.decode(&mut r).unwrap(),
                symbol,
                "{} symbol {symbol}",
                table.name
            );
        }
    }
}

#[test]
fn unknown_symbol_is_rejected() {
    assert!(matches!(
        encode_symbol(scfi_1_table(), 99),
        Err(Error::SymbolNotEncodable(99))
    ));
    let out_of_map = scfi_1_table().symbols.len();
    assert!(matches!(
        encode_symbol_index(scfi_1_table(), out_of_map),
        Err(Error::SymbolNotEncodable(_))
    ));
}

#[test]
fn write_symbol_streams_compose() {
    let table = res_1_table();
    let symbols: Vec<i8> = table.symbols.to_vec();
    let mut w = Sv7BitWriter::new();
    for &s in &symbols {
        write_symbol(&mut w, table, s).unwrap();
    }
    w.write_bits(0, 16);
    let bytes = w.finish();
    let mut r = Sv7BitReader::new(&bytes);
    for &s in &symbols {
        assert_eq!(table.decode(&mut r).unwrap(), s);
    }
}

#[test]
fn log_code_round_trips_every_value() {
    for max in 1..=40u32 {
        for v in 0..max {
            let mut w = Sv7BitWriter::new();
            write_log_code(&mut w, v, max).unwrap();
            w.write_bits(0, 16);
            let bytes = w.finish();
            let mut r = Sv7BitReader::new(&bytes);
            assert_eq!(decode_log_code(&mut r, max).unwrap(), v, "max {max} v {v}");
        }
    }
}

#[test]
fn log_code_rejects_out_of_range_value() {
    let mut w = Sv7BitWriter::new();
    assert!(matches!(
        write_log_code(&mut w, 5, 5),
        Err(Error::SampleOutOfRange(5))
    ));
    assert!(matches!(
        write_log_code(&mut w, 1, 1),
        Err(Error::SampleOutOfRange(1))
    ));
    write_log_code(&mut w, 0, 1).unwrap();
    assert!(w.is_empty());
}

#[test]
fn enum_subset_round_trips_exhaustively_for_small_n() {
    for n in 1..=12u32 {
        for mask in 0..(1u32 << n) {
            let k = mask.count_ones();
            let mut w = Sv7BitWriter::new();
            write_enum_subset(&mut w, mask, k, n).unwrap();
            w.write_bits(0, 16);
            let bytes = w.finish();
            let mut r = Sv7BitReader::new(&bytes);
            let got = enum_decode_subset(&mut r, k, n).unwrap();
            assert_eq!(got, mask, "n {n} mask {mask:#b}");
        }
    }
}

#[test]
fn enum_subset_rejects_wrong_popcount_or_stray_bits() {
    let mut w = Sv7BitWriter::new();
    assert!(matches!(
        write_enum_subset(&mut w, 0b101, 1, 3),
        Err(Error::SampleOutOfRange(_))
    ));
    assert!(matches!(
        write_enum_subset(&mut w, 1 << 5, 1, 3),
        Err(Error::SampleOutOfRange(_))
    ));
    assert!(w.is_empty(), "rejections write no bits");
}
