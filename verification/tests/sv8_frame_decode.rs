//! The one-channel frame body.

#![allow(dead_code)]

use oxideav_musepack::bit_reader::Sv7BitReader;
use oxideav_musepack::cns::{CnsPrng, SAMPLES_PER_BAND};
use oxideav_musepack::error::Error;
use oxideav_musepack::sv8_frame_decode::decode_sv8_frame_channel;
use oxideav_musepack::sv8_huffman::{
    Sv8CanonicalEntry, Sv8CanonicalTable, Sv8TableRole, Sv8TableSet, table_for_role,
};

/// A complete code: `shape` says how many of the symbols, in their order, have code words of
/// each length.
fn code(name: &'static str, shape: &[(u8, u32)], symbols: Vec<i8>) -> Sv8CanonicalTable {
    let mut rows = Vec::new();
    let mut bottom = 0x1_0000_u32;
    let mut index = 0_u32;
    for &(length, count) in shape {
        let step = 1_u32 << (16 - length);
        let top = bottom / step;
        bottom -= count * step;
        rows.push(Sv8CanonicalEntry {
            code: bottom as u16,
            length,
            cum_index: (index + top - 1) as i16,
        });
        index += count;
    }
    Sv8CanonicalTable { lengths: rows.leak(), symbols: symbols.leak(), name }
}

fn pairs(bound: i8) -> Vec<i8> {
    let mut out = Vec::new();
    for hi in -bound..=bound {
        for lo in -bound..=bound {
            out.push((hi << 4) | (lo & 15));
        }
    }
    out
}

fn triples() -> Vec<i8> {
    let mut out: Vec<i8> = vec![62];
    out.extend((0..125_i8).filter(|&s| s != 62));
    out
}

fn levels(bound: i8) -> Vec<i8> {
    let mut out = vec![0];
    for l in 1..=bound {
        out.push(l);
        out.push(-l);
    }
    out
}

fn set() -> &'static Sv8TableSet {
    Box::leak(Box::new(Sv8TableSet {
        bands: code(
            "sv8-canonical-bands",
            &[(1, 1), (3, 1), (4, 1), (5, 1), (6, 13), (7, 9), (8, 1), (9, 1), (10, 1), (11, 1), (12, 1), (13, 2)],
            (0..33).collect(),
        ),
        res: [
            code(
                "sv8-canonical-res-1",
                &[
                    (1, 1), (2, 1), (3, 1), (4, 1), (5, 1), (6, 1), (7, 1), (8, 1), (9, 1), (10, 1), (11, 1),
                    (12, 1), (13, 1), (14, 1), (15, 1), (16, 2),
                ],
                (0..17).collect(),
            ),
            code(
                "sv8-canonical-res-2",
                &[(1, 1), (3, 1), (4, 5), (5, 1), (6, 1), (7, 1), (8, 1), (9, 1), (10, 1), (11, 1), (12, 1), (13, 2)],
                (0..17).collect(),
            ),
        ],
        scfi: [
            code("sv8-canonical-scfi-1", &[(1, 1), (2, 1), (3, 2)], (0..4).collect()),
            code(
                "sv8-canonical-scfi-2",
                &[(1, 1), (3, 1), (4, 1), (5, 7), (6, 6)],
                (0..16).collect(),
            ),
        ],
        dscf: [
            code(
                "sv8-canonical-dscf-1",
                &[(1, 1), (3, 1), (4, 1), (5, 1), (6, 1), (7, 14), (8, 39), (9, 1), (10, 1), (11, 1), (12, 1), (13, 2)],
                (0..64).collect(),
            ),
            code(
                "sv8-canonical-dscf-2",
                &[
                    (1, 1), (3, 1), (4, 1), (5, 1), (6, 1), (7, 14), (8, 39), (9, 1), (10, 1), (11, 1), (12, 1),
                    (13, 1), (14, 2),
                ],
                (0..65).collect(),
            ),
        ],
        q1: code(
            "sv8-canonical-q1",
            &[(3, 5), (4, 5), (5, 1), (6, 1), (7, 1), (8, 1), (9, 1), (10, 1), (11, 1), (12, 2)],
            (0..19).collect(),
        ),
        q2: [
            code(
                "sv8-canonical-q2-1",
                &[(1, 1), (3, 1), (4, 1), (5, 1), (6, 1), (7, 1), (8, 15), (9, 101), (10, 1), (11, 2)],
                triples(),
            ),
            code(
                "sv8-canonical-q2-2",
                &[(1, 1), (3, 1), (4, 1), (5, 1), (6, 1), (7, 1), (8, 14), (9, 103), (10, 2)],
                triples(),
            ),
        ],
        q3: code(
            "sv8-canonical-q3",
            &[(1, 1), (3, 1), (4, 1), (5, 1), (6, 1), (7, 24), (8, 20)],
            pairs(3),
        ),
        q4: code(
            "sv8-canonical-q4",
            &[(3, 1), (5, 1), (6, 32), (7, 43), (8, 1), (9, 1), (10, 2)],
            pairs(4),
        ),
        q5: [
            code("sv8-canonical-q5-1", &[(1, 1), (3, 1), (4, 1), (5, 9), (6, 1), (7, 2)], levels(7)),
            code("sv8-canonical-q5-2", &[(1, 1), (4, 3), (5, 9), (6, 2)], levels(7)),
        ],
        q6: [
            code(
                "sv8-canonical-q6-1",
                &[(1, 1), (3, 1), (4, 1), (5, 1), (6, 11), (7, 13), (8, 1), (9, 2)],
                levels(15),
            ),
            code("sv8-canonical-q6-2", &[(1, 1), (4, 1), (5, 1), (6, 24), (7, 4)], levels(15)),
        ],
        q7: [
            code(
                "sv8-canonical-q7-1",
                &[(1, 1), (3, 1), (4, 1), (5, 1), (6, 1), (7, 12), (8, 43), (9, 1), (10, 2)],
                levels(31),
            ),
            code("sv8-canonical-q7-2", &[(1, 1), (5, 1), (6, 1), (7, 56), (8, 4)], levels(31)),
        ],
        q8: [
            code(
                "sv8-canonical-q8-1",
                &[(1, 1), (3, 1), (4, 1), (5, 1), (6, 1), (7, 1), (8, 14), (9, 103), (10, 1), (11, 1), (12, 2)],
                levels(63),
            ),
            code("sv8-canonical-q8-2", &[(1, 1), (7, 3), (8, 121), (9, 2)], levels(63)),
        ],
        q9up: code(
            "sv8-canonical-q9up",
            &[(1, 1), (6, 1), (7, 1), (8, 1), (9, 232), (10, 20)],
            (i8::MIN..=i8::MAX).collect(),
        ),
    }))
}

fn res_1_table() -> &'static Sv8CanonicalTable {
    &set().res[0]
}

fn res_2_table() -> &'static Sv8CanonicalTable {
    &set().res[1]
}

fn scfi_1_table() -> &'static Sv8CanonicalTable {
    &set().scfi[0]
}

struct BitPacker {
    bytes: Vec<u8>,
    acc: u32,
    nbits: u8,
}

impl BitPacker {
    fn new() -> Self {
        BitPacker {
            bytes: Vec::new(),
            acc: 0,
            nbits: 0,
        }
    }
    fn push(&mut self, pattern: u16, length: u8) {
        for i in 0..length {
            let bit = (pattern >> (15 - i)) & 1;
            self.acc = (self.acc << 1) | bit as u32;
            self.nbits += 1;
            if self.nbits == 8 {
                self.bytes.push(self.acc as u8);
                self.acc = 0;
                self.nbits = 0;
            }
        }
    }
    fn push_raw(&mut self, value: u32, length: u8) {
        for i in (0..length).rev() {
            let bit = (value >> i) & 1;
            self.acc = (self.acc << 1) | bit;
            self.nbits += 1;
            if self.nbits == 8 {
                self.bytes.push(self.acc as u8);
                self.acc = 0;
                self.nbits = 0;
            }
        }
    }
    fn finish(mut self) -> Vec<u8> {
        if self.nbits > 0 {
            self.bytes.push((self.acc << (8 - self.nbits)) as u8);
        }
        self.bytes.push(0);
        self.bytes.push(0);
        self.bytes
    }
}

fn symbol_for_row(table: &Sv8CanonicalTable, r: usize) -> i8 {
    let e = table.lengths[r];
    let mut p = BitPacker::new();
    p.push(e.code, e.length);
    let bytes = p.finish();
    let mut reader = Sv7BitReader::new(&bytes);
    table.decode(&mut reader).expect("single-codeword decode")
}

fn codeword_for_symbol(table: &Sv8CanonicalTable, target: i8) -> Option<(u16, u8)> {
    let mut upper: u32 = 0x1_0000;
    for e in table.lengths.iter() {
        if e.length == 0 {
            continue;
        }
        let step = 1u32 << (16 - e.length as u32);
        let mut pat = e.code as u32;
        while pat < upper {
            let mut p = BitPacker::new();
            p.push(pat as u16, e.length);
            let bytes = p.finish();
            let mut r = Sv7BitReader::new(&bytes);
            if table.decode(&mut r).unwrap() == target {
                return Some((pat as u16, e.length));
            }
            pat += step;
        }
        upper = e.code as u32;
    }
    None
}

fn fold_ref(prev: i32, delta: i32) -> i32 {
    ((prev - 25 + delta) & 127) - 6
}

fn wrap_ref(v: i32) -> i8 {
    if v > 15 {
        (v - 17) as i8
    } else {
        v as i8
    }
}

#[test]
fn zero_bands_decodes_to_empty_sequence() {
    let mut reader = Sv7BitReader::new(&[0xFF; 4]);
    let mut cns = CnsPrng::new();
    let out = decode_sv8_frame_channel(set(), &mut reader, 0, true, &mut cns).unwrap();
    assert!(out.is_empty());
}

#[test]
fn rejects_nbands_above_subband_count() {
    let mut reader = Sv7BitReader::new(&[0xFF; 16]);
    let mut cns = CnsPrng::new();
    assert_eq!(
        decode_sv8_frame_channel(set(), &mut reader, 33, true, &mut cns),
        Err(Error::MaxBandOutOfRange(33))
    );
}

#[test]
fn single_empty_band_emits_silent_record_and_reads_only_resolution() {
    let (code, len) = codeword_for_symbol(res_1_table(), 0).expect("res-1 has symbol 0");
    let mut p = BitPacker::new();
    p.push(code, len);
    let bytes = p.finish();
    let mut reader = Sv7BitReader::new(&bytes);
    let mut cns = CnsPrng::new();
    let out = decode_sv8_frame_channel(set(), &mut reader, 1, true, &mut cns).unwrap();
    assert_eq!(out.len(), 1);
    assert_eq!(out[0].band_type, 0);
    assert_eq!(out[0].subband, 0);
    assert_eq!(out[0].granule_scf, [0, 0, 0]);
    assert!(out[0].levels.iter().all(|&s| s == 0));
}

#[test]
fn single_cns_band_fills_samples_and_advances_prng_without_scf() {
    let (code, len) = codeword_for_symbol(res_1_table(), 16).expect("res-1 has symbol 16");
    let mut p = BitPacker::new();
    p.push(code, len);
    let bytes = p.finish();
    let mut reader = Sv7BitReader::new(&bytes);
    let mut cns = CnsPrng::new();
    let out = decode_sv8_frame_channel(set(), &mut reader, 1, true, &mut cns).unwrap();
    assert_eq!(out.len(), 1);
    assert_eq!(out[0].band_type, -1);
    assert_eq!(out[0].granule_scf, [0, 0, 0]);
    let mut direct = [0_i32; SAMPLES_PER_BAND];
    let mut cns2 = CnsPrng::new();
    cns2.fill_samples(&mut direct);
    assert_eq!(out[0].levels, direct);
    assert_eq!(cns.state(), cns2.state());
}

#[test]
fn single_coded_band_decodes_scfi_scf_then_samples() {
    let (res_code, res_len) = codeword_for_symbol(res_1_table(), 5).expect("res-1 sym 5");
    assert_eq!(wrap_ref(5), 5);
    let (scfi_code, scfi_len) =
        codeword_for_symbol(scfi_1_table(), 2).expect("scfi-1 sym 2");
    let dscf1 = table_for_role(set(), Sv8TableRole::Dscf, 0).unwrap();
    let (scf2_code, scf2_len) = codeword_for_symbol(dscf1, 3).expect("dscf-1 sym 3");
    let abs: u32 = 60;
    let q5_1 = table_for_role(set(), Sv8TableRole::Q5, 1).unwrap();
    let q5_0 = table_for_role(set(), Sv8TableRole::Q5, 0).unwrap();
    let e1 = q5_1.lengths[0];
    let e0 = q5_0.lengths[0];
    let mut p = BitPacker::new();
    p.push(res_code, res_len);
    p.push(scfi_code, scfi_len);
    p.push_raw(abs, 7);
    p.push(scf2_code, scf2_len);
    for _ in 0..SAMPLES_PER_BAND {
        p.push(e1.code, e1.length);
    }
    for _ in 0..SAMPLES_PER_BAND {
        p.push(e0.code, e0.length);
    }
    let bytes = p.finish();
    let mut reader = Sv7BitReader::new(&bytes);
    let mut cns = CnsPrng::new();
    let out = decode_sv8_frame_channel(set(), &mut reader, 1, true, &mut cns).unwrap();
    assert_eq!(out.len(), 1);
    let band = &out[0];
    assert_eq!(band.band_type, 5);
    assert_eq!(band.subband, 0);
    let scf0 = abs as i32 - 6;
    let scf2 = fold_ref(scf0, 3);
    assert_eq!(band.granule_scf, [scf0, scf0, scf2]);
    assert!(band.levels.iter().all(|&s| (-7..=7).contains(&s)));
}

#[test]
fn multi_band_threads_prev_scf2_across_coded_bands() {
    let (top_code, top_len) = codeword_for_symbol(res_1_table(), 3).expect("res-1 sym 3");
    let (low_code, low_len) = codeword_for_symbol(res_2_table(), 0).expect("res-2 sym 0");
    let (scfi_code, scfi_len) =
        codeword_for_symbol(scfi_1_table(), 3).expect("scfi-1 sym 3");
    let dscf2 = table_for_role(set(), Sv8TableRole::Dscf, 1).unwrap();
    let (b1_code, b1_len) = codeword_for_symbol(dscf2, 7).expect("dscf-2 sym 7");
    let q3 = table_for_role(set(), Sv8TableRole::Q3, 0).unwrap();
    let q3e = q3.lengths[0];
    let (b0_code, b0_len) = codeword_for_symbol(dscf2, 2).expect("dscf-2 sym 2");
    let mut p = BitPacker::new();
    p.push(top_code, top_len);
    p.push(low_code, low_len);
    p.push(scfi_code, scfi_len);
    p.push(b0_code, b0_len);
    for _ in 0..18 {
        p.push(q3e.code, q3e.length);
    }
    p.push(scfi_code, scfi_len);
    p.push(b1_code, b1_len);
    for _ in 0..18 {
        p.push(q3e.code, q3e.length);
    }
    let bytes = p.finish();
    let mut reader = Sv7BitReader::new(&bytes);
    let mut cns = CnsPrng::new();
    let out = decode_sv8_frame_channel(set(), &mut reader, 2, false, &mut cns).unwrap();
    assert_eq!(out.len(), 2);
    assert_eq!(out[0].band_type, 3);
    assert_eq!(out[1].band_type, 3);
    let b0_scf0 = fold_ref(0, 2);
    assert_eq!(out[0].granule_scf, [b0_scf0, b0_scf0, b0_scf0]);
    let b1_scf0 = fold_ref(b0_scf0, 7);
    assert_eq!(out[1].granule_scf, [b1_scf0, b1_scf0, b1_scf0]);
}

#[test]
fn propagates_eof_in_resolution_phase() {
    let e = res_1_table().lengths[0];
    let mut p = BitPacker::new();
    p.push(e.code, e.length);
    let mut bytes = p.bytes.clone();
    if p.nbits > 0 {
        bytes.push((p.acc << (8 - p.nbits)) as u8);
    }
    let mut reader = Sv7BitReader::new(&bytes);
    let mut cns = CnsPrng::new();
    assert_eq!(
        decode_sv8_frame_channel(set(), &mut reader, 2, true, &mut cns),
        Err(Error::UnexpectedEof)
    );
}

#[test]
fn subbands_are_numbered_ascending_from_zero() {
    let (code, len) = codeword_for_symbol(res_1_table(), 0).expect("res-1 sym 0");
    let _ = symbol_for_row(res_1_table(), 0);
    let mut p = BitPacker::new();
    for _ in 0..3 {
        p.push(code, len);
    }
    let bytes = p.finish();
    let mut reader = Sv7BitReader::new(&bytes);
    let mut cns = CnsPrng::new();
    let out = decode_sv8_frame_channel(set(), &mut reader, 3, true, &mut cns).unwrap();
    assert_eq!(out.len(), 3);
    for (i, band) in out.iter().enumerate() {
        assert_eq!(band.subband, i);
        assert_eq!(band.band_type, 0);
        assert!(band.levels.iter().all(|&s| s == 0));
    }
}
