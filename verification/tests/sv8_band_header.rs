//! Used bands, band types and mid/side flags.

#![allow(dead_code)]

use oxideav_musepack::bit_reader::Sv7BitReader;
use oxideav_musepack::error::Error;
use oxideav_musepack::sv8_band_header::{
    RawResVlc, SV8_MAX_USED_SUBBANDS, decode_band_resolutions, decode_band_resolutions_grounded,
    decode_band_resolutions_stereo_grounded, decode_keyframe_max_used_band, decode_log_code,
    decode_nonkey_max_used_band, decode_sv8_ms_flags, decode_used_subbands, res_ctx_for_above,
    wrap_res,
};
use oxideav_musepack::sv8_huffman::{Sv8CanonicalEntry, Sv8CanonicalTable, Sv8TableSet};

/// A complete code: `shape` says how many of the symbols, in their order, have code words of
/// each length.
fn code(name: &'static str, shape: &[(u8, u32)], symbols: Vec<i8>) -> Sv8CanonicalTable {
    let mut rows = Vec::new();
    let mut bottom = 0x1_0000_u32;
    let mut index = 0_u32;
    for &(length, count) in shape {
        let step = 1_u32 << (16 - length);
        let top = bottom / step;
        bottom -= count * step;
        rows.push(Sv8CanonicalEntry {
            code: bottom as u16,
            length,
            cum_index: (index + top - 1) as i16,
        });
        index += count;
    }
    Sv8CanonicalTable { lengths: rows.leak(), symbols: symbols.leak(), name }
}

fn pairs(bound: i8) -> Vec<i8> {
    let mut out = Vec::new();
    for hi in -bound..=bound {
        for lo in -bound..=bound {
            out.push((hi << 4) | (lo & 15));
        }
    }
    out
}

fn triples() -> Vec<i8> {
    let mut out: Vec<i8> = vec![62];
    out.extend((0..125_i8).filter(|&s| s != 62));
    out
}

fn levels(bound: i8) -> Vec<i8> {
    let mut out = vec![0];
    for l in 1..=bound {
        out.push(l);
        out.push(-l);
    }
    out
}

fn set() -> &'static Sv8TableSet {
    Box::leak(Box::new(Sv8TableSet {
        bands: code(
            "sv8-canonical-bands",
            &[(1, 1), (3, 1), (4, 1), (5, 1), (6, 13), (7, 9), (8, 1), (9, 1), (10, 1), (11, 1), (12, 1), (13, 2)],
            (0..33).collect(),
        ),
        res: [
            code(
                "sv8-canonical-res-1",
                &[
                    (1, 1), (2, 1), (3, 1), (4, 1), (5, 1), (6, 1), (7, 1), (8, 1), (9, 1), (10, 1), (11, 1),
                    (12, 1), (13, 1), (14, 1), (15, 1), (16, 2),
                ],
                (0..17).collect(),
            ),
            code(
                "sv8-canonical-res-2",
                &[(1, 1), (3, 1), (4, 5), (5, 1), (6, 1), (7, 1), (8, 1), (9, 1), (10, 1), (11, 1), (12, 1), (13, 2)],
                (0..17).collect(),
            ),
        ],
        scfi: [
            code("sv8-canonical-scfi-1", &[(1, 1), (2, 1), (3, 2)], (0..4).collect()),
            code(
                "sv8-canonical-scfi-2",
                &[(1, 1), (3, 1), (4, 1), (5, 7), (6, 6)],
                (0..16).collect(),
            ),
        ],
        dscf: [
            code(
                "sv8-canonical-dscf-1",
                &[(1, 1), (3, 1), (4, 1), (5, 1), (6, 1), (7, 14), (8, 39), (9, 1), (10, 1), (11, 1), (12, 1), (13, 2)],
                (0..64).collect(),
            ),
            code(
                "sv8-canonical-dscf-2",
                &[
                    (1, 1), (3, 1), (4, 1), (5, 1), (6, 1), (7, 14), (8, 39), (9, 1), (10, 1), (11, 1), (12, 1),
                    (13, 1), (14, 2),
                ],
                (0..65).collect(),
            ),
        ],
        q1: code(
            "sv8-canonical-q1",
            &[(3, 5), (4, 5), (5, 1), (6, 1), (7, 1), (8, 1), (9, 1), (10, 1), (11, 1), (12, 2)],
            (0..19).collect(),
        ),
        q2: [
            code(
                "sv8-canonical-q2-1",
                &[(1, 1), (3, 1), (4, 1), (5, 1), (6, 1), (7, 1), (8, 15), (9, 101), (10, 1), (11, 2)],
                triples(),
            ),
            code(
                "sv8-canonical-q2-2",
                &[(1, 1), (3, 1), (4, 1), (5, 1), (6, 1), (7, 1), (8, 14), (9, 103), (10, 2)],
                triples(),
            ),
        ],
        q3: code(
            "sv8-canonical-q3",
            &[(1, 1), (3, 1), (4, 1), (5, 1), (6, 1), (7, 24), (8, 20)],
            pairs(3),
        ),
        q4: code(
            "sv8-canonical-q4",
            &[(3, 1), (5, 1), (6, 32), (7, 43), (8, 1), (9, 1), (10, 2)],
            pairs(4),
        ),
        q5: [
            code("sv8-canonical-q5-1", &[(1, 1), (3, 1), (4, 1), (5, 9), (6, 1), (7, 2)], levels(7)),
            code("sv8-canonical-q5-2", &[(1, 1), (4, 3), (5, 9), (6, 2)], levels(7)),
        ],
        q6: [
            code(
                "sv8-canonical-q6-1",
                &[(1, 1), (3, 1), (4, 1), (5, 1), (6, 11), (7, 13), (8, 1), (9, 2)],
                levels(15),
            ),
            code("sv8-canonical-q6-2", &[(1, 1), (4, 1), (5, 1), (6, 24), (7, 4)], levels(15)),
        ],
        q7: [
            code(
                "sv8-canonical-q7-1",
                &[(1, 1), (3, 1), (4, 1), (5, 1), (6, 1), (7, 12), (8, 43), (9, 1), (10, 2)],
                levels(31),
            ),
            code("sv8-canonical-q7-2", &[(1, 1), (5, 1), (6, 1), (7, 56), (8, 4)], levels(31)),
        ],
        q8: [
            code(
                "sv8-canonical-q8-1",
                &[(1, 1), (3, 1), (4, 1), (5, 1), (6, 1), (7, 1), (8, 14), (9, 103), (10, 1), (11, 1), (12, 2)],
                levels(63),
            ),
            code("sv8-canonical-q8-2", &[(1, 1), (7, 3), (8, 121), (9, 2)], levels(63)),
        ],
        q9up: code(
            "sv8-canonical-q9up",
            &[(1, 1), (6, 1), (7, 1), (8, 1), (9, 232), (10, 20)],
            (i8::MIN..=i8::MAX).collect(),
        ),
    }))
}

fn bands_table() -> &'static Sv8CanonicalTable {
    &set().bands
}

fn res_1_table() -> &'static Sv8CanonicalTable {
    &set().res[0]
}

fn res_2_table() -> &'static Sv8CanonicalTable {
    &set().res[1]
}

struct BitPacker {
    bytes: Vec<u8>,
    acc: u32,
    nbits: u8,
}

impl BitPacker {
    fn new() -> Self {
        BitPacker {
            bytes: Vec::new(),
            acc: 0,
            nbits: 0,
        }
    }
    fn push(&mut self, pattern: u16, length: u8) {
        for i in 0..length {
            let bit = (pattern >> (15 - i)) & 1;
            self.acc = (self.acc << 1) | bit as u32;
            self.nbits += 1;
            if self.nbits == 8 {
                self.bytes.push(self.acc as u8);
                self.acc = 0;
                self.nbits = 0;
            }
        }
    }
    fn finish(mut self) -> Vec<u8> {
        if self.nbits > 0 {
            self.bytes.push((self.acc << (8 - self.nbits)) as u8);
        }
        self.bytes.push(0);
        self.bytes.push(0);
        self.bytes
    }
}

fn symbol_for_row(table: &Sv8CanonicalTable, r: usize) -> i8 {
    let e = table.lengths[r];
    let mut p = BitPacker::new();
    p.push(e.code, e.length);
    let bytes = p.finish();
    let mut reader = Sv7BitReader::new(&bytes);
    table.decode(&mut reader).expect("single-codeword decode")
}

#[test]
fn raw_res_vlc_roundtrips_and_reports_zero_ness() {
    for v in [-1_i8, 0, 1, 16, 17, i8::MIN, i8::MAX] {
        let w = RawResVlc::from_raw(v);
        assert_eq!(w.as_i8(), v);
        assert_eq!(w.is_nonzero(), v != 0);
    }
}

#[test]
fn raw_res_vlc_is_distinct_from_plain_i8() {
    let a = RawResVlc::from_raw(3);
    let b = a;
    assert_eq!(a, b);
    let _printed = format!("{a:?}");
}

#[test]
fn used_subbands_bound_constant_matches_layer_two_heritage() {
    assert_eq!(SV8_MAX_USED_SUBBANDS, 32);
}

#[test]
fn used_subbands_decodes_bands_table_codewords() {
    for r in 0..bands_table().lengths.len() {
        let want = symbol_for_row(bands_table(), r);
        assert!(
            (0..=32).contains(&want),
            "bands row {r} symbol {want} must be a 0..=32 count",
        );
        let e = bands_table().lengths[r];
        let mut p = BitPacker::new();
        p.push(e.code, e.length);
        let bytes = p.finish();
        let mut reader = Sv7BitReader::new(&bytes);
        assert_eq!(decode_used_subbands(set(), &mut reader).unwrap(), want as u8);
    }
}

#[test]
fn used_subbands_shortest_codeword_is_zero_count() {
    assert_eq!(bands_table().symbols[0], 0);
    let e = bands_table().lengths[0];
    let mut p = BitPacker::new();
    p.push(e.code, e.length);
    let bytes = p.finish();
    let mut reader = Sv7BitReader::new(&bytes);
    assert_eq!(decode_used_subbands(set(), &mut reader).unwrap(), 0);
}

#[test]
fn used_subbands_propagates_eof() {
    let mut reader = Sv7BitReader::new(&[0xFF]);
    assert!(matches!(
        decode_used_subbands(set(), &mut reader),
        Err(Error::UnexpectedEof),
    ));
}

#[test]
fn band_resolutions_reads_n_codewords_constant_ctx() {
    let table = res_1_table();
    let e = table.lengths[0];
    let want = symbol_for_row(table, 0);
    for n in [0_u8, 1, 5, 32] {
        let mut p = BitPacker::new();
        for _ in 0..n {
            p.push(e.code, e.length);
        }
        let bytes = p.finish();
        let mut reader = Sv7BitReader::new(&bytes);
        let before = reader.bits_remaining();
        let res = decode_band_resolutions(set(), &mut reader, n, 0, |_| 0).unwrap();
        assert_eq!(res.len(), n as usize, "n = {n}");
        assert!(res.iter().all(|r| r.as_i8() == want), "n = {n}");
        assert_eq!(
            before - reader.bits_remaining(),
            n as u64 * e.length as u64,
            "n = {n}: exactly n codewords consumed",
        );
    }
}

#[test]
fn band_resolutions_zero_bands_reads_nothing() {
    let mut reader = Sv7BitReader::new(&[0xFF; 4]);
    let before = reader.bits_remaining();
    let res = decode_band_resolutions(set(), &mut reader, 0, 0, |_| 0).unwrap();
    assert!(res.is_empty());
    assert_eq!(reader.bits_remaining(), before, "0 bands reads no bits");
}

#[test]
fn band_resolutions_switches_context_on_previous_res() {
    let t0 = res_1_table();
    let t1 = res_2_table();
    let e0 = t0.lengths[0];
    let sym0 = symbol_for_row(t0, 0);
    let e1 = t1.lengths[0];
    let sym1 = symbol_for_row(t1, 0);
    let rule = |prev: RawResVlc| -> u8 {
        if prev.as_i8() == sym0 {
            1
        } else {
            0
        }
    };
    let mut p = BitPacker::new();
    let n = 6_u8;
    let mut ctx = 0_u8;
    let mut expected = Vec::new();
    for _ in 0..n {
        let (e, sym) = if ctx == 0 { (e0, sym0) } else { (e1, sym1) };
        p.push(e.code, e.length);
        expected.push(sym);
        ctx = rule(RawResVlc::from_raw(sym));
    }
    let bytes = p.finish();
    let mut reader = Sv7BitReader::new(&bytes);
    let res = decode_band_resolutions(set(), &mut reader, n, 0, rule).unwrap();
    let got: Vec<i8> = res.iter().map(|r| r.as_i8()).collect();
    assert_eq!(got, expected);
}

#[test]
fn band_resolutions_initial_ctx_one_reads_res_2() {
    let table = res_2_table();
    let e = table.lengths[0];
    let want = symbol_for_row(table, 0);
    let mut p = BitPacker::new();
    p.push(e.code, e.length);
    let bytes = p.finish();
    let mut reader = Sv7BitReader::new(&bytes);
    let res = decode_band_resolutions(set(), &mut reader, 1, 1, |_| 1).unwrap();
    assert_eq!(res.len(), 1);
    assert_eq!(res[0].as_i8(), want);
}

#[test]
fn band_resolutions_rejects_out_of_range_initial_ctx() {
    let mut reader = Sv7BitReader::new(&[0xFF; 8]);
    let before = reader.bits_remaining();
    let err = decode_band_resolutions(set(), &mut reader, 1, 2, |_| 0).unwrap_err();
    assert!(matches!(err, Error::UnsupportedBandType(i8::MIN)));
    assert_eq!(reader.bits_remaining(), before, "no bits read on ctx fault");
}

#[test]
fn band_resolutions_rejects_out_of_range_rule_context() {
    let table = res_1_table();
    let e = table.lengths[0];
    let mut p = BitPacker::new();
    p.push(e.code, e.length);
    let bytes = p.finish();
    let mut reader = Sv7BitReader::new(&bytes);
    let err = decode_band_resolutions(set(), &mut reader, 2, 0, |_| 2).unwrap_err();
    assert!(matches!(err, Error::UnsupportedBandType(i8::MIN)));
}

#[test]
fn band_resolutions_propagates_eof_mid_walk() {
    let table = res_1_table();
    let e = table.lengths[0];
    let mut p = BitPacker::new();
    p.push(e.code, e.length);
    let mut bytes = p.bytes.clone();
    if p.nbits > 0 {
        bytes.push((p.acc << (8 - p.nbits)) as u8);
    }
    let mut reader = Sv7BitReader::new(&bytes);
    let res = decode_band_resolutions(set(), &mut reader, 2, 0, |_| 0);
    assert!(matches!(res, Err(Error::UnexpectedEof)));
}

#[test]
fn band_resolutions_raw_values_stay_in_staged_alphabet() {
    for table in [res_1_table(), res_2_table()] {
        for r in 0..table.lengths.len() {
            let sym = symbol_for_row(table, r);
            assert!(
                (0..=16).contains(&sym),
                "{} row {r} symbol {sym} outside the 0..=16 res alphabet",
                table.name,
            );
        }
    }
}

#[test]
fn wrap_res_pins_the_signed_band_type_ring() {
    for v in 0..=15 {
        assert_eq!(wrap_res(v), v as i8, "raw {v} must pass through");
    }
    assert_eq!(wrap_res(16), -1, "raw 16 wraps to the CNS band_type −1");
    assert_eq!(wrap_res(30), 13);
    assert_eq!(wrap_res(31), 14);
    assert_eq!(wrap_res(7), 7);
    assert_eq!(wrap_res(0), 0);
}

#[test]
fn res_ctx_for_above_uses_the_band_above_exceeds_two_predicate() {
    for above in -1..=2 {
        assert_eq!(res_ctx_for_above(above), 0, "above {above} ⇒ ctx 0");
    }
    for above in 3..=15 {
        assert_eq!(res_ctx_for_above(above), 1, "above {above} ⇒ ctx 1");
    }
}

fn replicate_grounded(rows: &[usize]) -> (Vec<u8>, Vec<i8>) {
    let mut p = BitPacker::new();
    let mut top_down: Vec<i8> = Vec::new();
    let mut above: Option<i8> = None;
    for &row in rows {
        let ctx = match above {
            None => 0,
            Some(a) => res_ctx_for_above_ref(a),
        };
        let table = if ctx == 0 {
            res_1_table()
        } else {
            res_2_table()
        };
        let e = table.lengths[row];
        p.push(e.code, e.length);
        let raw = symbol_for_row(table, row) as i32;
        let res = match above {
            None => wrap_res_ref(raw),
            Some(a) => wrap_res_ref(raw + a as i32),
        };
        top_down.push(res);
        above = Some(res);
    }
    let mut ascending = top_down.clone();
    ascending.reverse();
    (p.finish(), ascending)
}

fn wrap_res_ref(v: i32) -> i8 {
    if v > 15 {
        (v - 17) as i8
    } else {
        v as i8
    }
}
fn res_ctx_for_above_ref(above: i8) -> u8 {
    if above > 2 {
        1
    } else {
        0
    }
}

#[test]
fn grounded_zero_bands_reads_nothing() {
    let mut reader = Sv7BitReader::new(&[0xFF; 4]);
    let before = reader.bits_remaining();
    let res = decode_band_resolutions_grounded(set(), &mut reader, 0).unwrap();
    assert!(res.is_empty());
    assert_eq!(reader.bits_remaining(), before, "0 bands reads no bits");
}

#[test]
fn grounded_single_band_reads_ctx0_and_wraps() {
    for row in 0..res_1_table().lengths.len() {
        let e = res_1_table().lengths[row];
        let mut p = BitPacker::new();
        p.push(e.code, e.length);
        let bytes = p.finish();
        let mut reader = Sv7BitReader::new(&bytes);
        let res = decode_band_resolutions_grounded(set(), &mut reader, 1).unwrap();
        assert_eq!(res.len(), 1);
        let raw = symbol_for_row(res_1_table(), row) as i32;
        assert_eq!(res[0], wrap_res_ref(raw), "res-1 row {row}");
    }
}

#[test]
fn grounded_matches_replicated_spec_walk_for_varied_chains() {
    let chains: &[&[usize]] = &[
        &[0, 0, 0],
        &[0, 1, 2, 3],
        &[5, 0, 7, 1, 0],
        &[10, 10, 10, 10, 10, 10],
        &[0, 11, 0, 11],
    ];
    for chain in chains {
        let (bytes, expected) = replicate_grounded(chain);
        let mut reader = Sv7BitReader::new(&bytes);
        let got = decode_band_resolutions_grounded(set(), &mut reader, chain.len() as u8).unwrap();
        assert_eq!(got, expected, "chain {chain:?}");
    }
}

#[test]
fn grounded_output_is_ascending_band_order() {
    let top_e = res_1_table().lengths[0];
    let top_sym = symbol_for_row(res_1_table(), 0) as i32;
    let top_res = wrap_res_ref(top_sym);
    let ctx_below = res_ctx_for_above_ref(top_res);
    let below_table = if ctx_below == 0 {
        res_1_table()
    } else {
        res_2_table()
    };
    let mut chosen: Option<(usize, i8)> = None;
    for r in 0..below_table.lengths.len() {
        let raw = symbol_for_row(below_table, r) as i32;
        let res = wrap_res_ref(raw + top_res as i32);
        if res != top_res {
            chosen = Some((r, res));
            break;
        }
    }
    let (below_row, below_res) = chosen.expect("a distinct below band exists");
    let mut p = BitPacker::new();
    p.push(top_e.code, top_e.length);
    let be = below_table.lengths[below_row];
    p.push(be.code, be.length);
    let bytes = p.finish();
    let mut reader = Sv7BitReader::new(&bytes);
    let got = decode_band_resolutions_grounded(set(), &mut reader, 2).unwrap();
    assert_eq!(got, vec![below_res, top_res]);
}

fn replicate_stereo(rows: &[[usize; 2]]) -> (Vec<u8>, Vec<[i8; 2]>) {
    let mut p = BitPacker::new();
    let mut top_down: Vec<[i8; 2]> = Vec::new();
    let mut above: [Option<i8>; 2] = [None, None];
    for pair in rows {
        let mut out = [0i8; 2];
        for ch in 0..2 {
            let ctx = match above[ch] {
                None => 0,
                Some(a) => res_ctx_for_above_ref(a),
            };
            let table = if ctx == 0 {
                res_1_table()
            } else {
                res_2_table()
            };
            let e = table.lengths[pair[ch]];
            p.push(e.code, e.length);
            let raw = symbol_for_row(table, pair[ch]) as i32;
            let res = match above[ch] {
                None => wrap_res_ref(raw),
                Some(a) => wrap_res_ref(raw + a as i32),
            };
            out[ch] = res;
            above[ch] = Some(res);
        }
        top_down.push(out);
    }
    let mut ascending = top_down.clone();
    ascending.reverse();
    (p.finish(), ascending)
}

#[test]
fn stereo_grounded_zero_bands_reads_nothing() {
    let mut reader = Sv7BitReader::new(&[0xFF; 4]);
    let before = reader.bits_remaining();
    let res = decode_band_resolutions_stereo_grounded(set(), &mut reader, 0).unwrap();
    assert!(res.is_empty());
    assert_eq!(reader.bits_remaining(), before);
}

#[test]
fn stereo_grounded_matches_replicated_spec_walk() {
    let chains: &[&[[usize; 2]]] = &[
        &[[0, 0]],
        &[[0, 1], [2, 3], [1, 0]],
        &[[5, 0], [7, 1], [0, 5], [3, 3]],
        &[[10, 11], [10, 11], [0, 0], [11, 10], [1, 2]],
    ];
    for chain in chains {
        let (bytes, expected) = replicate_stereo(chain);
        let mut reader = Sv7BitReader::new(&bytes);
        let got =
            decode_band_resolutions_stereo_grounded(set(), &mut reader, chain.len() as u8).unwrap();
        assert_eq!(got, expected, "chain {chain:?}");
    }
}

#[test]
fn stereo_grounded_channels_fold_independent_chains() {
    let (bytes, expected) = replicate_stereo(&[[5, 0], [0, 0]]);
    let mut reader = Sv7BitReader::new(&bytes);
    let got = decode_band_resolutions_stereo_grounded(set(), &mut reader, 2).unwrap();
    assert_eq!(got, expected);
    assert_ne!(got[1][0], got[1][1]);
}

#[test]
fn stereo_grounded_propagates_eof_mid_walk() {
    let e = res_1_table().lengths[0];
    let mut p = BitPacker::new();
    p.push(e.code, e.length);
    p.push(e.code, e.length);
    let mut bytes = p.bytes.clone();
    if p.nbits > 0 {
        bytes.push((p.acc << (8 - p.nbits)) as u8);
    }
    let mut reader = Sv7BitReader::new(&bytes);
    let res = decode_band_resolutions_stereo_grounded(set(), &mut reader, 2);
    assert!(matches!(res, Err(Error::UnexpectedEof)));
}

#[test]
fn grounded_propagates_eof_mid_walk() {
    let table = res_1_table();
    let e = table.lengths[0];
    let mut p = BitPacker::new();
    p.push(e.code, e.length);
    let mut bytes = p.bytes.clone();
    if p.nbits > 0 {
        bytes.push((p.acc << (8 - p.nbits)) as u8);
    }
    let mut reader = Sv7BitReader::new(&bytes);
    let res = decode_band_resolutions_grounded(set(), &mut reader, 2);
    assert!(matches!(res, Err(Error::UnexpectedEof)));
}

fn log_encode(v: u32, max: u32) -> (u16, u8) {
    if max <= 1 {
        return (0, 0);
    }
    let mut bitlen: u8 = 0;
    while (1u32 << bitlen) < max {
        bitlen += 1;
    }
    let lost = (1u32 << bitlen) - max;
    if v < lost {
        let len = bitlen - 1;
        ((v as u16) << (16 - len), len)
    } else {
        let code = v + lost;
        ((code as u16) << (16 - bitlen), bitlen)
    }
}

#[test]
fn log_code_roundtrips_every_value_for_varied_max() {
    for max in 1..=40u32 {
        for v in 0..max {
            let (pat, len) = log_encode(v, max);
            let mut p = BitPacker::new();
            if len > 0 {
                p.push(pat, len);
            }
            let bytes = p.finish();
            let mut reader = Sv7BitReader::new(&bytes);
            let before = reader.bits_remaining();
            let got = decode_log_code(&mut reader, max).unwrap();
            assert_eq!(got, v, "max {max} value {v}");
            let consumed = before - reader.bits_remaining();
            assert!(consumed <= 8, "max {max} v {v}: {consumed} bits");
        }
    }
}

#[test]
fn log_code_max_le_one_reads_nothing() {
    for max in [0u32, 1] {
        let mut reader = Sv7BitReader::new(&[0xFF; 2]);
        let before = reader.bits_remaining();
        assert_eq!(decode_log_code(&mut reader, max).unwrap(), 0);
        assert_eq!(reader.bits_remaining(), before, "max {max}");
    }
}

#[test]
fn log_code_power_of_two_max_is_plain_fixed_width() {
    for v in 0..8u32 {
        let mut p = BitPacker::new();
        p.push((v as u16) << 13, 3);
        let bytes = p.finish();
        let mut reader = Sv7BitReader::new(&bytes);
        assert_eq!(decode_log_code(&mut reader, 8).unwrap(), v);
    }
}

#[test]
fn log_code_propagates_eof() {
    let mut reader = Sv7BitReader::new(&[]);
    assert!(matches!(
        decode_log_code(&mut reader, 32),
        Err(Error::UnexpectedEof),
    ));
}

#[test]
fn keyframe_max_used_band_is_log_code_over_the_count_range() {
    for max_band in [1u8, 5, 16, 31] {
        for v in 0..=max_band as u32 + 1 {
            let (pat, len) = log_encode(v, max_band as u32 + 2);
            let mut p = BitPacker::new();
            if len > 0 {
                p.push(pat, len);
            }
            let bytes = p.finish();
            let mut reader = Sv7BitReader::new(&bytes);
            let got = decode_keyframe_max_used_band(&mut reader, max_band).unwrap();
            assert_eq!(got as u32, v, "max_band {max_band} value {v}");
        }
    }
}

#[test]
fn nonkey_max_used_band_folds_delta_and_wraps_above_32() {
    for row in 0..bands_table().lengths.len() {
        let delta = symbol_for_row(bands_table(), row) as i32;
        for last in [0u8, 10, 32] {
            let mut expected = last as i32 + delta;
            if expected > 32 {
                expected -= 33;
            }
            if !(0..=32).contains(&expected) {
                continue;
            }
            let e = bands_table().lengths[row];
            let mut p = BitPacker::new();
            p.push(e.code, e.length);
            let bytes = p.finish();
            let mut reader = Sv7BitReader::new(&bytes);
            let got = decode_nonkey_max_used_band(set(), &mut reader, last).unwrap();
            assert_eq!(got as i32, expected, "row {row} last {last} delta {delta}");
        }
    }
}

#[test]
fn nonkey_max_used_band_wrap_pins_above_32_to_minus_33() {
    for sum in 33..=64i32 {
        let wrapped = sum - 33;
        assert!((0..=31).contains(&wrapped), "sum {sum}");
    }
    let max_sym = (0..bands_table().lengths.len())
        .map(|r| symbol_for_row(bands_table(), r) as i32)
        .max()
        .unwrap();
    let row = (0..bands_table().lengths.len())
        .find(|&r| symbol_for_row(bands_table(), r) as i32 == max_sym)
        .unwrap();
    let sum = 32 + max_sym;
    if sum > 32 && (0..=32).contains(&(sum - 33)) {
        let e = bands_table().lengths[row];
        let mut p = BitPacker::new();
        p.push(e.code, e.length);
        let bytes = p.finish();
        let mut reader = Sv7BitReader::new(&bytes);
        let got = decode_nonkey_max_used_band(set(), &mut reader, 32).unwrap();
        assert_eq!(got as i32, sum - 33);
    }
}

#[test]
fn keyframe_max_used_band_propagates_eof() {
    let mut reader = Sv7BitReader::new(&[]);
    assert!(matches!(
        decode_keyframe_max_used_band(&mut reader, 31),
        Err(Error::UnexpectedEof),
    ));
}

fn comb(n: u32, k: u32) -> u32 {
    if k > n {
        return 0;
    }
    let k = if k > n - k { n - k } else { k };
    let mut num: u64 = 1;
    for i in 0..k {
        num = num * (n - i) as u64 / (i + 1) as u64;
    }
    num as u32
}

fn pack_enum_subset(p: &mut BitPacker, mask: u32, k: u32, n: u32) {
    let mut rank: u32 = 0;
    let mut kk = k;
    for m in (0..n).rev() {
        if kk == 0 {
            break;
        }
        if mask & (1 << m) != 0 {
            rank += comb(m, kk);
            kk -= 1;
        }
    }
    let total = comb(n, k);
    if total <= 1 {
        return;
    }
    let mut bitlen: u8 = 0;
    while (1u32 << bitlen) < total {
        bitlen += 1;
    }
    let lost = (1u32 << bitlen) - total;
    if rank < lost {
        p.push((rank as u16) << (16 - (bitlen - 1)), bitlen - 1);
    } else {
        let code = rank + lost;
        p.push((code as u16) << (16 - bitlen), bitlen);
    }
}

fn pack_ms_flags(flags: &[bool]) -> Vec<u8> {
    let n = flags.len() as u32;
    let mut p = BitPacker::new();
    let mut mask: u32 = 0;
    for (i, &f) in flags.iter().enumerate() {
        if f {
            mask |= 1 << (n - 1 - i as u32);
        }
    }
    let cnt = mask.count_ones();
    let (pat, len) = log_encode(cnt, n + 1);
    if len > 0 {
        p.push(pat, len);
    }
    if cnt != 0 && cnt != n {
        let k = cnt.min(n - cnt);
        let coded_mask = if cnt > n / 2 {
            (!mask) & ((1u32 << n) - 1)
        } else {
            mask
        };
        pack_enum_subset(&mut p, coded_mask, k, n);
    }
    p.finish()
}

#[test]
fn ms_flags_zero_tot_reads_nothing() {
    let mut reader = Sv7BitReader::new(&[0xFF; 4]);
    let before = reader.bits_remaining();
    assert!(decode_sv8_ms_flags(&mut reader, 0).unwrap().is_empty());
    assert_eq!(reader.bits_remaining(), before);
}

#[test]
fn ms_flags_roundtrip_exhaustive_for_small_tot() {
    for tot in 1u8..=12 {
        for bits in 0u32..(1u32 << tot) {
            let flags: Vec<bool> = (0..tot).map(|i| bits & (1 << (tot - 1 - i)) != 0).collect();
            let bytes = pack_ms_flags(&flags);
            let mut reader = Sv7BitReader::new(&bytes);
            let got = decode_sv8_ms_flags(&mut reader, tot).unwrap();
            assert_eq!(got, flags, "tot {tot} pattern {bits:#b}");
        }
    }
}

#[test]
fn ms_flags_all_set_and_none_set_read_only_the_count() {
    let mut flags = vec![false; 6];
    flags[0] = true;
    let bytes = pack_ms_flags(&flags);
    let mut reader = Sv7BitReader::new(&bytes);
    let got = decode_sv8_ms_flags(&mut reader, 6).unwrap();
    assert_eq!(got, flags);
    assert!(got[0] && got[1..].iter().all(|&b| !b));
}

#[test]
fn ms_flags_ascending_ordering_is_observable() {
    let mut flags = vec![false; 5];
    flags[4] = true;
    let bytes = pack_ms_flags(&flags);
    let mut reader = Sv7BitReader::new(&bytes);
    let got = decode_sv8_ms_flags(&mut reader, 5).unwrap();
    assert_eq!(got, flags);
    assert!(got[4] && got[..4].iter().all(|&b| !b));
}

#[test]
fn ms_flags_propagates_eof() {
    let mut reader = Sv7BitReader::new(&[]);
    assert!(matches!(
        decode_sv8_ms_flags(&mut reader, 8),
        Err(Error::UnexpectedEof),
    ));
}
