//! The band arms.

#![allow(dead_code)]

use oxideav_musepack::bit_reader::Sv7BitReader;
use oxideav_musepack::cns::{CnsPrng, SAMPLES_PER_BAND};
use oxideav_musepack::error::Error;
use oxideav_musepack::sv7_band_decode::{BandDecodeCase, band_type_case};
use oxideav_musepack::sv8_band_decode::{
    Sv8BandDecodeCase, case_emits_samples, case_uses_first_order_context, decode_sv8_band,
    sv8_band_type_case,
};
use oxideav_musepack::sv8_huffman::{
    Sv8CanonicalEntry, Sv8CanonicalTable, Sv8TableRole, Sv8TableSet, table_for_role,
};
use oxideav_musepack::sv8_sample_decode::{
    GROUPED3_CODEWORDS_PER_BAND, decode_sv8_context_band, decode_sv8_grouped3_band,
};

/// A complete code: `shape` says how many of the symbols, in their order, have code words of
/// each length.
fn code(name: &'static str, shape: &[(u8, u32)], symbols: Vec<i8>) -> Sv8CanonicalTable {
    let mut rows = Vec::new();
    let mut bottom = 0x1_0000_u32;
    let mut index = 0_u32;
    for &(length, count) in shape {
        let step = 1_u32 << (16 - length);
        let top = bottom / step;
        bottom -= count * step;
        rows.push(Sv8CanonicalEntry {
            code: bottom as u16,
            length,
            cum_index: (index + top - 1) as i16,
        });
        index += count;
    }
    Sv8CanonicalTable { lengths: rows.leak(), symbols: symbols.leak(), name }
}

fn pairs(bound: i8) -> Vec<i8> {
    let mut out = Vec::new();
    for hi in -bound..=bound {
        for lo in -bound..=bound {
            out.push((hi << 4) | (lo & 15));
        }
    }
    out
}

fn triples() -> Vec<i8> {
    let mut out: Vec<i8> = vec![62];
    out.extend((0..125_i8).filter(|&s| s != 62));
    out
}

fn levels(bound: i8) -> Vec<i8> {
    let mut out = vec![0];
    for l in 1..=bound {
        out.push(l);
        out.push(-l);
    }
    out
}

fn set() -> &'static Sv8TableSet {
    Box::leak(Box::new(Sv8TableSet {
        bands: code(
            "sv8-canonical-bands",
            &[(1, 1), (3, 1), (4, 1), (5, 1), (6, 13), (7, 9), (8, 1), (9, 1), (10, 1), (11, 1), (12, 1), (13, 2)],
            (0..33).collect(),
        ),
        res: [
            code(
                "sv8-canonical-res-1",
                &[
                    (1, 1), (2, 1), (3, 1), (4, 1), (5, 1), (6, 1), (7, 1), (8, 1), (9, 1), (10, 1), (11, 1),
                    (12, 1), (13, 1), (14, 1), (15, 1), (16, 2),
                ],
                (0..17).collect(),
            ),
            code(
                "sv8-canonical-res-2",
                &[(1, 1), (3, 1), (4, 5), (5, 1), (6, 1), (7, 1), (8, 1), (9, 1), (10, 1), (11, 1), (12, 1), (13, 2)],
                (0..17).collect(),
            ),
        ],
        scfi: [
            code("sv8-canonical-scfi-1", &[(1, 1), (2, 1), (3, 2)], (0..4).collect()),
            code(
                "sv8-canonical-scfi-2",
                &[(1, 1), (3, 1), (4, 1), (5, 7), (6, 6)],
                (0..16).collect(),
            ),
        ],
        dscf: [
            code(
                "sv8-canonical-dscf-1",
                &[(1, 1), (3, 1), (4, 1), (5, 1), (6, 1), (7, 14), (8, 39), (9, 1), (10, 1), (11, 1), (12, 1), (13, 2)],
                (0..64).collect(),
            ),
            code(
                "sv8-canonical-dscf-2",
                &[
                    (1, 1), (3, 1), (4, 1), (5, 1), (6, 1), (7, 14), (8, 39), (9, 1), (10, 1), (11, 1), (12, 1),
                    (13, 1), (14, 2),
                ],
                (0..65).collect(),
            ),
        ],
        q1: code(
            "sv8-canonical-q1",
            &[(3, 5), (4, 5), (5, 1), (6, 1), (7, 1), (8, 1), (9, 1), (10, 1), (11, 1), (12, 2)],
            (0..19).collect(),
        ),
        q2: [
            code(
                "sv8-canonical-q2-1",
                &[(1, 1), (3, 1), (4, 1), (5, 1), (6, 1), (7, 1), (8, 15), (9, 101), (10, 1), (11, 2)],
                triples(),
            ),
            code(
                "sv8-canonical-q2-2",
                &[(1, 1), (3, 1), (4, 1), (5, 1), (6, 1), (7, 1), (8, 14), (9, 103), (10, 2)],
                triples(),
            ),
        ],
        q3: code(
            "sv8-canonical-q3",
            &[(1, 1), (3, 1), (4, 1), (5, 1), (6, 1), (7, 24), (8, 20)],
            pairs(3),
        ),
        q4: code(
            "sv8-canonical-q4",
            &[(3, 1), (5, 1), (6, 32), (7, 43), (8, 1), (9, 1), (10, 2)],
            pairs(4),
        ),
        q5: [
            code("sv8-canonical-q5-1", &[(1, 1), (3, 1), (4, 1), (5, 9), (6, 1), (7, 2)], levels(7)),
            code("sv8-canonical-q5-2", &[(1, 1), (4, 3), (5, 9), (6, 2)], levels(7)),
        ],
        q6: [
            code(
                "sv8-canonical-q6-1",
                &[(1, 1), (3, 1), (4, 1), (5, 1), (6, 11), (7, 13), (8, 1), (9, 2)],
                levels(15),
            ),
            code("sv8-canonical-q6-2", &[(1, 1), (4, 1), (5, 1), (6, 24), (7, 4)], levels(15)),
        ],
        q7: [
            code(
                "sv8-canonical-q7-1",
                &[(1, 1), (3, 1), (4, 1), (5, 1), (6, 1), (7, 12), (8, 43), (9, 1), (10, 2)],
                levels(31),
            ),
            code("sv8-canonical-q7-2", &[(1, 1), (5, 1), (6, 1), (7, 56), (8, 4)], levels(31)),
        ],
        q8: [
            code(
                "sv8-canonical-q8-1",
                &[(1, 1), (3, 1), (4, 1), (5, 1), (6, 1), (7, 1), (8, 14), (9, 103), (10, 1), (11, 1), (12, 2)],
                levels(63),
            ),
            code("sv8-canonical-q8-2", &[(1, 1), (7, 3), (8, 121), (9, 2)], levels(63)),
        ],
        q9up: code(
            "sv8-canonical-q9up",
            &[(1, 1), (6, 1), (7, 1), (8, 1), (9, 232), (10, 20)],
            (i8::MIN..=i8::MAX).collect(),
        ),
    }))
}

fn q9up_table() -> &'static Sv8CanonicalTable {
    &set().q9up
}

fn q2_1_table() -> &'static Sv8CanonicalTable {
    &set().q2[0]
}

#[test]
fn classifier_routes_negative_one_to_cns() {
    assert_eq!(sv8_band_type_case(-1), Sv8BandDecodeCase::Cns);
}

#[test]
fn classifier_routes_zero_to_empty() {
    assert_eq!(sv8_band_type_case(0), Sv8BandDecodeCase::Empty);
}

#[test]
fn classifier_routes_one_to_sparse_band() {
    assert_eq!(sv8_band_type_case(1), Sv8BandDecodeCase::SparseBand);
}

#[test]
fn classifier_routes_two_to_grouped_three() {
    assert_eq!(sv8_band_type_case(2), Sv8BandDecodeCase::Grouped3);
}

#[test]
fn classifier_routes_three_and_four_to_grouped_two() {
    assert_eq!(sv8_band_type_case(3), Sv8BandDecodeCase::Grouped2);
    assert_eq!(sv8_band_type_case(4), Sv8BandDecodeCase::Grouped2);
}

#[test]
fn classifier_routes_five_through_eight_to_context_huffman() {
    for bt in 5..=8 {
        assert_eq!(
            sv8_band_type_case(bt),
            Sv8BandDecodeCase::ContextHuffmanPerSample,
            "band_type {bt} should route to ContextHuffmanPerSample",
        );
    }
}

#[test]
fn classifier_routes_nine_and_above_to_large_coeff_escape() {
    for bt in 9..=64 {
        assert_eq!(
            sv8_band_type_case(bt),
            Sv8BandDecodeCase::LargeCoeffEscape,
            "band_type {bt} should route to LargeCoeffEscape",
        );
    }
    assert_eq!(
        sv8_band_type_case(i8::MAX),
        Sv8BandDecodeCase::LargeCoeffEscape,
    );
}

#[test]
fn classifier_routes_below_negative_one_to_out_of_range() {
    for bt in [-2i8, -10, -100, i8::MIN] {
        assert_eq!(
            sv8_band_type_case(bt),
            Sv8BandDecodeCase::OutOfRange,
            "band_type {bt} should route to OutOfRange",
        );
    }
}

#[test]
fn classifier_total_coverage_over_full_i8_range() {
    for bt in i8::MIN..=i8::MAX {
        let case = sv8_band_type_case(bt);
        let _ = case;
    }
}

#[test]
fn case_emits_samples_distinguishes_empty_and_out_of_range() {
    assert!(!case_emits_samples(Sv8BandDecodeCase::Empty));
    assert!(!case_emits_samples(Sv8BandDecodeCase::OutOfRange));
    for case in [
        Sv8BandDecodeCase::Cns,
        Sv8BandDecodeCase::SparseBand,
        Sv8BandDecodeCase::Grouped3,
        Sv8BandDecodeCase::Grouped2,
        Sv8BandDecodeCase::ContextHuffmanPerSample,
        Sv8BandDecodeCase::LargeCoeffEscape,
    ] {
        assert!(
            case_emits_samples(case),
            "case {case:?} should emit samples",
        );
    }
}

#[test]
fn case_uses_first_order_context_isolates_sv8_specific_path() {
    assert!(case_uses_first_order_context(
        Sv8BandDecodeCase::ContextHuffmanPerSample
    ));
    for case in [
        Sv8BandDecodeCase::Cns,
        Sv8BandDecodeCase::Empty,
        Sv8BandDecodeCase::SparseBand,
        Sv8BandDecodeCase::Grouped3,
        Sv8BandDecodeCase::Grouped2,
        Sv8BandDecodeCase::LargeCoeffEscape,
        Sv8BandDecodeCase::OutOfRange,
    ] {
        assert!(
            !case_uses_first_order_context(case),
            "case {case:?} should report first-order-context = false",
        );
    }
}

#[test]
fn case_uses_first_order_context_matches_band_type_range_five_to_eight() {
    for bt in 5..=8 {
        assert!(
            case_uses_first_order_context(sv8_band_type_case(bt)),
            "band_type {bt} should route through the first-order context arm",
        );
    }
    for bt in [-1i8, 0, 1, 2, 3, 4, 9, 10, 16, 17, 64, i8::MAX, i8::MIN] {
        assert!(
            !case_uses_first_order_context(sv8_band_type_case(bt)),
            "band_type {bt} should not route through the first-order context arm",
        );
    }
}

#[test]
fn classifier_is_const_callable() {
    let case_neg_one = sv8_band_type_case(-1);
    let case_zero = sv8_band_type_case(0);
    let case_one = sv8_band_type_case(1);
    let case_five = sv8_band_type_case(5);
    let case_nine = sv8_band_type_case(9);
    assert_eq!(case_neg_one, Sv8BandDecodeCase::Cns);
    assert_eq!(case_zero, Sv8BandDecodeCase::Empty);
    assert_eq!(case_one, Sv8BandDecodeCase::SparseBand);
    assert_eq!(case_five, Sv8BandDecodeCase::ContextHuffmanPerSample);
    assert_eq!(case_nine, Sv8BandDecodeCase::LargeCoeffEscape);
}

#[test]
fn classifier_disagrees_with_sv7_sibling_on_grouped_case_indices() {
    assert_eq!(band_type_case(1), BandDecodeCase::Grouped3);
    assert_eq!(sv8_band_type_case(1), Sv8BandDecodeCase::SparseBand);
    assert_eq!(band_type_case(2), BandDecodeCase::Grouped2);
    assert_eq!(sv8_band_type_case(2), Sv8BandDecodeCase::Grouped3);
    assert_eq!(band_type_case(3), BandDecodeCase::HuffmanPerSample);
    assert_eq!(sv8_band_type_case(3), Sv8BandDecodeCase::Grouped2);
    assert_eq!(band_type_case(5), BandDecodeCase::HuffmanPerSample);
    assert_eq!(
        sv8_band_type_case(5),
        Sv8BandDecodeCase::ContextHuffmanPerSample,
    );
}

#[test]
fn classifier_agrees_with_sv7_sibling_on_shared_cns_and_empty_arms() {
    assert_eq!(band_type_case(-1), BandDecodeCase::Cns);
    assert_eq!(sv8_band_type_case(-1), Sv8BandDecodeCase::Cns);
    assert_eq!(band_type_case(0), BandDecodeCase::Empty);
    assert_eq!(sv8_band_type_case(0), Sv8BandDecodeCase::Empty);
}

#[test]
fn enum_supports_copy_eq_and_debug() {
    let a = Sv8BandDecodeCase::Cns;
    let b = a;
    assert_eq!(a, b);
    let _printed = format!("{a:?}");
}

struct BitPacker {
    bytes: Vec<u8>,
    acc: u32,
    nbits: u8,
}

impl BitPacker {
    fn new() -> Self {
        BitPacker {
            bytes: Vec::new(),
            acc: 0,
            nbits: 0,
        }
    }
    fn push(&mut self, pattern: u16, length: u8) {
        for i in 0..length {
            let bit = (pattern >> (15 - i)) & 1;
            self.acc = (self.acc << 1) | bit as u32;
            self.nbits += 1;
            if self.nbits == 8 {
                self.bytes.push(self.acc as u8);
                self.acc = 0;
                self.nbits = 0;
            }
        }
    }
    fn push_raw(&mut self, value: u32, length: u8) {
        for i in (0..length).rev() {
            let bit = (value >> i) & 1;
            self.acc = (self.acc << 1) | bit;
            self.nbits += 1;
            if self.nbits == 8 {
                self.bytes.push(self.acc as u8);
                self.acc = 0;
                self.nbits = 0;
            }
        }
    }
    fn finish(mut self) -> Vec<u8> {
        if self.nbits > 0 {
            self.bytes.push((self.acc << (8 - self.nbits)) as u8);
        }
        self.bytes.push(0);
        self.bytes.push(0);
        self.bytes
    }
}

fn first_row(table: &Sv8CanonicalTable) -> (u16, u8) {
    let e = table.lengths[0];
    (e.code, e.length)
}

fn symbol_of_first_row(table: &Sv8CanonicalTable) -> i8 {
    let (code, len) = first_row(table);
    let mut p = BitPacker::new();
    p.push(code, len);
    let bytes = p.finish();
    let mut reader = Sv7BitReader::new(&bytes);
    table.decode(&mut reader).expect("single-codeword decode")
}

fn no_ctx(_prev: i8) -> u8 {
    0
}

#[test]
fn dispatch_cns_matches_direct_prng_walk_and_advances_prng() {
    let mut via_dispatch = [0_i32; SAMPLES_PER_BAND];
    let mut prng_a = CnsPrng::new();
    let mut reader = Sv7BitReader::new(&[0u8; 4]);
    decode_sv8_band(set(), &mut reader,
        -1,
        &mut prng_a,
        0,
        0,
        no_ctx,
        &mut via_dispatch,
    )
    .expect("cns dispatch");
    let mut via_direct = [0_i32; SAMPLES_PER_BAND];
    let mut prng_b = CnsPrng::new();
    prng_b.fill_samples(&mut via_direct);
    assert_eq!(via_dispatch, via_direct);
    assert_eq!(prng_a.state(), prng_b.state());
}

#[test]
fn dispatch_empty_zeroes_band_and_reads_no_bits() {
    let mut out = [42_i32; SAMPLES_PER_BAND];
    let mut prng = CnsPrng::new();
    let bytes = [0xFFu8; 4];
    let mut reader = Sv7BitReader::new(&bytes);
    let before = reader.bits_remaining();
    decode_sv8_band(set(), &mut reader, 0, &mut prng, 0, 0, no_ctx, &mut out).expect("empty dispatch");
    assert!(out.iter().all(|&s| s == 0));
    assert_eq!(reader.bits_remaining(), before, "empty band reads no bits");
}

#[test]
fn dispatch_grouped3_routes_to_case_two_and_widens_to_i32() {
    let (code, len) = first_row(q2_1_table());
    let mut p = BitPacker::new();
    for _ in 0..GROUPED3_CODEWORDS_PER_BAND {
        p.push(code, len);
    }
    let bytes = p.finish();
    let mut direct = [7_i8; SAMPLES_PER_BAND];
    {
        let mut reader = Sv7BitReader::new(&bytes);
        decode_sv8_grouped3_band(set(), &mut reader, 0, &mut direct)
            .expect("direct grouped3");
    }
    let mut out = [0_i32; SAMPLES_PER_BAND];
    let mut prng = CnsPrng::new();
    let mut reader = Sv7BitReader::new(&bytes);
    decode_sv8_band(set(), &mut reader, 2, &mut prng, 0, 0, no_ctx, &mut out)
        .expect("grouped3 dispatch");
    for (i, (&d, &o)) in direct.iter().zip(out.iter()).enumerate() {
        assert_eq!(o, d as i32, "sample {i} must match widened direct arm");
    }
}

#[test]
fn dispatch_context_routes_to_case_five_through_eight() {
    let table = table_for_role(set(), Sv8TableRole::Q5, 0).expect("q5 ctx0");
    let (code, len) = first_row(table);
    let mut p = BitPacker::new();
    for _ in 0..SAMPLES_PER_BAND {
        p.push(code, len);
    }
    let bytes = p.finish();
    let mut direct = [0_i8; SAMPLES_PER_BAND];
    {
        let mut reader = Sv7BitReader::new(&bytes);
        decode_sv8_context_band(set(), &mut reader,
            5,
            0,
            |_prev| 0,
            &mut direct,
        )
        .expect("direct context");
    }
    let mut out = [0_i32; SAMPLES_PER_BAND];
    let mut prng = CnsPrng::new();
    let mut reader = Sv7BitReader::new(&bytes);
    decode_sv8_band(set(), &mut reader, 5, &mut prng, 0, 0, |_prev| 0, &mut out)
        .expect("context dispatch");
    for (i, (&d, &o)) in direct.iter().zip(out.iter()).enumerate() {
        assert_eq!(o, d as i32, "sample {i} must match widened direct arm");
    }
}

#[test]
fn dispatch_escape_routes_to_default_arm_native_i32() {
    let sym = symbol_of_first_row(q9up_table()) as i32;
    let (code, len) = first_row(q9up_table());
    let mut p = BitPacker::new();
    for _ in 0..SAMPLES_PER_BAND {
        p.push(code, len);
    }
    let bytes = p.finish();
    let mut out = [0_i32; SAMPLES_PER_BAND];
    let mut prng = CnsPrng::new();
    let mut reader = Sv7BitReader::new(&bytes);
    decode_sv8_band(set(), &mut reader, 9, &mut prng, 0, 0, no_ctx, &mut out)
        .expect("escape dispatch");
    for (i, &s) in out.iter().enumerate() {
        assert_eq!(s, sym, "escape sample {i} (band_type 9, 0 raw bits)");
    }
}

#[test]
fn dispatch_escape_band_type_ten_composes_vlc_and_one_raw_bit() {
    let sym = symbol_of_first_row(q9up_table()) as i32;
    let (code, len) = first_row(q9up_table());
    let mut p = BitPacker::new();
    for _ in 0..SAMPLES_PER_BAND {
        p.push(code, len);
        p.push_raw(1, 1);
    }
    let bytes = p.finish();
    let mut out = [0_i32; SAMPLES_PER_BAND];
    let mut prng = CnsPrng::new();
    let mut reader = Sv7BitReader::new(&bytes);
    decode_sv8_band(set(), &mut reader, 10, &mut prng, 0, 0, no_ctx, &mut out)
        .expect("escape dispatch bt10");
    for (i, &s) in out.iter().enumerate() {
        assert_eq!(s, (sym << 1) | 1, "escape sample {i} (band_type 10)");
    }
}

#[test]
fn dispatch_sparse_band_fails_loud_docs_gap() {
    let mut out = [0_i32; SAMPLES_PER_BAND];
    let mut prng = CnsPrng::new();
    let bytes = [0u8; 8];
    let mut reader = Sv7BitReader::new(&bytes);
    let err = decode_sv8_band(set(), &mut reader, 1, &mut prng, 0, 0, no_ctx, &mut out).unwrap_err();
    assert!(matches!(err, Error::UnsupportedBandType(1)));
}

#[test]
fn dispatch_out_of_range_fails_loud() {
    let mut out = [0_i32; SAMPLES_PER_BAND];
    let mut prng = CnsPrng::new();
    let bytes = [0u8; 4];
    for bt in [-2i8, -10, i8::MIN] {
        let mut reader = Sv7BitReader::new(&bytes);
        let err =
            decode_sv8_band(set(), &mut reader, bt, &mut prng, 0, 0, no_ctx, &mut out).unwrap_err();
        assert!(
            matches!(err, Error::UnsupportedBandType(b) if b == bt),
            "band_type {bt} must fail loud",
        );
    }
}

#[test]
fn dispatch_grouped_ctx_knob_selects_case_two_table_half() {
    let mut prng = CnsPrng::new();
    for ctx in [0u8, 1u8] {
        let table =
            table_for_role(set(), Sv8TableRole::Q2, ctx)
                .expect("q2 table half");
        let (code, len) = first_row(table);
        let mut p = BitPacker::new();
        for _ in 0..GROUPED3_CODEWORDS_PER_BAND {
            p.push(code, len);
        }
        let bytes = p.finish();
        let mut direct = [0_i8; SAMPLES_PER_BAND];
        {
            let mut reader = Sv7BitReader::new(&bytes);
            decode_sv8_grouped3_band(set(), &mut reader, ctx, &mut direct)
                .expect("direct grouped3");
        }
        let mut out = [0_i32; SAMPLES_PER_BAND];
        let mut reader = Sv7BitReader::new(&bytes);
        decode_sv8_band(set(), &mut reader, 2, &mut prng, ctx, 0, no_ctx, &mut out)
            .expect("grouped3 dispatch with ctx knob");
        for (&d, &o) in direct.iter().zip(out.iter()) {
            assert_eq!(o, d as i32);
        }
    }
}
