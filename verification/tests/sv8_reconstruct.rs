//! From levels to scaled rows.

#![allow(dead_code)]

use oxideav_musepack::bit_reader::Sv7BitReader;
use oxideav_musepack::cns::{CnsPrng, SAMPLES_PER_BAND};
use oxideav_musepack::error::Error;
use oxideav_musepack::sv8_dscf_loop::SCF_GRANULES_PER_BAND;
use oxideav_musepack::sv8_frame_decode::{
    SV7_SUBBAND_COUNT, Sv8BandDecode, decode_sv8_frame_channel,
};
use oxideav_musepack::sv8_huffman::{Sv8CanonicalEntry, Sv8CanonicalTable, Sv8TableSet};
use oxideav_musepack::sv8_quantize::quantizer_offset;
use oxideav_musepack::sv8_reconstruct::{
    ScaledBand, decode_and_reconstruct_sv8_channel, reconstruct_sv8_band,
    reconstruct_sv8_frame_channel,
};

/// A complete code: `shape` says how many of the symbols, in their order, have code words of
/// each length.
fn code(name: &'static str, shape: &[(u8, u32)], symbols: Vec<i8>) -> Sv8CanonicalTable {
    let mut rows = Vec::new();
    let mut bottom = 0x1_0000_u32;
    let mut index = 0_u32;
    for &(length, count) in shape {
        let step = 1_u32 << (16 - length);
        let top = bottom / step;
        bottom -= count * step;
        rows.push(Sv8CanonicalEntry {
            code: bottom as u16,
            length,
            cum_index: (index + top - 1) as i16,
        });
        index += count;
    }
    Sv8CanonicalTable { lengths: rows.leak(), symbols: symbols.leak(), name }
}

fn pairs(bound: i8) -> Vec<i8> {
    let mut out = Vec::new();
    for hi in -bound..=bound {
        for lo in -bound..=bound {
            out.push((hi << 4) | (lo & 15));
        }
    }
    out
}

fn triples() -> Vec<i8> {
    let mut out: Vec<i8> = vec![62];
    out.extend((0..125_i8).filter(|&s| s != 62));
    out
}

fn levels(bound: i8) -> Vec<i8> {
    let mut out = vec![0];
    for l in 1..=bound {
        out.push(l);
        out.push(-l);
    }
    out
}

fn set() -> &'static Sv8TableSet {
    Box::leak(Box::new(Sv8TableSet {
        bands: code(
            "sv8-canonical-bands",
            &[(1, 1), (3, 1), (4, 1), (5, 1), (6, 13), (7, 9), (8, 1), (9, 1), (10, 1), (11, 1), (12, 1), (13, 2)],
            (0..33).collect(),
        ),
        res: [
            code(
                "sv8-canonical-res-1",
                &[
                    (1, 1), (2, 1), (3, 1), (4, 1), (5, 1), (6, 1), (7, 1), (8, 1), (9, 1), (10, 1), (11, 1),
                    (12, 1), (13, 1), (14, 1), (15, 1), (16, 2),
                ],
                (0..17).collect(),
            ),
            code(
                "sv8-canonical-res-2",
                &[(1, 1), (3, 1), (4, 5), (5, 1), (6, 1), (7, 1), (8, 1), (9, 1), (10, 1), (11, 1), (12, 1), (13, 2)],
                (0..17).collect(),
            ),
        ],
        scfi: [
            code("sv8-canonical-scfi-1", &[(1, 1), (2, 1), (3, 2)], (0..4).collect()),
            code(
                "sv8-canonical-scfi-2",
                &[(1, 1), (3, 1), (4, 1), (5, 7), (6, 6)],
                (0..16).collect(),
            ),
        ],
        dscf: [
            code(
                "sv8-canonical-dscf-1",
                &[(1, 1), (3, 1), (4, 1), (5, 1), (6, 1), (7, 14), (8, 39), (9, 1), (10, 1), (11, 1), (12, 1), (13, 2)],
                (0..64).collect(),
            ),
            code(
                "sv8-canonical-dscf-2",
                &[
                    (1, 1), (3, 1), (4, 1), (5, 1), (6, 1), (7, 14), (8, 39), (9, 1), (10, 1), (11, 1), (12, 1),
                    (13, 1), (14, 2),
                ],
                (0..65).collect(),
            ),
        ],
        q1: code(
            "sv8-canonical-q1",
            &[(3, 5), (4, 5), (5, 1), (6, 1), (7, 1), (8, 1), (9, 1), (10, 1), (11, 1), (12, 2)],
            (0..19).collect(),
        ),
        q2: [
            code(
                "sv8-canonical-q2-1",
                &[(1, 1), (3, 1), (4, 1), (5, 1), (6, 1), (7, 1), (8, 15), (9, 101), (10, 1), (11, 2)],
                triples(),
            ),
            code(
                "sv8-canonical-q2-2",
                &[(1, 1), (3, 1), (4, 1), (5, 1), (6, 1), (7, 1), (8, 14), (9, 103), (10, 2)],
                triples(),
            ),
        ],
        q3: code(
            "sv8-canonical-q3",
            &[(1, 1), (3, 1), (4, 1), (5, 1), (6, 1), (7, 24), (8, 20)],
            pairs(3),
        ),
        q4: code(
            "sv8-canonical-q4",
            &[(3, 1), (5, 1), (6, 32), (7, 43), (8, 1), (9, 1), (10, 2)],
            pairs(4),
        ),
        q5: [
            code("sv8-canonical-q5-1", &[(1, 1), (3, 1), (4, 1), (5, 9), (6, 1), (7, 2)], levels(7)),
            code("sv8-canonical-q5-2", &[(1, 1), (4, 3), (5, 9), (6, 2)], levels(7)),
        ],
        q6: [
            code(
                "sv8-canonical-q6-1",
                &[(1, 1), (3, 1), (4, 1), (5, 1), (6, 11), (7, 13), (8, 1), (9, 2)],
                levels(15),
            ),
            code("sv8-canonical-q6-2", &[(1, 1), (4, 1), (5, 1), (6, 24), (7, 4)], levels(15)),
        ],
        q7: [
            code(
                "sv8-canonical-q7-1",
                &[(1, 1), (3, 1), (4, 1), (5, 1), (6, 1), (7, 12), (8, 43), (9, 1), (10, 2)],
                levels(31),
            ),
            code("sv8-canonical-q7-2", &[(1, 1), (5, 1), (6, 1), (7, 56), (8, 4)], levels(31)),
        ],
        q8: [
            code(
                "sv8-canonical-q8-1",
                &[(1, 1), (3, 1), (4, 1), (5, 1), (6, 1), (7, 1), (8, 14), (9, 103), (10, 1), (11, 1), (12, 2)],
                levels(63),
            ),
            code("sv8-canonical-q8-2", &[(1, 1), (7, 3), (8, 121), (9, 2)], levels(63)),
        ],
        q9up: code(
            "sv8-canonical-q9up",
            &[(1, 1), (6, 1), (7, 1), (8, 1), (9, 232), (10, 20)],
            (i8::MIN..=i8::MAX).collect(),
        ),
    }))
}

fn res_1_table() -> &'static Sv8CanonicalTable {
    &set().res[0]
}

/// The step between two scalefactors.
const STEP: f64 = 0.832_980_664_765_826_7;

/// Sample `k` of a row, a full scale being one.
fn sample(row: &ScaledBand, k: usize) -> f64 {
    let d = quantizer_offset(row.coefficient as i8 - 1).unwrap();
    f64::from(row.levels[k]) / f64::from(2 * d + 1) * STEP.powi(row.steps[k / 12] as i32)
}

fn assert_silent(rows: &[ScaledBand]) {
    assert_eq!(rows.len(), 32);
    assert!(rows.iter().all(|row| row.levels.iter().all(|&l| l == 0)));
}

fn band(
    subband: usize,
    band_type: i8,
    granule_scf: [i32; SCF_GRANULES_PER_BAND],
    levels: [i32; SAMPLES_PER_BAND],
) -> Sv8BandDecode {
    Sv8BandDecode {
        subband,
        band_type,
        granule_scf,
        levels,
    }
}

#[test]
fn empty_band_list_reconstructs_to_silence() {
    let m = reconstruct_sv8_frame_channel(&[], 0).unwrap();
    assert_silent(&m);
}

#[test]
fn empty_band_type_is_silent_row() {
    let m = reconstruct_sv8_frame_channel(&[band(5, 0, [0, 0, 0], [123; SAMPLES_PER_BAND])], 0)
        .unwrap();
    assert!(m[5].levels.iter().all(|&l| l == 0));
    assert_silent(&m);
}

#[test]
fn uncoded_subbands_stay_zero() {
    let mut levels = [0i32; SAMPLES_PER_BAND];
    for (i, s) in levels.iter_mut().enumerate() {
        *s = (i as i32 % 7) - 3;
    }
    let m = reconstruct_sv8_frame_channel(&[band(7, 5, [0, 0, 0], levels)], 0).unwrap();
    for (b, row) in m.iter().enumerate() {
        if b != 7 {
            assert!(row.levels.iter().all(|&l| l == 0));
        }
    }
}

#[test]
fn coded_band_dequantises_already_centred_levels_directly() {
    let levels = [3i32; SAMPLES_PER_BAND];
    let m = reconstruct_sv8_frame_channel(&[band(2, 5, [0, 0, 0], levels)], 0).unwrap();
    assert_eq!(m[2].levels, levels);
    assert_eq!(m[2].steps, [0, 0, 0]);
    assert_eq!(m[2].coefficient, 6);
    let c = 65536.0 / 15.0;
    assert!((sample(&m[2], 0) - 3.0 * c / 65536.0).abs() < 1e-9);
}

#[test]
fn signed_negative_scf_indices_scale_each_granule() {
    let levels = [1i32; SAMPLES_PER_BAND];
    let m = reconstruct_sv8_frame_channel(&[band(0, 3, [-6, -5, -4], levels)], -6).unwrap();
    let base = 1.0 / 7.0;
    assert!((sample(&m[0], 0) - base).abs() < 1e-9);
    assert!((sample(&m[0], 12) - base * STEP).abs() < 1e-9);
    assert!((sample(&m[0], 24) - base * STEP * STEP).abs() < 1e-9);
    assert!(sample(&m[0], 0).abs() > sample(&m[0], 12).abs());
    assert!(sample(&m[0], 12).abs() > sample(&m[0], 24).abs());
}

#[test]
fn cns_band_uses_cns_dequant_and_lands_in_its_row() {
    let levels = [100i32; SAMPLES_PER_BAND];
    let m = reconstruct_sv8_frame_channel(&[band(3, -1, [0, 0, 0], levels)], 0).unwrap();
    assert_eq!(m[3].coefficient, 0);
    assert_eq!(m[3].levels, levels);
    for (b, row) in m.iter().enumerate() {
        if b != 3 {
            assert!(row.levels.iter().all(|&l| l == 0));
        }
    }
}

#[test]
fn multiple_bands_land_in_their_own_rows() {
    let l3 = [1i32; SAMPLES_PER_BAND];
    let l4 = [-1i32; SAMPLES_PER_BAND];
    let m = reconstruct_sv8_frame_channel(
        &[band(0, 3, [0, 0, 0], l3), band(31, 4, [0, 0, 0], l4)],
        0,
    )
    .unwrap();
    assert_eq!((m[0].coefficient, m[0].levels), (4, l3));
    assert_eq!((m[31].coefficient, m[31].levels), (5, l4));
    assert!(sample(&m[0], 0) > 0.0);
    assert!(sample(&m[31], 0) < 0.0);
}

#[test]
fn rejects_subband_out_of_range() {
    let r = reconstruct_sv8_frame_channel(
        &[band(SV7_SUBBAND_COUNT, 3, [0, 0, 0], [0; SAMPLES_PER_BAND])],
        0,
    );
    assert_eq!(r, Err(Error::MaxBandOutOfRange(SV7_SUBBAND_COUNT as u8)));
}

#[test]
fn rejects_out_of_range_band_type() {
    for bt in [-2i8, 18, i8::MAX, i8::MIN] {
        let r =
            reconstruct_sv8_frame_channel(&[band(1, bt, [0, 0, 0], [0; SAMPLES_PER_BAND])], 0);
        assert!(matches!(r, Err(Error::UnsupportedBandType(_))));
    }
}

#[test]
fn per_band_helper_matches_frame_path() {
    let levels = [2i32; SAMPLES_PER_BAND];
    let b = band(9, 6, [0, 1, 2], levels);
    let row = reconstruct_sv8_band(&b, 0).unwrap();
    let m = reconstruct_sv8_frame_channel(&[b], 0).unwrap();
    assert_eq!(m[9], row);
}

#[test]
fn end_to_end_zero_bands_is_silent_matrix() {
    let mut reader = Sv7BitReader::new(&[0xFF; 4]);
    let mut cns = CnsPrng::new();
    let m = decode_and_reconstruct_sv8_channel(set(), &mut reader, 0, true, &mut cns, 0).unwrap();
    assert_silent(&m);
}

#[test]
fn end_to_end_matches_two_step_path() {
    let (code, len) = {
        let mut found = None;
        let mut upper: u32 = 0x1_0000;
        'outer: for e in res_1_table().lengths.iter() {
            if e.length == 0 {
                continue;
            }
            let step = 1u32 << (16 - e.length as u32);
            let mut pat = e.code as u32;
            while pat < upper {
                let mut bytes = Vec::new();
                let mut acc = 0u32;
                let mut nbits = 0u8;
                for i in 0..e.length {
                    let bit = (pat >> (15 - i as u32)) & 1;
                    acc = (acc << 1) | bit;
                    nbits += 1;
                    if nbits == 8 {
                        bytes.push(acc as u8);
                        acc = 0;
                        nbits = 0;
                    }
                }
                if nbits > 0 {
                    bytes.push((acc << (8 - nbits)) as u8);
                }
                bytes.push(0);
                bytes.push(0);
                let mut r = Sv7BitReader::new(&bytes);
                if res_1_table().decode(&mut r).unwrap() == 0 {
                    found = Some((pat as u16, e.length));
                    break 'outer;
                }
                pat += step;
            }
            upper = e.code as u32;
        }
        found.expect("res-1 has a symbol-0 codeword")
    };
    let mut bytes = Vec::new();
    let mut acc = 0u32;
    let mut nbits = 0u8;
    for _ in 0..3 {
        for i in 0..len {
            let bit = (code >> (15 - i)) & 1;
            acc = (acc << 1) | bit as u32;
            nbits += 1;
            if nbits == 8 {
                bytes.push(acc as u8);
                acc = 0;
                nbits = 0;
            }
        }
    }
    if nbits > 0 {
        bytes.push((acc << (8 - nbits)) as u8);
    }
    bytes.push(0);
    bytes.push(0);
    let mut r1 = Sv7BitReader::new(&bytes);
    let mut cns1 = CnsPrng::new();
    let end_to_end =
        decode_and_reconstruct_sv8_channel(set(), &mut r1, 3, true, &mut cns1, 0).unwrap();
    let mut r2 = Sv7BitReader::new(&bytes);
    let mut cns2 = CnsPrng::new();
    let bands = decode_sv8_frame_channel(set(), &mut r2, 3, true, &mut cns2).unwrap();
    let two_step = reconstruct_sv8_frame_channel(&bands, 0).unwrap();
    assert_eq!(end_to_end, two_step);
    assert_silent(&end_to_end);
}
