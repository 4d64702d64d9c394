//! The two-channel frame body.

#![allow(dead_code)]

use oxideav_musepack::bit_reader::Sv7BitReader;
use oxideav_musepack::cns::{CnsPrng, SAMPLES_PER_BAND};
use oxideav_musepack::error::Error;
use oxideav_musepack::sv8_huffman::{
    Sv8CanonicalEntry, Sv8CanonicalTable, Sv8TableRole, Sv8TableSet, table_for_role,
};
use oxideav_musepack::sv8_quantize::quantizer_offset;
use oxideav_musepack::sv8_reconstruct::{ScaledBand, reconstruct_sv8_stereo_frame};
use oxideav_musepack::sv8_stereo_frame::{
    Sv8FrameState, Sv8StereoFrameDecode, decode_sv8_stereo_frame,
};

/// A complete code: `shape` says how many of the symbols, in their order, have code words of
/// each length.
fn code(name: &'static str, shape: &[(u8, u32)], symbols: Vec<i8>) -> Sv8CanonicalTable {
    let mut rows = Vec::new();
    let mut bottom = 0x1_0000_u32;
    let mut index = 0_u32;
    for &(length, count) in shape {
        let step = 1_u32 << (16 - length);
        let top = bottom / step;
        bottom -= count * step;
        rows.push(Sv8CanonicalEntry {
            code: bottom as u16,
            length,
            cum_index: (index + top - 1) as i16,
        });
        index += count;
    }
    Sv8CanonicalTable { lengths: rows.leak(), symbols: symbols.leak(), name }
}

fn pairs(bound: i8) -> Vec<i8> {
    let mut out = Vec::new();
    for hi in -bound..=bound {
        for lo in -bound..=bound {
            out.push((hi << 4) | (lo & 15));
        }
    }
    out
}

fn triples() -> Vec<i8> {
    let mut out: Vec<i8> = vec![62];
    out.extend((0..125_i8).filter(|&s| s != 62));
    out
}

fn levels(bound: i8) -> Vec<i8> {
    let mut out = vec![0];
    for l in 1..=bound {
        out.push(l);
        out.push(-l);
    }
    out
}

fn set() -> &'static Sv8TableSet {
    Box::leak(Box::new(Sv8TableSet {
        bands: code(
            "sv8-canonical-bands",
            &[(1, 1), (3, 1), (4, 1), (5, 1), (6, 13), (7, 9), (8, 1), (9, 1), (10, 1), (11, 1), (12, 1), (13, 2)],
            (0..33).collect(),
        ),
        res: [
            code(
                "sv8-canonical-res-1",
                &[
                    (1, 1), (2, 1), (3, 1), (4, 1), (5, 1), (6, 1), (7, 1), (8, 1), (9, 1), (10, 1), (11, 1),
                    (12, 1), (13, 1), (14, 1), (15, 1), (16, 2),
                ],
                (0..17).collect(),
            ),
            code(
                "sv8-canonical-res-2",
                &[(1, 1), (3, 1), (4, 5), (5, 1), (6, 1), (7, 1), (8, 1), (9, 1), (10, 1), (11, 1), (12, 1), (13, 2)],
                (0..17).collect(),
            ),
        ],
        scfi: [
            code("sv8-canonical-scfi-1", &[(1, 1), (2, 1), (3, 2)], (0..4).collect()),
            code(
                "sv8-canonical-scfi-2",
                &[(1, 1), (3, 1), (4, 1), (5, 7), (6, 6)],
                (0..16).collect(),
            ),
        ],
        dscf: [
            code(
                "sv8-canonical-dscf-1",
                &[(1, 1), (3, 1), (4, 1), (5, 1), (6, 1), (7, 14), (8, 39), (9, 1), (10, 1), (11, 1), (12, 1), (13, 2)],
                (0..64).collect(),
            ),
            code(
                "sv8-canonical-dscf-2",
                &[
                    (1, 1), (3, 1), (4, 1), (5, 1), (6, 1), (7, 14), (8, 39), (9, 1), (10, 1), (11, 1), (12, 1),
                    (13, 1), (14, 2),
                ],
                (0..65).collect(),
            ),
        ],
        q1: code(
            "sv8-canonical-q1",
            &[(3, 5), (4, 5), (5, 1), (6, 1), (7, 1), (8, 1), (9, 1), (10, 1), (11, 1), (12, 2)],
            (0..19).collect(),
        ),
        q2: [
            code(
                "sv8-canonical-q2-1",
                &[(1, 1), (3, 1), (4, 1), (5, 1), (6, 1), (7, 1), (8, 15), (9, 101), (10, 1), (11, 2)],
                triples(),
            ),
            code(
                "sv8-canonical-q2-2",
                &[(1, 1), (3, 1), (4, 1), (5, 1), (6, 1), (7, 1), (8, 14), (9, 103), (10, 2)],
                triples(),
            ),
        ],
        q3: code(
            "sv8-canonical-q3",
            &[(1, 1), (3, 1), (4, 1), (5, 1), (6, 1), (7, 24), (8, 20)],
            pairs(3),
        ),
        q4: code(
            "sv8-canonical-q4",
            &[(3, 1), (5, 1), (6, 32), (7, 43), (8, 1), (9, 1), (10, 2)],
            pairs(4),
        ),
        q5: [
            code("sv8-canonical-q5-1", &[(1, 1), (3, 1), (4, 1), (5, 9), (6, 1), (7, 2)], levels(7)),
            code("sv8-canonical-q5-2", &[(1, 1), (4, 3), (5, 9), (6, 2)], levels(7)),
        ],
        q6: [
            code(
                "sv8-canonical-q6-1",
                &[(1, 1), (3, 1), (4, 1), (5, 1), (6, 11), (7, 13), (8, 1), (9, 2)],
                levels(15),
            ),
            code("sv8-canonical-q6-2", &[(1, 1), (4, 1), (5, 1), (6, 24), (7, 4)], levels(15)),
        ],
        q7: [
            code(
                "sv8-canonical-q7-1",
                &[(1, 1), (3, 1), (4, 1), (5, 1), (6, 1), (7, 12), (8, 43), (9, 1), (10, 2)],
                levels(31),
            ),
            code("sv8-canonical-q7-2", &[(1, 1), (5, 1), (6, 1), (7, 56), (8, 4)], levels(31)),
        ],
        q8: [
            code(
                "sv8-canonical-q8-1",
                &[(1, 1), (3, 1), (4, 1), (5, 1), (6, 1), (7, 1), (8, 14), (9, 103), (10, 1), (11, 1), (12, 2)],
                levels(63),
            ),
            code("sv8-canonical-q8-2", &[(1, 1), (7, 3), (8, 121), (9, 2)], levels(63)),
        ],
        q9up: code(
            "sv8-canonical-q9up",
            &[(1, 1), (6, 1), (7, 1), (8, 1), (9, 232), (10, 20)],
            (i8::MIN..=i8::MAX).collect(),
        ),
    }))
}

fn res_1_table() -> &'static Sv8CanonicalTable {
    &set().res[0]
}

struct BitPacker {
    bytes: Vec<u8>,
    acc: u32,
    nbits: u8,
}

impl BitPacker {
    fn new() -> Self {
        BitPacker {
            bytes: Vec::new(),
            acc: 0,
            nbits: 0,
        }
    }
    fn push(&mut self, pattern: u16, length: u8) {
        for i in 0..length {
            let bit = (pattern >> (15 - i)) & 1;
            self.acc = (self.acc << 1) | bit as u32;
            self.nbits += 1;
            if self.nbits == 8 {
                self.bytes.push(self.acc as u8);
                self.acc = 0;
                self.nbits = 0;
            }
        }
    }
    fn push_raw(&mut self, value: u32, length: u8) {
        for i in (0..length).rev() {
            let bit = (value >> i) & 1;
            self.acc = (self.acc << 1) | bit;
            self.nbits += 1;
            if self.nbits == 8 {
                self.bytes.push(self.acc as u8);
                self.acc = 0;
                self.nbits = 0;
            }
        }
    }
    fn finish(mut self) -> Vec<u8> {
        if self.nbits > 0 {
            self.bytes.push((self.acc << (8 - self.nbits)) as u8);
        }
        self.bytes.push(0);
        self.bytes.push(0);
        self.bytes
    }
}

fn codeword_for_symbol(table: &Sv8CanonicalTable, target: i8) -> Option<(u16, u8)> {
    let mut upper: u32 = 0x1_0000;
    for e in table.lengths.iter() {
        if e.length == 0 {
            continue;
        }
        let step = 1u32 << (16 - e.length as u32);
        let mut pat = e.code as u32;
        while pat < upper {
            let mut p = BitPacker::new();
            p.push(pat as u16, e.length);
            let bytes = p.finish();
            let mut r = Sv7BitReader::new(&bytes);
            if table.decode(&mut r).unwrap() == target {
                return Some((pat as u16, e.length));
            }
            pat += step;
        }
        upper = e.code as u32;
    }
    None
}

fn log_encode(v: u32, max: u32) -> (u16, u8) {
    if max <= 1 {
        return (0, 0);
    }
    let mut bitlen: u8 = 0;
    while (1u32 << bitlen) < max {
        bitlen += 1;
    }
    let lost = (1u32 << bitlen) - max;
    if v < lost {
        let len = bitlen - 1;
        ((v as u16) << (16 - len), len)
    } else {
        let code = v + lost;
        ((code as u16) << (16 - bitlen), bitlen)
    }
}

fn push_keyframe_mub(p: &mut BitPacker, v: u32, max_band: u8) {
    let (pat, len) = log_encode(v, max_band as u32 + 2);
    if len > 0 {
        p.push(pat, len);
    }
}

/// The step between two scalefactors.
const STEP: f64 = 0.832_980_664_765_826_7;

/// The coefficient of a band type with levels up to `d`: a full scale over all levels.
fn coefficient(number: u8) -> f64 {
    let d = quantizer_offset(number as i8 - 1).unwrap();
    65536.0 / f64::from(2 * d + 1)
}

/// Sample `k` of a row.
fn sample(row: &ScaledBand, k: usize) -> f64 {
    if row.levels[k] == 0 {
        return 0.0;
    }
    f64::from(row.levels[k]) * coefficient(row.coefficient) * STEP.powi(row.steps[k / 12] as i32)
}

#[test]
fn state_new_is_keyframe_posture() {
    let st = Sv8FrameState::new();
    assert_eq!(st.last_nbands(), 0);
    assert_eq!(st, Sv8FrameState::default());
}

#[test]
fn zero_band_keyframe_decodes_to_empty_frame() {
    let max_band = 4;
    let mut p = BitPacker::new();
    push_keyframe_mub(&mut p, 0, max_band);
    let bytes = p.finish();
    let mut r = Sv7BitReader::new(&bytes);
    let mut st = Sv8FrameState::new();
    let mut cns = CnsPrng::new();
    let f = decode_sv8_stereo_frame(set(), &mut r, max_band, true, true, &mut st, &mut cns).unwrap();
    assert_eq!(f.nbands, 0);
    assert!(f.res.is_empty());
    assert!(f.ms_flags.is_empty());
    let (left, right) = reconstruct_sv8_stereo_frame(&f).unwrap();
    assert_eq!(left.len(), 32);
    assert_eq!(right.len(), 32);
    assert!(left.iter().chain(right.iter()).all(|row| row.levels.iter().all(|&l| l == 0)));
}

#[test]
fn all_empty_bands_read_res_only_and_stay_silent() {
    let max_band = 4;
    let (r0, l0) = codeword_for_symbol(res_1_table(), 0).expect("res-1 sym 0");
    let mut p = BitPacker::new();
    push_keyframe_mub(&mut p, 3, max_band);
    for _ in 0..3 {
        p.push(r0, l0);
        p.push(r0, l0);
    }
    let bytes = p.finish();
    let mut r = Sv7BitReader::new(&bytes);
    let mut st = Sv8FrameState::new();
    let mut cns = CnsPrng::new();
    let f = decode_sv8_stereo_frame(set(), &mut r, max_band, true, true, &mut st, &mut cns).unwrap();
    assert_eq!(f.nbands, 3);
    assert_eq!(f.res, vec![[0, 0]; 3]);
    assert_eq!(f.ms_flags, vec![false; 3]);
    assert!(f
        .levels
        .iter()
        .all(|b| b.iter().all(|ch| ch.iter().all(|&s| s == 0))));
}

#[test]
fn coded_band_reads_scfi_dscf_and_samples_in_band_major_passes() {
    let max_band = 2;
    let (r3, l3) = codeword_for_symbol(res_1_table(), 3).expect("res-1 sym 3");
    let scfi2 = table_for_role(set(), Sv8TableRole::Scfi, 1).unwrap();
    let (s15, sl15) = codeword_for_symbol(scfi2, 15).expect("scfi-2 sym 15");
    let q3 = table_for_role(set(), Sv8TableRole::Q3, 0).unwrap();
    let q3e = q3.lengths[0];
    let mut p = BitPacker::new();
    push_keyframe_mub(&mut p, 1, max_band);
    p.push(r3, l3);
    p.push(r3, l3);
    p.push_raw(0, 1);
    p.push(s15, sl15);
    p.push_raw(40, 7);
    p.push_raw(50, 7);
    for _ in 0..36 {
        p.push(q3e.code, q3e.length);
    }
    let bytes = p.finish();
    let mut r = Sv7BitReader::new(&bytes);
    let mut st = Sv8FrameState::new();
    let mut cns = CnsPrng::new();
    let f = decode_sv8_stereo_frame(set(), &mut r, max_band, true, true, &mut st, &mut cns).unwrap();
    assert_eq!(f.nbands, 1);
    assert_eq!(f.res, vec![[3, 3]]);
    assert_eq!(f.ms_flags, vec![false]);
    assert_eq!(f.granule_scf[0][0], [34, 34, 34]);
    assert_eq!(f.granule_scf[0][1], [44, 44, 44]);
    assert_eq!(st.scf_ref(0, 0), Some(34));
    assert_eq!(st.scf_ref(1, 0), Some(44));
    assert_eq!(st.last_nbands(), 1);
}

#[test]
fn first_use_band_reads_absolute_base_on_non_key_frame() {
    let max_band = 1;
    let (r3, l3) = codeword_for_symbol(res_1_table(), 3).expect("res-1 sym 3");
    let (r0, l0) = codeword_for_symbol(res_1_table(), 0).expect("res-1 sym 0");
    let scfi1 = table_for_role(set(), Sv8TableRole::Scfi, 0).unwrap();
    let (s3, sl3) = codeword_for_symbol(scfi1, 3).expect("scfi-1 sym 3");
    let scfi2 = table_for_role(set(), Sv8TableRole::Scfi, 1).unwrap();
    let (s15, sl15) = codeword_for_symbol(scfi2, 15).expect("scfi-2 sym 15");
    let q3 = table_for_role(set(), Sv8TableRole::Q3, 0).unwrap();
    let q3e = q3.lengths[0];
    let dscf2 = table_for_role(set(), Sv8TableRole::Dscf, 1).unwrap();
    let (d30, dl30) = codeword_for_symbol(dscf2, 30).expect("dscf-2 sym 30");
    let mut p = BitPacker::new();
    push_keyframe_mub(&mut p, 1, max_band);
    p.push(r3, l3);
    p.push(r0, l0);
    p.push_raw(0, 1);
    p.push(s3, sl3);
    p.push_raw(40, 7);
    for _ in 0..18 {
        p.push(q3e.code, q3e.length);
    }
    let bands = table_for_role(set(), Sv8TableRole::Bands, 0).unwrap();
    let (b0, bl0) = codeword_for_symbol(bands, 0).expect("bands sym 0");
    p.push(b0, bl0);
    p.push(r3, l3);
    p.push(r3, l3);
    p.push_raw(0, 1);
    p.push(s15, sl15);
    p.push(d30, dl30);
    p.push_raw(50, 7);
    for _ in 0..36 {
        p.push(q3e.code, q3e.length);
    }
    let bytes = p.finish();
    let mut r = Sv7BitReader::new(&bytes);
    let mut st = Sv8FrameState::new();
    let mut cns = CnsPrng::new();
    let f0 = decode_sv8_stereo_frame(set(), &mut r, max_band, true, true, &mut st, &mut cns).unwrap();
    assert_eq!(f0.res, vec![[3, 0]]);
    assert_eq!(f0.granule_scf[0][0], [34, 34, 34]);
    assert_eq!(st.scf_ref(1, 0), None, "right channel never coded yet");
    let f1 = decode_sv8_stereo_frame(set(), &mut r, max_band, false, true, &mut st, &mut cns).unwrap();
    assert_eq!(f1.res, vec![[3, 3]]);
    assert_eq!(
        f1.granule_scf[0][0],
        [33, 33, 33],
        "left: temporal delta off frame-0 SCF[2]"
    );
    assert_eq!(
        f1.granule_scf[0][1],
        [44, 44, 44],
        "right: first-use absolute raw7"
    );
}

#[test]
fn ms_bitmap_applies_mask_msb_to_lowest_band() {
    let max_band = 2;
    let (r3, l3) = codeword_for_symbol(res_1_table(), 3).expect("res-1 sym 3");
    let res2 = table_for_role(set(), Sv8TableRole::Res, 1).unwrap();
    let (rd0, rdl0) = codeword_for_symbol(res2, 0).expect("res-2 sym 0");
    let scfi2 = table_for_role(set(), Sv8TableRole::Scfi, 1).unwrap();
    let (s15, sl15) = codeword_for_symbol(scfi2, 15).expect("scfi-2 sym 15");
    let q3 = table_for_role(set(), Sv8TableRole::Q3, 0).unwrap();
    let q3e = q3.lengths[0];
    let mut p = BitPacker::new();
    push_keyframe_mub(&mut p, 2, max_band);
    p.push(r3, l3);
    p.push(r3, l3);
    p.push(rd0, rdl0);
    p.push(rd0, rdl0);
    p.push_raw(2, 2);
    p.push_raw(1, 1);
    for _ in 0..2 {
        p.push(s15, sl15);
    }
    for _ in 0..4 {
        p.push_raw(40, 7);
    }
    for _ in 0..72 {
        p.push(q3e.code, q3e.length);
    }
    let bytes = p.finish();
    let mut r = Sv7BitReader::new(&bytes);
    let mut st = Sv8FrameState::new();
    let mut cns = CnsPrng::new();
    let f = decode_sv8_stereo_frame(set(), &mut r, max_band, true, true, &mut st, &mut cns).unwrap();
    assert_eq!(f.res, vec![[3, 3], [3, 3]]);
    assert_eq!(f.ms_flags, vec![true, false], "mask MSB is band 0");
}

#[test]
fn stream_ms_off_reads_no_bitmap() {
    let max_band = 2;
    let (r3, l3) = codeword_for_symbol(res_1_table(), 3).expect("res-1 sym 3");
    let scfi2 = table_for_role(set(), Sv8TableRole::Scfi, 1).unwrap();
    let (s15, sl15) = codeword_for_symbol(scfi2, 15).expect("scfi-2 sym 15");
    let q3 = table_for_role(set(), Sv8TableRole::Q3, 0).unwrap();
    let q3e = q3.lengths[0];
    let mut p = BitPacker::new();
    push_keyframe_mub(&mut p, 1, max_band);
    p.push(r3, l3);
    p.push(r3, l3);
    p.push(s15, sl15);
    p.push_raw(40, 7);
    p.push_raw(50, 7);
    for _ in 0..36 {
        p.push(q3e.code, q3e.length);
    }
    let bytes = p.finish();
    let mut r = Sv7BitReader::new(&bytes);
    let mut st = Sv8FrameState::new();
    let mut cns = CnsPrng::new();
    let f = decode_sv8_stereo_frame(set(), &mut r, max_band, true, false, &mut st, &mut cns).unwrap();
    assert_eq!(f.nbands, 1);
    assert_eq!(f.ms_flags, vec![false]);
    assert_eq!(f.granule_scf[0][0], [34, 34, 34]);
    assert_eq!(f.granule_scf[0][1], [44, 44, 44]);
}

#[test]
fn reconstruction_applies_absolute_law_per_channel() {
    let mut f = Sv8StereoFrameDecode {
        nbands: 1,
        res: vec![[3, 0]],
        ms_flags: vec![false],
        scfi: vec![[3, 3]],
        granule_scf: vec![[[1, 1, 1], [0, 0, 0]]],
        levels: vec![[[1; SAMPLES_PER_BAND], [0; SAMPLES_PER_BAND]]],
    };
    let (left, right) = reconstruct_sv8_stereo_frame(&f).unwrap();
    let c = 65536.0 / 7.0;
    assert!((sample(&left[0], 0) - c).abs() < 1e-9, "unity gain at index 1");
    assert!((0..36).all(|k| sample(&right[0], k) == 0.0), "empty right channel");
    f.granule_scf[0][0] = [2, 2, 2];
    let (left2, _) = reconstruct_sv8_stereo_frame(&f).unwrap();
    assert!((sample(&left2[0], 0) - c * STEP).abs() < 1e-9);
}

#[test]
fn rejects_res_walk_starvation() {
    let max_band = 4;
    let mut p = BitPacker::new();
    push_keyframe_mub(&mut p, 3, max_band);
    let mut bytes = p.bytes.clone();
    if p.nbits > 0 {
        bytes.push((p.acc << (8 - p.nbits)) as u8);
    }
    let mut r = Sv7BitReader::new(&bytes);
    let mut st = Sv8FrameState::new();
    let mut cns = CnsPrng::new();
    assert!(matches!(
        decode_sv8_stereo_frame(set(), &mut r, max_band, true, true, &mut st, &mut cns),
        Err(Error::UnexpectedEof)
    ));
}
