//! The frame body of the older format.

#![allow(dead_code)]

use oxideav_musepack::bit_reader::Sv7BitReader;
use oxideav_musepack::cns::{CnsPrng, SAMPLES_PER_BAND};
use oxideav_musepack::error::Error;
use oxideav_musepack::sv7_band_decode::Sv7TableSet;
use oxideav_musepack::sv7_huffman::Sv7HuffmanEntry;
use oxideav_musepack::sv7_scf_decode::sv7_scfi_table;
use oxideav_musepack::sv7_stereo_frame::{Sv7ScfMemory, Sv7StereoFrame, decode_sv7_stereo_frame};
use oxideav_musepack::sv8_quantize::quantizer_offset;

/// A complete code for the values, in their order: the first ones are one bit shorter.
fn rows(values: Vec<i8>) -> &'static [Sv7HuffmanEntry] {
    let n = values.len() as u32;
    let mut length = 0_u8;
    while (1_u32 << length) < n {
        length += 1;
    }
    let short = (1_u32 << length) - n;
    let mut bottom = 0x1_0000_u32;
    let mut out = Vec::new();
    for (i, &value) in values.iter().enumerate() {
        let length = if (i as u32) < short { length - 1 } else { length };
        bottom -= 1_u32 << (16 - length);
        out.push(Sv7HuffmanEntry { code: bottom as u16, length, value });
    }
    out.leak()
}

fn signed(bound: i8) -> &'static [Sv7HuffmanEntry] {
    rows((-bound..=bound).collect())
}

fn entry(code: u16, length: u8, value: i8) -> Sv7HuffmanEntry {
    Sv7HuffmanEntry { code, length, value }
}

fn set() -> &'static Sv7TableSet {
    Box::leak(Box::new(Sv7TableSet {
        hdr: vec![
            entry(0x8000, 1, 0),
            entry(0x6000, 3, 1),
            entry(0x5e00, 7, -4),
            entry(0x5d80, 9, 3),
            entry(0x5d00, 9, 4),
            entry(0x5c00, 8, -5),
            entry(0x5800, 6, 2),
            entry(0x5000, 5, -3),
            entry(0x4000, 4, -2),
            entry(0x0000, 2, -1),
        ]
        .leak(),
        q1: [rows((0..27).collect()), rows((0..27).rev().collect())],
        q2: [rows((0..25).collect()), rows((0..25).rev().collect())],
        q3: [signed(3), rows((-3..=3).rev().collect())],
        q4: [signed(4), signed(4)],
        q5: [signed(7), signed(7)],
        q6: [signed(15), signed(15)],
        q7: [signed(31), signed(31)],
    }))
}

/// The step between two scalefactors.
const STEP: f64 = 0.832_980_664_765_826_7;

/// The coefficient of noise.
const NOISE: f64 = 111.285_962_475_327;

/// Sample `k` of a channel in a band.
fn sample(frame: &Sv7StereoFrame, ch: usize, b: usize, k: usize) -> f64 {
    let row = 2 * b + ch;
    let coefficient = match frame.res[b][ch] {
        -1 => NOISE,
        0 => 0.0,
        t => 65536.0 / f64::from(2 * quantizer_offset(t).unwrap() + 1),
    };
    f64::from(frame.levels[row][k]) * coefficient * STEP.powi(frame.granule_scf[row][k / 12] - 1)
}

struct Packer {
    bytes: Vec<u8>,
    acc: u32,
    nbits: u8,
}

impl Packer {
    fn new() -> Self {
        Packer {
            bytes: Vec::new(),
            acc: 0,
            nbits: 0,
        }
    }
    fn push(&mut self, pattern: u16, length: u8) {
        for i in 0..length {
            let bit = (pattern >> (15 - i)) & 1;
            self.acc = (self.acc << 1) | bit as u32;
            self.nbits += 1;
            if self.nbits == 8 {
                self.bytes.push(self.acc as u8);
                self.acc = 0;
                self.nbits = 0;
            }
        }
    }
    fn push_raw(&mut self, value: u32, length: u8) {
        for i in (0..length).rev() {
            let bit = (value >> i) & 1;
            self.acc = (self.acc << 1) | bit;
            self.nbits += 1;
            if self.nbits == 8 {
                self.bytes.push(self.acc as u8);
                self.acc = 0;
                self.nbits = 0;
            }
        }
    }
    fn finish(mut self) -> Vec<u8> {
        if self.nbits > 0 {
            self.bytes.push((self.acc << (8 - self.nbits)) as u8);
        }
        for _ in 0..4 {
            self.bytes.push(0);
        }
        self.bytes
    }
}

fn scfi3() -> (u16, u8) {
    (0x0000, 2)
}
fn dscf0() -> (u16, u8) {
    (0x9000, 4)
}
fn dscf1() -> (u16, u8) {
    (0xa000, 3)
}

#[test]
fn all_silent_stereo_frame_reconstructs_to_silence() {
    let mut p = Packer::new();
    p.push_raw(0, 4);
    p.push_raw(0, 4);
    let bytes = p.finish();
    let mut r = Sv7BitReader::new(&bytes);
    let mut cns = CnsPrng::new();
    let mut scf = Sv7ScfMemory::new();
    let frame = decode_sv7_stereo_frame(set(), &mut r, 0, false, &mut scf, &mut cns).unwrap();
    assert!((0..2).all(|ch| (0..36).all(|k| sample(&frame, ch, 0, k) == 0.0)));
    assert_eq!(frame.ms_flags, vec![false]);
    assert_eq!(scf, Sv7ScfMemory::new());
}

#[test]
fn pass_order_scfi_then_dscf_then_samples() {
    let (scfi_c, scfi_l) = scfi3();
    let (d0_c, d0_l) = dscf0();
    let (d1_c, d1_l) = dscf1();
    let (q3_c, q3_l) = (set().q3[0][0].code, set().q3[0][0].length);
    let mut p = Packer::new();
    p.push_raw(3, 4);
    p.push_raw(3, 4);
    p.push_raw(1, 1);
    p.push(scfi_c, scfi_l);
    p.push(scfi_c, scfi_l);
    p.push(d0_c, d0_l);
    p.push(d1_c, d1_l);
    p.push_raw(0, 1);
    for _ in 0..36 {
        p.push(q3_c, q3_l);
    }
    p.push_raw(0, 1);
    for _ in 0..36 {
        p.push(q3_c, q3_l);
    }
    let bytes = p.finish();
    let mut r = Sv7BitReader::new(&bytes);
    let mut cns = CnsPrng::new();
    let mut scf = Sv7ScfMemory::new();
    let frame = decode_sv7_stereo_frame(set(), &mut r, 0, true, &mut scf, &mut cns).unwrap();
    assert_eq!(frame.ms_flags, vec![true]);
    let level = set().q3[0][0].value as f64;
    let c = 65536.0 / 7.0;
    let want_l = level * c * STEP.powi(-1);
    let want_r = level * c;
    for k in 0..SAMPLES_PER_BAND {
        assert!((sample(&frame, 0, 0, k) - want_l).abs() < 1e-9, "L {k}");
        assert!((sample(&frame, 1, 0, k) - want_r).abs() < 1e-9, "R {k}");
    }
    assert_eq!(scf.reference(0, 0), 0);
    assert_eq!(scf.reference(1, 0), 1);
}

#[test]
fn scf_memory_threads_across_frames() {
    let (scfi_c, scfi_l) = scfi3();
    let (d1_c, d1_l) = dscf1();
    let (q3_c, q3_l) = (set().q3[0][0].code, set().q3[0][0].length);
    let frame_bits = |p: &mut Packer| {
        p.push_raw(3, 4);
        p.push_raw(3, 4);
        p.push(scfi_c, scfi_l);
        p.push(scfi_c, scfi_l);
        p.push(d1_c, d1_l);
        p.push(d1_c, d1_l);
        p.push_raw(0, 1);
        for _ in 0..36 {
            p.push(q3_c, q3_l);
        }
        p.push_raw(0, 1);
        for _ in 0..36 {
            p.push(q3_c, q3_l);
        }
    };
    let mut p = Packer::new();
    frame_bits(&mut p);
    frame_bits(&mut p);
    let bytes = p.finish();
    let mut r = Sv7BitReader::new(&bytes);
    let mut cns = CnsPrng::new();
    let mut scf = Sv7ScfMemory::new();
    let f1 = decode_sv7_stereo_frame(set(), &mut r, 0, false, &mut scf, &mut cns).unwrap();
    assert_eq!(scf.reference(0, 0), 1, "frame 1: 0 + 1");
    let f2 = decode_sv7_stereo_frame(set(), &mut r, 0, false, &mut scf, &mut cns).unwrap();
    assert_eq!(scf.reference(0, 0), 2, "frame 2: 1 + 1");
    let x1 = sample(&f1, 0, 0, 0);
    let x2 = sample(&f2, 0, 0, 0);
    assert!((x2 / x1 - STEP).abs() < 1e-9, "{x2} / {x1}");
}

#[test]
fn cns_band_reads_scf_layer_and_scales_noise() {
    let (scfi_c, scfi_l) = scfi3();
    let (d0_c, d0_l) = dscf0();
    let mut p = Packer::new();
    p.push_raw(0, 4);
    p.push_raw(0, 4);
    p.push(0x0000, 2);
    p.push(0x0000, 2);
    p.push(scfi_c, scfi_l);
    p.push(scfi_c, scfi_l);
    p.push(d0_c, d0_l);
    p.push(d0_c, d0_l);
    let bytes = p.finish();
    let mut r = Sv7BitReader::new(&bytes);
    let mut cns = CnsPrng::new();
    let mut scf = Sv7ScfMemory::new();
    let frame = decode_sv7_stereo_frame(set(), &mut r, 1, false, &mut scf, &mut cns).unwrap();
    let mut ref_cns = CnsPrng::new();
    let mut left_ref = [0_i32; 36];
    ref_cns.fill_samples(&mut left_ref);
    let mut right_ref = [0_i32; 36];
    ref_cns.fill_samples(&mut right_ref);
    assert_eq!(cns.state(), ref_cns.state());
    let gain = NOISE * STEP.powi(-1);
    for k in 0..SAMPLES_PER_BAND {
        assert!(
            (sample(&frame, 0, 1, k) - left_ref[k] as f64 * gain).abs() < 1e-9,
            "L {k}"
        );
        assert!(
            (sample(&frame, 1, 1, k) - right_ref[k] as f64 * gain).abs() < 1e-9,
            "R {k}"
        );
    }
    assert_ne!(frame.levels[2], frame.levels[3]);
}

#[test]
fn rejects_max_band_out_of_range() {
    let mut r = Sv7BitReader::new(&[0xFF; 8]);
    let mut cns = CnsPrng::new();
    let mut scf = Sv7ScfMemory::new();
    assert_eq!(
        decode_sv7_stereo_frame(set(), &mut r, 32, false, &mut scf, &mut cns),
        Err(Error::MaxBandOutOfRange(32))
    );
}

#[test]
fn frame_pairs_with_pinned_ms_undo() {
    let mut p = Packer::new();
    p.push_raw(0, 4);
    p.push_raw(0, 4);
    let bytes = p.finish();
    let mut r = Sv7BitReader::new(&bytes);
    let mut cns = CnsPrng::new();
    let mut scf = Sv7ScfMemory::new();
    let frame = decode_sv7_stereo_frame(set(), &mut r, 0, false, &mut scf, &mut cns).unwrap();
    assert_eq!(frame.ms_flags.len(), frame.res.len());
    for (b, &ms) in frame.ms_flags.iter().enumerate() {
        for k in 0..SAMPLES_PER_BAND {
            let (m, s) = (sample(&frame, 0, b, k), sample(&frame, 1, b, k));
            let left = if ms { m + s } else { m };
            assert_eq!(left, 0.0);
        }
    }
    assert_eq!(sv7_scfi_table().len(), 4);
}

#[test]
fn scf_memory_default_and_reset() {
    let mut m = Sv7ScfMemory::default();
    m.update(1, 30, 42);
    assert_eq!(m.reference(1, 30), 42);
    m.reset();
    assert_eq!(m, Sv7ScfMemory::new());
}
