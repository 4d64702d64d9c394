//! Runs of frames of the older format.

#![allow(dead_code)]

use oxideav_musepack::bit_reader::Sv7BitReader;
use oxideav_musepack::bit_writer::Sv7BitWriter;
use oxideav_musepack::error::Error;
use oxideav_musepack::sv7_band_decode::Sv7TableSet;
use oxideav_musepack::sv7_frame_encode::Sv7EncBand;
use oxideav_musepack::sv7_huffman::Sv7HuffmanEntry;
use oxideav_musepack::sv7_stereo_frame::{Sv7ScfMemory, Sv7StereoFrame};
use oxideav_musepack::sv7_stereo_frame_encode::encode_sv7_stereo_frame;
use oxideav_musepack::sv7_stream::{STEREO_FRAME_PCM_LEN, Sv7HeaderFields, Sv7StreamDecoder};

/// A complete code for the values, in their order: the first ones are one bit shorter.
fn rows(values: Vec<i8>) -> &'static [Sv7HuffmanEntry] {
    let n = values.len() as u32;
    let mut length = 0_u8;
    while (1_u32 << length) < n {
        length += 1;
    }
    let short = (1_u32 << length) - n;
    let mut bottom = 0x1_0000_u32;
    let mut out = Vec::new();
    for (i, &value) in values.iter().enumerate() {
        let length = if (i as u32) < short { length - 1 } else { length };
        bottom -= 1_u32 << (16 - length);
        out.push(Sv7HuffmanEntry { code: bottom as u16, length, value });
    }
    out.leak()
}

fn signed(bound: i8) -> &'static [Sv7HuffmanEntry] {
    rows((-bound..=bound).collect())
}

fn entry(code: u16, length: u8, value: i8) -> Sv7HuffmanEntry {
    Sv7HuffmanEntry { code, length, value }
}

fn set() -> &'static Sv7TableSet {
    Box::leak(Box::new(Sv7TableSet {
        hdr: vec![
            entry(0x8000, 1, 0),
            entry(0x6000, 3, 1),
            entry(0x5e00, 7, -4),
            entry(0x5d80, 9, 3),
            entry(0x5d00, 9, 4),
            entry(0x5c00, 8, -5),
            entry(0x5800, 6, 2),
            entry(0x5000, 5, -3),
            entry(0x4000, 4, -2),
            entry(0x0000, 2, -1),
        ]
        .leak(),
        q1: [rows((0..27).collect()), rows((0..27).rev().collect())],
        q2: [rows((0..25).collect()), rows((0..25).rev().collect())],
        q3: [signed(3), rows((-3..=3).rev().collect())],
        q4: [signed(4), signed(4)],
        q5: [signed(7), signed(7)],
        q6: [signed(15), signed(15)],
        q7: [signed(31), signed(31)],
    }))
}

fn is_silent(frame: &Sv7StereoFrame) -> bool {
    frame.res.iter().all(|r| *r == [0, 0]) && frame.levels.iter().all(|row| row.iter().all(|&l| l == 0))
}

struct Packer {
    bytes: Vec<u8>,
    acc: u32,
    nbits: u8,
}

impl Packer {
    fn new() -> Self {
        Packer {
            bytes: Vec::new(),
            acc: 0,
            nbits: 0,
        }
    }
    fn push_raw(&mut self, value: u32, length: u8) {
        for i in (0..length).rev() {
            let bit = (value >> i) & 1;
            self.acc = (self.acc << 1) | bit;
            self.nbits += 1;
            if self.nbits == 8 {
                self.bytes.push(self.acc as u8);
                self.acc = 0;
                self.nbits = 0;
            }
        }
    }
    fn finish(mut self) -> Vec<u8> {
        if self.nbits > 0 {
            self.bytes.push((self.acc << (8 - self.nbits)) as u8);
        }
        for _ in 0..4 {
            self.bytes.push(0);
        }
        self.bytes
    }
}

fn silent_frame_bits(p: &mut Packer) {
    p.push_raw(0, 4);
    p.push_raw(0, 4);
}

#[test]
fn new_rejects_max_band_out_of_range() {
    let err = Sv7StreamDecoder::new(32, false).err();
    assert_eq!(err, Some(Error::MaxBandOutOfRange(32)));
}

#[test]
fn new_succeeds_for_valid_max_band() {
    let dec = Sv7StreamDecoder::new(20, true).unwrap();
    assert_eq!(dec.frames_decoded(), 0);
}

#[test]
fn single_silent_frame_yields_silent_pcm() {
    let mut p = Packer::new();
    silent_frame_bits(&mut p);
    let bytes = p.finish();
    let mut r = Sv7BitReader::new(&bytes);
    let mut dec = Sv7StreamDecoder::new(0, false).unwrap();
    let frame = dec.decode_frame(set(), &mut r).unwrap();
    assert!(is_silent(&frame));
    assert_eq!(dec.frames_decoded(), 1);
}

#[test]
fn multi_silent_frame_overlap_stays_silent_and_counts() {
    let mut p = Packer::new();
    for _ in 0..3 {
        silent_frame_bits(&mut p);
    }
    let bytes = p.finish();
    let mut r = Sv7BitReader::new(&bytes);
    let mut dec = Sv7StreamDecoder::new(0, false).unwrap();
    for _ in 0..3 {
        let frame = dec.decode_frame(set(), &mut r).unwrap();
        assert!(is_silent(&frame));
    }
    assert_eq!(dec.frames_decoded(), 3);
}

#[test]
fn decode_frames_concatenates_and_stops_at_eof() {
    let mut p = Packer::new();
    for _ in 0..2 {
        silent_frame_bits(&mut p);
    }
    let bytes = p.finish();
    let mut r = Sv7BitReader::new(&bytes);
    let mut dec = Sv7StreamDecoder::new(0, false).unwrap();
    let frames = dec.decode_frames(set(), &mut r, 100).unwrap();
    assert!(frames.len() >= 2);
    assert!(frames.iter().all(is_silent));
    assert!(r.is_empty());
    assert!(dec.frames_decoded() >= 2);
}

#[test]
fn reset_clears_frame_count_and_state() {
    let mut p = Packer::new();
    silent_frame_bits(&mut p);
    let bytes = p.finish();
    let mut r = Sv7BitReader::new(&bytes);
    let mut dec = Sv7StreamDecoder::new(0, false).unwrap();
    dec.decode_frame(set(), &mut r).unwrap();
    assert_eq!(dec.frames_decoded(), 1);
    dec.reset();
    assert_eq!(dec.frames_decoded(), 0);
    assert_eq!(*dec.scf_memory(), Sv7ScfMemory::new());
}

#[test]
fn pcm_len_constant_is_two_channels_of_a_frame() {
    assert_eq!(STEREO_FRAME_PCM_LEN, 2 * 1152);
}

#[test]
fn from_header_pulls_max_band_and_ms_flag() {
    let header = Sv7HeaderFields {
        max_band: 17,
        mid_side: true,
        ..Default::default()
    };
    let dec = Sv7StreamDecoder::from_header(&header).unwrap();
    assert_eq!(dec.max_band(), 17);
    assert!(dec.stream_ms());
    assert_eq!(dec.frames_decoded(), 0);
}

#[test]
fn from_header_rejects_out_of_range_max_band() {
    let header = Sv7HeaderFields {
        max_band: 32,
        ..Default::default()
    };
    let err = Sv7StreamDecoder::from_header(&header).err();
    assert_eq!(err, Some(Error::MaxBandOutOfRange(32)));
}

#[test]
fn a_run_of_written_frames_decodes_to_its_bands() {
    let band = |scf: i32| Sv7EncBand::Coded {
        band_type: 2,
        ctx: 1,
        scf: [scf, scf, scf + 1],
        levels: core::array::from_fn(|k| k as i32 % 5 - 2),
    };
    let mut w = Sv7BitWriter::new();
    let mut memory = Sv7ScfMemory::new();
    for scf in [4, 6, 60] {
        let bands = [band(scf), Sv7EncBand::Cns { scf: [scf, scf, scf] }];
        encode_sv7_stereo_frame(set(), &mut w, &bands, &bands, &[true, false], true, &mut memory)
            .unwrap();
    }
    w.write_bits(0, 16);
    let bytes = w.finish();
    let mut r = Sv7BitReader::new(&bytes);
    let mut dec = Sv7StreamDecoder::new(1, true).unwrap();
    let frames = dec.decode_frames(set(), &mut r, 3).unwrap();
    assert_eq!(frames.len(), 3);
    assert_eq!(*dec.scf_memory(), memory);
    for (frame, scf) in frames.iter().zip([4, 6, 60]) {
        assert_eq!(frame.res, vec![[2, 2], [-1, -1]]);
        assert_eq!(frame.ms_flags, vec![true, false]);
        assert_eq!(frame.granule_scf[1], [scf, scf, scf + 1]);
        assert_eq!(frame.granule_scf[2], [scf; 3]);
        assert_eq!(frame.levels[0][..5], [-2, -1, 0, 1, 2]);
    }
    assert_ne!(frames[0].levels[2], frames[1].levels[2]);
}
