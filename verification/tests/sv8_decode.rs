//! Decoding whole streams.

#![allow(dead_code)]

use oxideav_musepack::bit_reader::Sv7BitReader;
use oxideav_musepack::error::Error;
use oxideav_musepack::sv8_band_header::decode_keyframe_max_used_band;
use oxideav_musepack::sv8_decode::{Sv8DecodedStream, decode_sv8_stream};
use oxideav_musepack::sv8_huffman::{Sv8CanonicalEntry, Sv8CanonicalTable, Sv8TableSet};

/// A complete code: `shape` says how many of the symbols, in their order, have code words of
/// each length.
fn code(name: &'static str, shape: &[(u8, u32)], symbols: Vec<i8>) -> Sv8CanonicalTable {
    let mut rows = Vec::new();
    let mut bottom = 0x1_0000_u32;
    let mut index = 0_u32;
    for &(length, count) in shape {
        let step = 1_u32 << (16 - length);
        let top = bottom / step;
        bottom -= count * step;
        rows.push(Sv8CanonicalEntry {
            code: bottom as u16,
            length,
            cum_index: (index + top - 1) as i16,
        });
        index += count;
    }
    Sv8CanonicalTable { lengths: rows.leak(), symbols: symbols.leak(), name }
}

fn pairs(bound: i8) -> Vec<i8> {
    let mut out = Vec::new();
    for hi in -bound..=bound {
        for lo in -bound..=bound {
            out.push((hi << 4) | (lo & 15));
        }
    }
    out
}

fn triples() -> Vec<i8> {
    let mut out: Vec<i8> = vec![62];
    out.extend((0..125_i8).filter(|&s| s != 62));
    out
}

fn levels(bound: i8) -> Vec<i8> {
    let mut out = vec![0];
    for l in 1..=bound {
        out.push(l);
        out.push(-l);
    }
    out
}

fn set() -> &'static Sv8TableSet {
    Box::leak(Box::new(Sv8TableSet {
        bands: code(
            "sv8-canonical-bands",
            &[(1, 1), (3, 1), (4, 1), (5, 1), (6, 13), (7, 9), (8, 1), (9, 1), (10, 1), (11, 1), (12, 1), (13, 2)],
            (0..33).collect(),
        ),
        res: [
            code(
                "sv8-canonical-res-1",
                &[
                    (1, 1), (2, 1), (3, 1), (4, 1), (5, 1), (6, 1), (7, 1), (8, 1), (9, 1), (10, 1), (11, 1),
                    (12, 1), (13, 1), (14, 1), (15, 1), (16, 2),
                ],
                (0..17).collect(),
            ),
            code(
                "sv8-canonical-res-2",
                &[(1, 1), (3, 1), (4, 5), (5, 1), (6, 1), (7, 1), (8, 1), (9, 1), (10, 1), (11, 1), (12, 1), (13, 2)],
                (0..17).collect(),
            ),
        ],
        scfi: [
            code("sv8-canonical-scfi-1", &[(1, 1), (2, 1), (3, 2)], (0..4).collect()),
            code(
                "sv8-canonical-scfi-2",
                &[(1, 1), (3, 1), (4, 1), (5, 7), (6, 6)],
                (0..16).collect(),
            ),
        ],
        dscf: [
            code(
                "sv8-canonical-dscf-1",
                &[(1, 1), (3, 1), (4, 1), (5, 1), (6, 1), (7, 14), (8, 39), (9, 1), (10, 1), (11, 1), (12, 1), (13, 2)],
                (0..64).collect(),
            ),
            code(
                "sv8-canonical-dscf-2",
                &[
                    (1, 1), (3, 1), (4, 1), (5, 1), (6, 1), (7, 14), (8, 39), (9, 1), (10, 1), (11, 1), (12, 1),
                    (13, 1), (14, 2),
                ],
                (0..65).collect(),
            ),
        ],
        q1: code(
            "sv8-canonical-q1",
            &[(3, 5), (4, 5), (5, 1), (6, 1), (7, 1), (8, 1), (9, 1), (10, 1), (11, 1), (12, 2)],
            (0..19).collect(),
        ),
        q2: [
            code(
                "sv8-canonical-q2-1",
                &[(1, 1), (3, 1), (4, 1), (5, 1), (6, 1), (7, 1), (8, 15), (9, 101), (10, 1), (11, 2)],
                triples(),
            ),
            code(
                "sv8-canonical-q2-2",
                &[(1, 1), (3, 1), (4, 1), (5, 1), (6, 1), (7, 1), (8, 14), (9, 103), (10, 2)],
                triples(),
            ),
        ],
        q3: code(
            "sv8-canonical-q3",
            &[(1, 1), (3, 1), (4, 1), (5, 1), (6, 1), (7, 24), (8, 20)],
            pairs(3),
        ),
        q4: code(
            "sv8-canonical-q4",
            &[(3, 1), (5, 1), (6, 32), (7, 43), (8, 1), (9, 1), (10, 2)],
            pairs(4),
        ),
        q5: [
            code("sv8-canonical-q5-1", &[(1, 1), (3, 1), (4, 1), (5, 9), (6, 1), (7, 2)], levels(7)),
            code("sv8-canonical-q5-2", &[(1, 1), (4, 3), (5, 9), (6, 2)], levels(7)),
        ],
        q6: [
            code(
                "sv8-canonical-q6-1",
                &[(1, 1), (3, 1), (4, 1), (5, 1), (6, 11), (7, 13), (8, 1), (9, 2)],
                levels(15),
            ),
            code("sv8-canonical-q6-2", &[(1, 1), (4, 1), (5, 1), (6, 24), (7, 4)], levels(15)),
        ],
        q7: [
            code(
                "sv8-canonical-q7-1",
                &[(1, 1), (3, 1), (4, 1), (5, 1), (6, 1), (7, 12), (8, 43), (9, 1), (10, 2)],
                levels(31),
            ),
            code("sv8-canonical-q7-2", &[(1, 1), (5, 1), (6, 1), (7, 56), (8, 4)], levels(31)),
        ],
        q8: [
            code(
                "sv8-canonical-q8-1",
                &[(1, 1), (3, 1), (4, 1), (5, 1), (6, 1), (7, 1), (8, 14), (9, 103), (10, 1), (11, 1), (12, 2)],
                levels(63),
            ),
            code("sv8-canonical-q8-2", &[(1, 1), (7, 3), (8, 121), (9, 2)], levels(63)),
        ],
        q9up: code(
            "sv8-canonical-q9up",
            &[(1, 1), (6, 1), (7, 1), (8, 1), (9, 232), (10, 20)],
            (i8::MIN..=i8::MAX).collect(),
        ),
    }))
}

fn bands_table() -> &'static Sv8CanonicalTable {
    &set().bands
}

struct BitPacker {
    bytes: Vec<u8>,
    acc: u32,
    nbits: u8,
}

impl BitPacker {
    fn new() -> Self {
        BitPacker {
            bytes: Vec::new(),
            acc: 0,
            nbits: 0,
        }
    }
    fn push(&mut self, pattern: u16, length: u8) {
        for i in 0..length {
            let bit = (pattern >> (15 - i)) & 1;
            self.acc = (self.acc << 1) | bit as u32;
            self.nbits += 1;
            if self.nbits == 8 {
                self.bytes.push(self.acc as u8);
                self.acc = 0;
                self.nbits = 0;
            }
        }
    }
    fn into_bytes(mut self) -> Vec<u8> {
        if self.nbits > 0 {
            self.bytes.push((self.acc << (8 - self.nbits)) as u8);
        }
        self.bytes
    }
}

fn codeword_for_symbol(table: &Sv8CanonicalTable, target: i8) -> Option<(u16, u8)> {
    let mut upper: u32 = 0x1_0000;
    for e in table.lengths.iter() {
        if e.length == 0 {
            continue;
        }
        let step = 1u32 << (16 - e.length as u32);
        let mut pat = e.code as u32;
        while pat < upper {
            let mut p = BitPacker::new();
            p.push(pat as u16, e.length);
            let mut bytes = p.into_bytes();
            bytes.push(0);
            bytes.push(0);
            let mut r = Sv7BitReader::new(&bytes);
            if table.decode(&mut r).unwrap() == target {
                return Some((pat as u16, e.length));
            }
            pat += step;
        }
        upper = e.code as u32;
    }
    None
}

fn log_encode(v: u32, max: u32) -> (u16, u8) {
    if max <= 1 {
        return (0, 0);
    }
    let mut bitlen: u8 = 0;
    while (1u32 << bitlen) < max {
        bitlen += 1;
    }
    let lost = (1u32 << bitlen) - max;
    if v < lost {
        let len = bitlen - 1;
        ((v as u16) << (16 - len), len)
    } else {
        (((v + lost) as u16) << (16 - bitlen), bitlen)
    }
}

fn sh_payload(max_band: u8, channels: u8, block_power: u8, sample_count: u8) -> Vec<u8> {
    let mut out = Vec::new();
    out.extend_from_slice(&[0, 0, 0, 0]);
    out.push(8);
    out.push(sample_count & 0x7F);
    out.push(0);
    let packed: u16 = (((max_band - 1) as u16 & 0x1F) << 8)
        | (((channels - 1) as u16 & 0xF) << 4)
        | (block_power as u16 & 0x7);
    out.push((packed >> 8) as u8);
    out.push((packed & 0xFF) as u8);
    out
}

fn packet(key: &[u8; 2], payload: &[u8]) -> Vec<u8> {
    let total = 2 + 1 + payload.len();
    assert!(total < 128, "test payloads stay single-varint-byte");
    let mut out = Vec::new();
    out.extend_from_slice(key);
    out.push(total as u8);
    out.extend_from_slice(payload);
    out
}

fn mpck_stream(packets: &[Vec<u8>]) -> Vec<u8> {
    let mut out = b"MPCK".to_vec();
    for p in packets {
        out.extend_from_slice(p);
    }
    out
}

fn silent_ap(max_band: u8, frames: u32) -> Vec<u8> {
    let mut p = BitPacker::new();
    let (pat, len) = log_encode(0, max_band as u32 + 2);
    p.push(pat, len);
    {
        let mut probe = BitPacker::new();
        probe.push(pat, len);
        let mut bytes = probe.into_bytes();
        bytes.push(0);
        bytes.push(0);
        let mut r = Sv7BitReader::new(&bytes);
        assert_eq!(decode_keyframe_max_used_band(&mut r, max_band).unwrap(), 0);
    }
    let (b0, bl0) = codeword_for_symbol(bands_table(), 0).expect("bands sym 0");
    for _ in 1..frames {
        p.push(b0, bl0);
    }
    p.into_bytes()
}

fn is_silent(out: &Sv8DecodedStream) -> bool {
    out.frames.iter().all(|f| {
        f.res.iter().all(|r| *r == [0, 0])
            && f.levels.iter().all(|b| b.iter().all(|ch| ch.iter().all(|&l| l == 0)))
    })
}

#[test]
fn decodes_silent_stereo_stream_with_gapless_trim() {
    let max_band = 4;
    let sh = packet(b"SH", &sh_payload(max_band, 2, 0, 100));
    let ap = packet(b"AP", &silent_ap(max_band, 1));
    let se = packet(b"SE", &[]);
    let buf = mpck_stream(&[sh, ap, se]);
    let out = decode_sv8_stream(set(), &buf).unwrap();
    assert_eq!(out.header.channels, 2);
    assert_eq!(out.audio_packets, 1);
    assert_eq!(out.frames_decoded, 1);
    assert_eq!(out.pcm_len(), 2 * 100);
    assert!(is_silent(&out));
}

#[test]
fn chains_non_key_frames_inside_one_multi_frame_packet() {
    let max_band = 4;
    let sh = packet(b"SH", &sh_payload(max_band, 2, 1, 127));
    let ap = packet(b"AP", &silent_ap(max_band, 1));
    let buf = mpck_stream(&[sh, ap]);
    let out = decode_sv8_stream(set(), &buf).unwrap();
    assert_eq!(out.header.frames_per_audio_packet(), 4);
    assert_eq!(out.frames_decoded, 1, "totals bound the frame count");
    assert_eq!(out.pcm_len(), 2 * 127);
}

#[test]
fn extra_audio_packets_past_the_totals_are_skipped() {
    let max_band = 4;
    let sh = packet(b"SH", &sh_payload(max_band, 2, 0, 127));
    let ap1 = packet(b"AP", &silent_ap(max_band, 1));
    let ap2 = packet(b"AP", &silent_ap(max_band, 1));
    let buf = mpck_stream(&[sh, ap1, ap2]);
    let out = decode_sv8_stream(set(), &buf).unwrap();
    assert_eq!(out.audio_packets, 1, "second AP is past the totals");
    assert_eq!(out.frames_decoded, 1);
    assert_eq!(out.pcm_len(), 2 * 127);
}

#[test]
fn mono_output_takes_one_channel() {
    let max_band = 4;
    let sh = packet(b"SH", &sh_payload(max_band, 1, 0, 64));
    let ap = packet(b"AP", &silent_ap(max_band, 1));
    let buf = mpck_stream(&[sh, ap]);
    let out = decode_sv8_stream(set(), &buf).unwrap();
    assert_eq!(out.header.channels, 1);
    assert_eq!(out.pcm_len(), 64, "mono: one value per sample");
    assert!(is_silent(&out));
}

#[test]
fn rejects_non_mpck() {
    assert_eq!(
        decode_sv8_stream(set(), b"NOPE....").err(),
        Some(Error::InvalidMagic)
    );
}

#[test]
fn rejects_more_than_two_channels() {
    let sh = packet(b"SH", &sh_payload(4, 3, 0, 16));
    let buf = mpck_stream(&[sh]);
    assert_eq!(
        decode_sv8_stream(set(), &buf).err(),
        Some(Error::ChannelCountInvalid(3))
    );
}

#[test]
fn audio_before_header_is_rejected() {
    let ap = packet(b"AP", &silent_ap(4, 1));
    let buf = mpck_stream(&[ap]);
    assert_eq!(decode_sv8_stream(set(), &buf).err(), Some(Error::NotImplemented));
}

#[test]
fn stream_without_header_is_rejected() {
    let se = packet(b"SE", &[]);
    let buf = mpck_stream(&[se]);
    assert_eq!(decode_sv8_stream(set(), &buf).err(), Some(Error::NotImplemented));
}

#[test]
fn truncated_packet_is_rejected() {
    let max_band = 4;
    let sh = packet(b"SH", &sh_payload(max_band, 2, 0, 100));
    let mut ap = packet(b"AP", &silent_ap(max_band, 1));
    ap.truncate(ap.len().saturating_sub(1));
    let buf = mpck_stream(&[sh, ap]);
    assert!(decode_sv8_stream(set(), &buf).is_err());
}
