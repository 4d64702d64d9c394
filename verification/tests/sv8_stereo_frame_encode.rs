//! Writing the two-channel frame body.

#![allow(dead_code)]

use oxideav_musepack::bit_reader::Sv7BitReader;
use oxideav_musepack::bit_writer::Sv7BitWriter;
use oxideav_musepack::cns::{CnsPrng, SAMPLES_PER_BAND};
use oxideav_musepack::error::Error;
use oxideav_musepack::sv8_huffman::{Sv8CanonicalEntry, Sv8CanonicalTable, Sv8TableSet};
use oxideav_musepack::sv8_stereo_frame::{
    Sv8FrameState, Sv8StereoFrameDecode, decode_sv8_stereo_frame,
};
use oxideav_musepack::sv8_stereo_frame_encode::{dscf_delta_for, encode_sv8_stereo_frame};

/// A complete code: `shape` says how many of the symbols, in their order, have code words of
/// each length.
fn code(name: &'static str, shape: &[(u8, u32)], symbols: Vec<i8>) -> Sv8CanonicalTable {
    let mut rows = Vec::new();
    let mut bottom = 0x1_0000_u32;
    let mut index = 0_u32;
    for &(length, count) in shape {
        let step = 1_u32 << (16 - length);
        let top = bottom / step;
        bottom -= count * step;
        rows.push(Sv8CanonicalEntry {
            code: bottom as u16,
            length,
            cum_index: (index + top - 1) as i16,
        });
        index += count;
    }
    Sv8CanonicalTable { lengths: rows.leak(), symbols: symbols.leak(), name }
}

fn pairs(bound: i8) -> Vec<i8> {
    let mut out = Vec::new();
    for hi in -bound..=bound {
        for lo in -bound..=bound {
            out.push((hi << 4) | (lo & 15));
        }
    }
    out
}

fn triples() -> Vec<i8> {
    let mut out: Vec<i8> = vec![62];
    out.extend((0..125_i8).filter(|&s| s != 62));
    out
}

fn levels(bound: i8) -> Vec<i8> {
    let mut out = vec![0];
    for l in 1..=bound {
        out.push(l);
        out.push(-l);
    }
    out
}

fn set() -> &'static Sv8TableSet {
    Box::leak(Box::new(Sv8TableSet {
        bands: code(
            "sv8-canonical-bands",
            &[(1, 1), (3, 1), (4, 1), (5, 1), (6, 13), (7, 9), (8, 1), (9, 1), (10, 1), (11, 1), (12, 1), (13, 2)],
            (0..33).collect(),
        ),
        res: [
            code(
                "sv8-canonical-res-1",
                &[
                    (1, 1), (2, 1), (3, 1), (4, 1), (5, 1), (6, 1), (7, 1), (8, 1), (9, 1), (10, 1), (11, 1),
                    (12, 1), (13, 1), (14, 1), (15, 1), (16, 2),
                ],
                (0..17).collect(),
            ),
            code(
                "sv8-canonical-res-2",
                &[(1, 1), (3, 1), (4, 5), (5, 1), (6, 1), (7, 1), (8, 1), (9, 1), (10, 1), (11, 1), (12, 1), (13, 2)],
                (0..17).collect(),
            ),
        ],
        scfi: [
            code("sv8-canonical-scfi-1", &[(1, 1), (2, 1), (3, 2)], (0..4).collect()),
            code(
                "sv8-canonical-scfi-2",
                &[(1, 1), (3, 1), (4, 1), (5, 7), (6, 6)],
                (0..16).collect(),
            ),
        ],
        dscf: [
            code(
                "sv8-canonical-dscf-1",
                &[(1, 1), (3, 1), (4, 1), (5, 1), (6, 1), (7, 14), (8, 39), (9, 1), (10, 1), (11, 1), (12, 1), (13, 2)],
                (0..64).collect(),
            ),
            code(
                "sv8-canonical-dscf-2",
                &[
                    (1, 1), (3, 1), (4, 1), (5, 1), (6, 1), (7, 14), (8, 39), (9, 1), (10, 1), (11, 1), (12, 1),
                    (13, 1), (14, 2),
                ],
                (0..65).collect(),
            ),
        ],
        q1: code(
            "sv8-canonical-q1",
            &[(3, 5), (4, 5), (5, 1), (6, 1), (7, 1), (8, 1), (9, 1), (10, 1), (11, 1), (12, 2)],
            (0..19).collect(),
        ),
        q2: [
            code(
                "sv8-canonical-q2-1",
                &[(1, 1), (3, 1), (4, 1), (5, 1), (6, 1), (7, 1), (8, 15), (9, 101), (10, 1), (11, 2)],
                triples(),
            ),
            code(
                "sv8-canonical-q2-2",
                &[(1, 1), (3, 1), (4, 1), (5, 1), (6, 1), (7, 1), (8, 14), (9, 103), (10, 2)],
                triples(),
            ),
        ],
        q3: code(
            "sv8-canonical-q3",
            &[(1, 1), (3, 1), (4, 1), (5, 1), (6, 1), (7, 24), (8, 20)],
            pairs(3),
        ),
        q4: code(
            "sv8-canonical-q4",
            &[(3, 1), (5, 1), (6, 32), (7, 43), (8, 1), (9, 1), (10, 2)],
            pairs(4),
        ),
        q5: [
            code("sv8-canonical-q5-1", &[(1, 1), (3, 1), (4, 1), (5, 9), (6, 1), (7, 2)], levels(7)),
            code("sv8-canonical-q5-2", &[(1, 1), (4, 3), (5, 9), (6, 2)], levels(7)),
        ],
        q6: [
            code(
                "sv8-canonical-q6-1",
                &[(1, 1), (3, 1), (4, 1), (5, 1), (6, 11), (7, 13), (8, 1), (9, 2)],
                levels(15),
            ),
            code("sv8-canonical-q6-2", &[(1, 1), (4, 1), (5, 1), (6, 24), (7, 4)], levels(15)),
        ],
        q7: [
            code(
                "sv8-canonical-q7-1",
                &[(1, 1), (3, 1), (4, 1), (5, 1), (6, 1), (7, 12), (8, 43), (9, 1), (10, 2)],
                levels(31),
            ),
            code("sv8-canonical-q7-2", &[(1, 1), (5, 1), (6, 1), (7, 56), (8, 4)], levels(31)),
        ],
        q8: [
            code(
                "sv8-canonical-q8-1",
                &[(1, 1), (3, 1), (4, 1), (5, 1), (6, 1), (7, 1), (8, 14), (9, 103), (10, 1), (11, 1), (12, 2)],
                levels(63),
            ),
            code("sv8-canonical-q8-2", &[(1, 1), (7, 3), (8, 121), (9, 2)], levels(63)),
        ],
        q9up: code(
            "sv8-canonical-q9up",
            &[(1, 1), (6, 1), (7, 1), (8, 1), (9, 232), (10, 20)],
            (i8::MIN..=i8::MAX).collect(),
        ),
    }))
}

fn round_trip(bytes: &[u8], max_band: u8, keyframe: bool, stream_ms: bool) {
    let mut padded = bytes.to_vec();
    padded.extend_from_slice(&[0, 0]);
    let mut reader = Sv7BitReader::new(&padded);
    let total = reader.bits_remaining();
    let mut dstate = Sv8FrameState::new();
    let mut cns = CnsPrng::new();
    let frame = decode_sv8_stereo_frame(set(), &mut reader,
        max_band,
        keyframe,
        stream_ms,
        &mut dstate,
        &mut cns,
    )
    .expect("decode");
    let consumed = total - reader.bits_remaining();
    let mut estate = Sv8FrameState::new();
    let mut w = Sv7BitWriter::new();
    encode_sv8_stereo_frame(set(), &mut w, &frame, max_band, keyframe, stream_ms, &mut estate)
        .expect("encode");
    assert_eq!(w.bit_len(), u128::from(consumed), "bit count");
    assert_eq!(estate, dstate, "cross-frame state agrees");
    let emitted = w.finish();
    let full_bytes = (consumed / 8) as usize;
    assert_eq!(&emitted[..full_bytes], &bytes[..full_bytes]);
    let tail_bits = (consumed % 8) as u8;
    if tail_bits > 0 {
        let m = 0xFFu8 << (8 - tail_bits);
        assert_eq!(emitted[full_bytes] & m, bytes[full_bytes] & m);
    }
}

#[test]
fn rejects_undersized_structure() {
    let frame = Sv8StereoFrameDecode {
        nbands: 2,
        res: vec![[0, 0]],
        ms_flags: vec![false],
        scfi: vec![[0, 0]],
        granule_scf: vec![[[0; 3]; 2]],
        levels: vec![[[0; SAMPLES_PER_BAND]; 2]],
    };
    let mut w = Sv7BitWriter::new();
    let mut st = Sv8FrameState::new();
    assert!(matches!(
        encode_sv8_stereo_frame(set(), &mut w, &frame, 4, true, true, &mut st),
        Err(Error::MaxBandOutOfRange(2))
    ));
}

#[test]
fn dscf_delta_inverse_matches_fold_over_the_ring() {
    let fold = |p: i32, d: i32| ((p - 25 + d) & 127) - 6;
    for prev in -6..=121 {
        for target in -6..=121 {
            let d = dscf_delta_for(prev, target);
            assert!((0..=127).contains(&d));
            assert_eq!(fold(prev, d), target, "prev {prev} target {target}");
        }
    }
}

/// Writes a frame and reads it back, and writes what was read.
fn written(frame: &Sv8StereoFrameDecode, max_band: u8, stream_ms: bool) -> Vec<u8> {
    let mut w = Sv7BitWriter::new();
    let mut state = Sv8FrameState::new();
    encode_sv8_stereo_frame(set(), &mut w, frame, max_band, true, stream_ms, &mut state).unwrap();
    w.finish()
}

#[test]
fn keyframes_of_every_arm_round_trip_bit_exactly() {
    let mut ramp = [0_i32; SAMPLES_PER_BAND];
    for (k, l) in ramp.iter_mut().enumerate() {
        *l = k as i32 % 3 - 1;
    }
    let mut wide = ramp;
    wide[7] = 100;
    wide[8] = -127;
    let frame = Sv8StereoFrameDecode {
        nbands: 6,
        res: vec![[1, 2], [3, 4], [5, 0], [-1, 8], [9, 12], [15, 15]],
        ms_flags: vec![true, false, true, false, false, true],
        scfi: vec![[0, 3], [1, 2], [3, 0], [3, 3], [0, 0], [2, 1]],
        granule_scf: vec![
            [[10, 12, 9], [5, 5, 5]],
            [[40, 41, 41], [7, 7, 100]],
            [[-6, -6, -6], [0, 0, 0]],
            [[50, 50, 50], [121, 121, 121]],
            [[1, 2, 3], [3, 2, 1]],
            [[20, 20, 30], [20, 30, 30]],
        ],
        levels: vec![
            [ramp, ramp],
            [ramp, ramp],
            [ramp, [0; SAMPLES_PER_BAND]],
            [[0; SAMPLES_PER_BAND], ramp],
            [wide, wide],
            [wide, ramp],
        ],
    };
    let bytes = written(&frame, 20, true);
    round_trip(&bytes, 20, true, true);
}
