//! Composing whole streams.

#![allow(dead_code)]

use oxideav_musepack::bit_writer::Sv7BitWriter;
use oxideav_musepack::cns::SAMPLES_PER_BAND;
use oxideav_musepack::error::Error;
use oxideav_musepack::framing::{PacketKey, PacketStream, parse_varint};
use oxideav_musepack::packets::{
    ei_payload, rg_payload, sh_payload, varint_len, write_packet, write_varint,
};
use oxideav_musepack::stream_headers::{
    EncoderInfoFields, ReplayGainFields, StreamHeaderFields, frames_per_packet,
};
use oxideav_musepack::sv8_crc::sv8_crc32;
use oxideav_musepack::sv8_decode::{decode_sv8_stream, heard_range};
use oxideav_musepack::sv8_file_encode::{
    ANALYSIS_SYNTHESIS_DELAY, Sv8EncodedStream, Sv8StreamSettings, encode_sv8_frames,
    gapless_geometry, samples_per_channel, source_index, stream_prefix,
};
use oxideav_musepack::sv8_frame_build::{ChannelCandidate, ElectedBand, build_sv8_stereo_frame};
use oxideav_musepack::sv8_huffman::{Sv8CanonicalEntry, Sv8CanonicalTable, Sv8TableSet};
use oxideav_musepack::sv8_quantize::QuantizedBand;
use oxideav_musepack::sv8_reconstruct::reconstruct_sv8_stereo_frame;
use oxideav_musepack::sv8_seek::{SeekOffsetFields, SeekTable, SeekTableFields};
use oxideav_musepack::sv8_seek_index::{Sv8SeekIndex, decode_sv8_from_entry};
use oxideav_musepack::sv8_stereo_frame::{Sv8FrameState, Sv8StereoFrameDecode};
use oxideav_musepack::sv8_stereo_frame_encode::encode_sv8_stereo_frame;
use oxideav_musepack::sv8_stream::Sv8StreamDecoder;

/// A complete code: `shape` says how many of the symbols, in their order, have code words of
/// each length.
fn code(name: &'static str, shape: &[(u8, u32)], symbols: Vec<i8>) -> Sv8CanonicalTable {
    let mut rows = Vec::new();
    let mut bottom = 0x1_0000_u32;
    let mut index = 0_u32;
    for &(length, count) in shape {
        let step = 1_u32 << (16 - length);
        let top = bottom / step;
        bottom -= count * step;
        rows.push(Sv8CanonicalEntry {
            code: bottom as u16,
            length,
            cum_index: (index + top - 1) as i16,
        });
        index += count;
    }
    Sv8CanonicalTable { lengths: rows.leak(), symbols: symbols.leak(), name }
}

fn pairs(bound: i8) -> Vec<i8> {
    let mut out = Vec::new();
    for hi in -bound..=bound {
        for lo in -bound..=bound {
            out.push((hi << 4) | (lo & 15));
        }
    }
    out
}

fn triples() -> Vec<i8> {
    let mut out: Vec<i8> = vec![62];
    out.extend((0..125_i8).filter(|&s| s != 62));
    out
}

fn levels(bound: i8) -> Vec<i8> {
    let mut out = vec![0];
    for l in 1..=bound {
        out.push(l);
        out.push(-l);
    }
    out
}

fn set() -> &'static Sv8TableSet {
    Box::leak(Box::new(Sv8TableSet {
        bands: code(
            "sv8-canonical-bands",
            &[(1, 1), (3, 1), (4, 1), (5, 1), (6, 13), (7, 9), (8, 1), (9, 1), (10, 1), (11, 1), (12, 1), (13, 2)],
            (0..33).collect(),
        ),
        res: [
            code(
                "sv8-canonical-res-1",
                &[
                    (1, 1), (2, 1), (3, 1), (4, 1), (5, 1), (6, 1), (7, 1), (8, 1), (9, 1), (10, 1), (11, 1),
                    (12, 1), (13, 1), (14, 1), (15, 1), (16, 2),
                ],
                (0..17).collect(),
            ),
            code(
                "sv8-canonical-res-2",
                &[(1, 1), (3, 1), (4, 5), (5, 1), (6, 1), (7, 1), (8, 1), (9, 1), (10, 1), (11, 1), (12, 1), (13, 2)],
                (0..17).collect(),
            ),
        ],
        scfi: [
            code("sv8-canonical-scfi-1", &[(1, 1), (2, 1), (3, 2)], (0..4).collect()),
            code(
                "sv8-canonical-scfi-2",
                &[(1, 1), (3, 1), (4, 1), (5, 7), (6, 6)],
                (0..16).collect(),
            ),
        ],
        dscf: [
            code(
                "sv8-canonical-dscf-1",
                &[(1, 1), (3, 1), (4, 1), (5, 1), (6, 1), (7, 14), (8, 39), (9, 1), (10, 1), (11, 1), (12, 1), (13, 2)],
                (0..64).collect(),
            ),
            code(
                "sv8-canonical-dscf-2",
                &[
                    (1, 1), (3, 1), (4, 1), (5, 1), (6, 1), (7, 14), (8, 39), (9, 1), (10, 1), (11, 1), (12, 1),
                    (13, 1), (14, 2),
                ],
                (0..65).collect(),
            ),
        ],
        q1: code(
            "sv8-canonical-q1",
            &[(3, 5), (4, 5), (5, 1), (6, 1), (7, 1), (8, 1), (9, 1), (10, 1), (11, 1), (12, 2)],
            (0..19).collect(),
        ),
        q2: [
            code(
                "sv8-canonical-q2-1",
                &[(1, 1), (3, 1), (4, 1), (5, 1), (6, 1), (7, 1), (8, 15), (9, 101), (10, 1), (11, 2)],
                triples(),
            ),
            code(
                "sv8-canonical-q2-2",
                &[(1, 1), (3, 1), (4, 1), (5, 1), (6, 1), (7, 1), (8, 14), (9, 103), (10, 2)],
                triples(),
            ),
        ],
        q3: code(
            "sv8-canonical-q3",
            &[(1, 1), (3, 1), (4, 1), (5, 1), (6, 1), (7, 24), (8, 20)],
            pairs(3),
        ),
        q4: code(
            "sv8-canonical-q4",
            &[(3, 1), (5, 1), (6, 32), (7, 43), (8, 1), (9, 1), (10, 2)],
            pairs(4),
        ),
        q5: [
            code("sv8-canonical-q5-1", &[(1, 1), (3, 1), (4, 1), (5, 9), (6, 1), (7, 2)], levels(7)),
            code("sv8-canonical-q5-2", &[(1, 1), (4, 3), (5, 9), (6, 2)], levels(7)),
        ],
        q6: [
            code(
                "sv8-canonical-q6-1",
                &[(1, 1), (3, 1), (4, 1), (5, 1), (6, 11), (7, 13), (8, 1), (9, 2)],
                levels(15),
            ),
            code("sv8-canonical-q6-2", &[(1, 1), (4, 1), (5, 1), (6, 24), (7, 4)], levels(15)),
        ],
        q7: [
            code(
                "sv8-canonical-q7-1",
                &[(1, 1), (3, 1), (4, 1), (5, 1), (6, 1), (7, 12), (8, 43), (9, 1), (10, 2)],
                levels(31),
            ),
            code("sv8-canonical-q7-2", &[(1, 1), (5, 1), (6, 1), (7, 56), (8, 4)], levels(31)),
        ],
        q8: [
            code(
                "sv8-canonical-q8-1",
                &[(1, 1), (3, 1), (4, 1), (5, 1), (6, 1), (7, 1), (8, 14), (9, 103), (10, 1), (11, 1), (12, 2)],
                levels(63),
            ),
            code("sv8-canonical-q8-2", &[(1, 1), (7, 3), (8, 121), (9, 2)], levels(63)),
        ],
        q9up: code(
            "sv8-canonical-q9up",
            &[(1, 1), (6, 1), (7, 1), (8, 1), (9, 232), (10, 20)],
            (i8::MIN..=i8::MAX).collect(),
        ),
    }))
}

fn settings() -> Sv8StreamSettings {
    Sv8StreamSettings { stream_ms: true, max_band: 31, block_power: 3, profile: 80, pns: false }
}

fn silent_frames(n: u64) -> Vec<Sv8StereoFrameDecode> {
    (0..n).map(|_| build_sv8_stereo_frame(&[], 31).unwrap()).collect()
}

/// The stream of `n` silent samples per channel.
fn silent_stream(n: u64, channels: u8, freq: u8, s: &Sv8StreamSettings) -> Sv8EncodedStream {
    let geometry = gapless_geometry(n);
    let prefix = stream_prefix(&geometry, channels, freq, s).unwrap();
    encode_sv8_frames(set(), prefix, &silent_frames(geometry.frames), s).unwrap()
}

fn is_silent(frames: &[Sv8StereoFrameDecode]) -> bool {
    frames.iter().all(|f| {
        let (l, r) = reconstruct_sv8_stereo_frame(f).unwrap();
        l.iter().chain(&r).all(|row| row.levels.iter().all(|&x| x == 0))
    })
}

#[test]
fn varint_round_trips() {
    for v in [
        0u64,
        1,
        0x7F,
        0x80,
        0x3FFF,
        0x4000,
        22_050,
        u64::from(u32::MAX),
        (1u64 << 63) - 1,
    ] {
        let mut buf = Vec::new();
        write_varint(&mut buf, v);
        assert_eq!(buf.len(), varint_len(v), "value {v}");
        let (parsed, used) = parse_varint(&buf).unwrap();
        assert_eq!((parsed, used), (v, buf.len()), "value {v}");
    }
}

#[test]
fn packet_size_fixed_point_around_varint_boundary() {
    for payload_len in [0usize, 1, 122, 123, 124, 125, 200, 16_381, 16_382, 16_383] {
        let payload: Vec<u8> = (0..payload_len).map(|i| i as u8).collect();
        let mut buf = Vec::new();
        write_packet(&mut buf, *b"AP", &payload);
        let mut stream = PacketStream::new(&buf);
        let p = stream.next_packet().unwrap().expect("one packet");
        assert_eq!(p.payload, &payload[..], "payload_len {payload_len}");
        assert!(stream.next_packet().unwrap().is_none());
    }
}

#[test]
fn sh_payload_parses_back_with_valid_crc() {
    let payload = sh_payload(22_050, 481, 0, 28, 2, true, 3).unwrap();
    let fields = StreamHeaderFields::parse(&payload).unwrap();
    assert_eq!(fields.sample_count, 22_050);
    assert_eq!(fields.beginning_silence, 481);
    assert_eq!(fields.sample_freq_index, 0);
    assert_eq!(fields.max_band, 28);
    assert_eq!(fields.channels, 2);
    assert!(fields.mid_side);
    assert_eq!(fields.block_power, 3);
    assert_eq!(fields.crc, sv8_crc32(&payload[4..]));
}

#[test]
fn sh_payload_field_bounds() {
    assert!(matches!(
        sh_payload(0, 0, 4, 28, 2, true, 3),
        Err(Error::HeaderFieldOutOfRange("sample_freq_index"))
    ));
    assert!(matches!(
        sh_payload(0, 0, 0, 0, 2, true, 3),
        Err(Error::MaxBandOutOfRange(0))
    ));
    assert!(matches!(
        sh_payload(0, 0, 0, 28, 0, true, 3),
        Err(Error::HeaderFieldOutOfRange("channels"))
    ));
    assert!(matches!(
        sh_payload(0, 0, 0, 28, 2, true, 8),
        Err(Error::HeaderFieldOutOfRange("block_power"))
    ));
}

#[test]
fn rg_ei_payloads_parse_back() {
    let rg = ReplayGainFields::parse(&rg_payload(1, 2, 3, 4)).unwrap();
    assert_eq!((rg.title_gain, rg.title_peak, rg.album_gain, rg.album_peak), (1, 2, 3, 4));

    let ei = EncoderInfoFields::parse(&ei_payload(80, false, 0, 1, 0).unwrap()).unwrap();
    assert_eq!(ei.profile_int(), 10);
    assert!(!ei.pns);
    assert!(matches!(
        ei_payload(0x80, false, 0, 0, 0),
        Err(Error::HeaderFieldOutOfRange("profile"))
    ));
}

#[test]
fn silent_stereo_stream_decodes_to_exact_silence() {
    let n = 3000;
    let enc = silent_stream(n, 2, 0, &settings());
    assert_eq!(enc.frames, 4);
    assert_eq!(enc.audio_packets, 1);

    let mut stream = PacketStream::new(&enc.bytes[4..]);
    let mut kinds = Vec::new();
    while let Some(p) = stream.next_packet().unwrap() {
        kinds.push(format!("{:?}", p.key));
        if kinds.last().map(String::as_str) == Some("StreamEnd") {
            break;
        }
    }
    assert_eq!(
        kinds,
        [
            "StreamHeader",
            "ReplayGain",
            "EncoderInfo",
            "SeekTableOffset",
            "AudioPacket",
            "SeekTable",
            "StreamEnd"
        ]
    );

    let out = decode_sv8_stream(set(), &enc.bytes).unwrap();
    assert_eq!(out.pcm_len(), 2 * u128::from(n));
    assert!(is_silent(&out.frames));
}

#[test]
fn mono_stream_shape() {
    let n = 2000;
    let enc = silent_stream(n, 1, 1, &settings());
    let out = decode_sv8_stream(set(), &enc.bytes).unwrap();
    assert_eq!(out.header.channels, 1);
    assert_eq!(out.header.sample_rate_hz(), Some(48_000));
    assert_eq!(out.pcm_len(), u128::from(n));
}

#[test]
fn rejects_bad_channel_shapes() {
    assert!(matches!(samples_per_channel(10, 3), Err(Error::ChannelCountInvalid(3))));
    assert!(matches!(samples_per_channel(11, 2), Err(Error::ChannelCountInvalid(2))));
    assert!(matches!(samples_per_channel(0, 0), Err(Error::ChannelCountInvalid(0))));
    assert_eq!(samples_per_channel(12, 2), Ok(6));
    assert_eq!(samples_per_channel(11, 1), Ok(11));
}

#[test]
fn block_power_zero_puts_one_frame_per_packet() {
    let n = 2400;
    let s = Sv8StreamSettings { block_power: 0, ..settings() };
    let enc = silent_stream(n, 2, 0, &s);
    assert_eq!(enc.frames, 3);
    assert_eq!(enc.audio_packets, 3);
    let out = decode_sv8_stream(set(), &enc.bytes).unwrap();
    assert_eq!(out.header.frames_per_audio_packet(), 1);
    assert_eq!(out.audio_packets, 3);
    assert_eq!(out.pcm_len(), 2 * u128::from(n));
}

#[test]
fn encoded_sh_crc_is_self_consistent() {
    let enc = silent_stream(512, 1, 0, &settings());
    let mut stream = PacketStream::new(&enc.bytes[4..]);
    while let Some(p) = stream.next_packet().unwrap() {
        if p.key == PacketKey::StreamHeader {
            let fields = StreamHeaderFields::parse(p.payload).unwrap();
            assert_eq!(fields.crc, sv8_crc32(&p.payload[4..]));
            assert_eq!(fields.beginning_silence, 0);
            assert_eq!(fields.sample_count, 512);
            return;
        }
    }
    panic!("no SH packet");
}

#[test]
fn geometry_leaves_room_for_the_delay() {
    for n in 0..5_000 {
        let g = gapless_geometry(n);
        assert_eq!(g.sample_count, n + g.beginning_silence);
        assert!(g.beginning_silence <= 481);
        assert!((1..=671).contains(&(g.sample_count % 1152)));
        assert!(g.frames * 1152 >= g.sample_count + ANALYSIS_SYNTHESIS_DELAY);
    }
    assert_eq!(gapless_geometry(1152).beginning_silence, 1);
    assert_eq!(gapless_geometry(672).beginning_silence, 481);
}

#[test]
fn samples_come_from_behind_the_silence() {
    assert_eq!(source_index(4, 5, 2, 0, 100), None);
    assert_eq!(source_index(5, 5, 2, 1, 100), Some(1));
    assert_eq!(source_index(54, 5, 2, 1, 100), Some(99));
    assert_eq!(source_index(55, 5, 2, 0, 100), None);
    assert_eq!(source_index(u64::MAX, 0, 2, 1, 100), None);
}

/// A frame with levels in every second band.
fn coded_frame(seed: i32) -> Sv8StereoFrameDecode {
    let mut bands = Vec::new();
    for b in 0..12_i32 {
        let mut channels = [ChannelCandidate::empty(); 2];
        for (ch, c) in channels.iter_mut().enumerate() {
            let bt = [1, 0, 3, 5, 9, 12][((b + ch as i32) % 6) as usize];
            if bt == 0 {
                continue;
            }
            let mut levels = [0; SAMPLES_PER_BAND];
            for (k, l) in levels.iter_mut().enumerate() {
                *l = (seed * 7 + b * 5 + k as i32 * 3) % 3 - 1;
            }
            let scf = [b + seed, b + seed, b + seed + 4];
            *c = ChannelCandidate { bt, q: QuantizedBand { scf, levels } };
        }
        bands.push(ElectedBand { ms: b % 3 == 0, channels });
    }
    build_sv8_stereo_frame(&bands, 31).unwrap()
}

#[test]
fn whole_streams_read_back() {
    let s = Sv8StreamSettings { block_power: 1, ..settings() };
    let geometry = gapless_geometry(6 * 1152 + 100);
    let frames: Vec<_> = (0..geometry.frames as i32).map(coded_frame).collect();
    let prefix = stream_prefix(&geometry, 2, 0, &s).unwrap();
    let enc = encode_sv8_frames(set(), prefix, &frames, &s).unwrap();
    assert_eq!((enc.frames, enc.audio_packets), (7, 2));
    let out = decode_sv8_stream(set(), &enc.bytes).unwrap();
    assert_eq!(out.frames, frames);
    assert_eq!(out.frames_decoded, 7);
    assert_eq!(out.audible_window(), (0, 6 * 1152 + 100));
}

#[test]
fn index_leads_to_the_frames_behind_an_entry() {
    let s = Sv8StreamSettings { block_power: 0, ..settings() };
    let geometry = gapless_geometry(4 * 1152 + 100);
    let frames: Vec<_> = (0..geometry.frames as i32).map(coded_frame).collect();
    let prefix = stream_prefix(&geometry, 2, 0, &s).unwrap();
    let enc = encode_sv8_frames(set(), prefix, &frames, &s).unwrap();
    let index = Sv8SeekIndex::from_seek_packets(&enc.bytes).unwrap().expect("a table");
    assert_eq!(index.positions.len(), 3);
    assert_eq!(index.frames_per_entry(), 2);
    assert_eq!(index.entry_for_frame(3), Some((1, 2)));
    let walked = Sv8SeekIndex::from_packet_walk(&enc.bytes).unwrap();
    assert_eq!(walked.positions.len(), 5);
    assert_eq!(walked.positions[2], index.positions[1]);
    let part = decode_sv8_from_entry(set(), &enc.bytes, &index, 1).unwrap();
    assert_eq!(part.first_frame, 2);
    assert_eq!(part.frames, frames[2..]);
    assert_eq!(
        decode_sv8_from_entry(set(), &enc.bytes, &index, 3),
        Err(Error::SeekTableCorrupt("seek entry out of range"))
    );
    let stray = Sv8SeekIndex { positions: vec![4], ..walked };
    assert_eq!(
        decode_sv8_from_entry(set(), &enc.bytes, &stray, 0),
        Err(Error::SeekTableCorrupt("seek entry is not an AP packet"))
    );
}

/// A frame with one noise band and one coded band.
fn noisy_frame(seed: i32) -> Sv8StereoFrameDecode {
    let mut coded = ChannelCandidate::empty();
    coded.bt = 3;
    coded.q.levels[5] = seed % 3;
    coded.q.scf = [seed, seed, seed];
    let bands = [
        ElectedBand { ms: false, channels: [ChannelCandidate::noise(20), coded] },
        ElectedBand { ms: false, channels: [coded, ChannelCandidate::empty()] },
    ];
    build_sv8_stereo_frame(&bands, 31).unwrap()
}

#[test]
fn packets_stand_alone_but_for_their_noise() {
    let s = Sv8StreamSettings { block_power: 0, stream_ms: false, ..settings() };
    let geometry = gapless_geometry(3 * 1152 + 100);
    let frames: Vec<_> = (0..geometry.frames as i32).map(noisy_frame).collect();
    let prefix = stream_prefix(&geometry, 2, 0, &s).unwrap();
    let enc = encode_sv8_frames(set(), prefix, &frames, &s).unwrap();
    let whole = decode_sv8_stream(set(), &enc.bytes).unwrap();
    let index = Sv8SeekIndex::from_packet_walk(&enc.bytes).unwrap();
    let part = decode_sv8_from_entry(set(), &enc.bytes, &index, 2).unwrap();
    assert_eq!(part.frames.len(), 2);
    for (a, b) in part.frames.iter().zip(&whole.frames[2..]) {
        assert_eq!(a.res, [[-1, 3], [3, 0]]);
        assert_eq!((&a.res, &a.scfi, &a.granule_scf), (&b.res, &b.scfi, &b.granule_scf));
        assert_ne!(a.levels[0][0], b.levels[0][0]);
        assert_eq!(a.levels[0][1], b.levels[0][1]);
        assert_eq!(a.levels[1], b.levels[1]);
    }
}

#[test]
fn thinned_indices_keep_to_the_packets() {
    let s = Sv8StreamSettings { block_power: 0, ..settings() };
    let geometry = gapless_geometry(15 * 1152 + 100);
    let prefix = stream_prefix(&geometry, 2, 0, &s).unwrap();
    let enc = encode_sv8_frames(set(), prefix, &silent_frames(geometry.frames), &s).unwrap();
    let walked = Sv8SeekIndex::from_packet_walk(&enc.bytes).unwrap();
    assert_eq!(walked.positions.len(), 16);
    for ceiling in [0, 2, 4, 7, 100] {
        let stored =
            Sv8SeekIndex::from_seek_packets_with_ceiling(&enc.bytes, ceiling).unwrap().unwrap();
        let step = stored.packets_per_entry as usize;
        assert_eq!(stored.frames_per_packet, walked.frames_per_packet);
        assert!(stored.positions.len() * step >= walked.positions.len());
        for (i, &p) in stored.positions.iter().enumerate() {
            assert_eq!(p, walked.positions[i * step]);
        }
        assert!(stored.positions.len() as u64 <= ceiling.max(2));
        let full = Sv8SeekIndex::from_seek_packets_with_ceiling(&enc.bytes, u64::MAX)
            .unwrap()
            .unwrap();
        let times = step / full.packets_per_entry as usize;
        let part: Vec<u64> = full.positions.iter().copied().step_by(times).collect();
        assert_eq!(stored.positions[..part.len()], part[..]);
    }
}

/// A stream with the given packets behind its header.
fn with_packets(packets: &[(&[u8; 2], &[u8])]) -> (Vec<u8>, Vec<u64>) {
    let mut out = b"MPCK".to_vec();
    write_packet(&mut out, *b"SH", &sh_payload(3_000, 0, 0, 28, 2, true, 0).unwrap());
    let mut starts = Vec::new();
    for (key, payload) in packets {
        starts.push(out.len() as u64);
        write_packet(&mut out, **key, payload);
    }
    (out, starts)
}

#[test]
fn entries_that_lead_to_other_packets_are_refused() {
    let (bytes, starts) = with_packets(&[(b"RG", &[0; 9]), (b"ST", &[]), (b"SE", &[])]);
    for &start in &starts {
        let index =
            Sv8SeekIndex { positions: vec![start], packets_per_entry: 1, frames_per_packet: 1 };
        assert_eq!(
            decode_sv8_from_entry(set(), &bytes, &index, 0),
            Err(Error::SeekTableCorrupt("seek entry is not an AP packet"))
        );
    }
}

#[test]
fn tables_that_do_not_parse_are_corrupt() {
    for payload in [&[][..], &[0xFF; 12][..], &[0x03][..]] {
        let so = SeekOffsetFields { st_offset: 8 }.payload().unwrap();
        let (bytes, _) = with_packets(&[(b"SO", &so), (b"ST", payload), (b"SE", &[])]);
        assert!(SeekTableFields::parse(payload).is_err());
        assert!(matches!(
            Sv8SeekIndex::from_seek_packets(&bytes),
            Err(Error::SeekTableCorrupt(_))
        ));
    }
    assert_eq!(SeekTableFields::parse(&[]), Err(Error::UnexpectedEof));
}

#[test]
fn rising_entries_of_35_bits_always_fit() {
    for entries in [
        vec![0, 1, 100_000],
        vec![0, 0, (1 << 35) - 1, (1 << 35) - 1],
        vec![5, (1 << 35) - 2, (1 << 35) - 2, (1 << 35) - 1],
    ] {
        let t = SeekTableFields { seek_pwr_delta: 15, entries };
        assert_eq!(SeekTableFields::parse(&t.payload().unwrap()), Ok(t));
    }
    let far = SeekTableFields { seek_pwr_delta: 1, entries: vec![(1 << 40) - 1, 0, (1 << 40) - 1] };
    assert_eq!(far.payload(), Err(Error::SeekTableCorrupt("residual exceeds Golomb bound")));
}

#[test]
fn indices_without_the_entry_are_answered_whatever_they_count() {
    let huge = Sv8SeekIndex {
        positions: Vec::new(),
        packets_per_entry: u64::MAX,
        frames_per_packet: u64::MAX,
    };
    assert_eq!(huge.entry_for_frame(7), None);
    let (bytes, _) = with_packets(&[(b"SE", &[])]);
    assert_eq!(
        decode_sv8_from_entry(set(), &bytes, &huge, usize::MAX),
        Err(Error::SeekTableCorrupt("seek entry out of range"))
    );
}

#[test]
fn as_many_frames_as_there_are_can_be_asked_for() {
    let (bytes, _) = with_packets(&[(b"SE", &[])]);
    let mut stream = PacketStream::new(&bytes[4..]);
    let sh = stream.next_packet().unwrap().unwrap();
    let header = StreamHeaderFields::parse(sh.payload).unwrap();
    let mut decoder = Sv8StreamDecoder::from_header(&header).unwrap();
    let ap = silent_stream(512, 2, 0, &settings());
    let mut walk = PacketStream::new(&ap.bytes[4..]);
    while let Some(p) = walk.next_packet().unwrap() {
        if p.key == PacketKey::AudioPacket {
            assert_eq!(decoder.decode_audio_packet(set(), p.payload, 1).unwrap().len(), 1);
            assert!(decoder.decode_audio_packet(set(), p.payload, u64::MAX).is_err());
        }
    }
    assert!(decoder.frames_decoded() >= 1);
}

#[test]
fn frames_of_too_many_bands_are_refused_before_anything_is_written() {
    let frame = Sv8StereoFrameDecode {
        nbands: 40,
        res: vec![[-1, -1]; 40],
        ms_flags: vec![false; 40],
        scfi: vec![[3, 3]; 40],
        granule_scf: vec![[[1; 3]; 2]; 40],
        levels: vec![[[0; SAMPLES_PER_BAND]; 2]; 40],
    };
    let mut w = Sv7BitWriter::new();
    let mut state = Sv8FrameState::new();
    assert_eq!(
        encode_sv8_stereo_frame(set(), &mut w, &frame, 31, true, true, &mut state),
        Err(Error::MaxBandOutOfRange(40))
    );
    assert_eq!(w.bit_len(), 0);
    assert_eq!(state, Sv8FrameState::new());
    assert_eq!(
        encode_sv8_frames(set(), Vec::new(), &vec![frame], &settings()),
        Err(Error::MaxBandOutOfRange(40))
    );
}

#[test]
fn silence_before_loud_packets_composes() {
    let s = Sv8StreamSettings { block_power: 4, ..settings() };
    let geometry = gapless_geometry(1_280 * 1152 - 700);
    assert_eq!(geometry.frames, 1_280);
    let loud = coded_frame(1);
    let silent = build_sv8_stereo_frame(&[], 31).unwrap();
    let frames: Vec<_> = (0..geometry.frames)
        .map(|i| if i < 512 { silent.clone() } else { loud.clone() })
        .collect();
    let prefix = stream_prefix(&geometry, 2, 0, &s).unwrap();
    let enc = encode_sv8_frames(set(), prefix, &frames, &s).unwrap();
    assert_eq!(enc.audio_packets, 5);
    let index = Sv8SeekIndex::from_seek_packets(&enc.bytes).unwrap().unwrap();
    assert_eq!(index.positions.len(), 3);
    let (a, b) = (
        index.positions[1] - index.positions[0],
        index.positions[2] - index.positions[1],
    );
    assert!(b - a > 36 * 4096 / 2);
    assert_eq!(decode_sv8_stream(set(), &enc.bytes).unwrap().frames, frames);
}

#[test]
fn the_heard_samples_stand_behind_the_delay() {
    assert_eq!(heard_range((0, 512), 4 * 1152), (962, 1986));
    assert_eq!(heard_range((457, 3457), 2 * 5 * 1152), (1876, 7876));
    assert_eq!(heard_range((5, 10), 970), (970, 970));
    assert_eq!(heard_range((0, u64::MAX), 1000), (962, 1000));
    for n in [0_u64, 1, 671, 672, 1152, 5_000] {
        let g = gapless_geometry(n);
        let (from, to) = heard_range(
            (g.beginning_silence, g.sample_count),
            2 * 1152 * g.frames as usize,
        );
        assert_eq!((to - from) as u64, 2 * n);
    }
}

#[test]
fn faults_of_the_packet_layer() {
    assert_eq!(parse_varint(&[0x80; 10]), Err(Error::VarintTooLong));
    assert_eq!(parse_varint(&[0x81]), Err(Error::UnexpectedEof));
    assert_eq!(parse_varint(&[0x81, 0x00]), Ok((128, 2)));
    assert_eq!(decode_sv8_stream(set(), b"MP+ "), Err(Error::InvalidMagic));
    assert_eq!(decode_sv8_stream(set(), b"MPCK"), Err(Error::NotImplemented));
    let bad = Sv8StreamSettings { profile: 0x80, ..settings() };
    assert_eq!(
        stream_prefix(&gapless_geometry(1), 2, 0, &bad),
        Err(Error::HeaderFieldOutOfRange("profile"))
    );
}
