//! Composing a whole stream from its frames.
//!
//! A stream is the magic, the header packets, the seek offset, the audio packets, the
//! seek table and the stream end.

use crate::bit_writer;
use crate::bit_writer::Sv7BitWriter;
use crate::bits;
use crate::coding::Emit;
use crate::error::{Error, Result};
use crate::framing;
use crate::framing::SV8_MAGIC;
use crate::packets;
use crate::packets::{append_bytes, ei_payload, rg_payload, sh_payload, write_packet};
use crate::stream_headers;
use crate::stream_headers::frames_per_packet;
use crate::sv8_huffman::Sv8TableSet;
use crate::sv8_seek;
use crate::sv8_seek::{SeekOffsetFields, SeekTable, SeekTableFields, SO_PAYLOAD_LEN};
use crate::sv8_stereo_frame;
use crate::sv8_stereo_frame::{FrameMemory, StereoFrame, Sv8FrameState, Sv8StereoFrameDecode};
use crate::sv8_stereo_frame_encode;
use crate::sv8_stereo_frame_encode::encode_sv8_stereo_frame;
use crate::sv8_stream;
use vstd::prelude::*;

verus! {

/// Binary logarithm of the audio packets per seek-table entry.
pub const SEEK_PWR_DELTA: u8 = 1;

/// Samples by which analysis and synthesis together delay the signal.
pub const ANALYSIS_SYNTHESIS_DELAY: u64 = 481;

// ---------------------------------------------------------------------------
// Gapless geometry
// ---------------------------------------------------------------------------

/// Samples per channel of `len` interleaved ones. Other than one or two channels, and a
/// length that they do not divide, are refused.
pub fn samples_per_channel(len: u64, channels: u8) -> (r: Result<u64>)
    ensures
        match r {
            Ok(n) => 1 <= channels <= 2 && n * channels == len,
            Err(e) => (!(1 <= channels <= 2) || len as int % channels as int != 0) && e
                == Error::ChannelCountInvalid(channels),
        },
{
    if channels < 1 || channels > 2 || len % channels as u64 != 0 {
        return Err(Error::ChannelCountInvalid(channels));
    }
    let n: u64 = len / channels as u64;
    assert(n * channels == len) by {
        vstd::arithmetic::div_mod::lemma_fundamental_div_mod(len as int, channels as int);
        vstd::arithmetic::mul::lemma_mul_is_commutative(n as int, channels as int);
    }
    Ok(n)
}

/// Where the sample of channel `ch` that stands at `t` in a stream comes from among `len`
/// interleaved ones: nowhere in the silence before them and in the padding behind.
pub fn source_index(t: u64, silence: u64, channels: u8, ch: u8, len: u64) -> (r: Option<u64>)
    requires
        ch < channels,
    ensures
        r == if t < silence || (t - silence) * channels + ch >= len {
            None
        } else {
            Some(((t - silence) * channels + ch) as u64)
        },
{
    if t < silence {
        return None;
    }
    let behind: u128 = (t - silence) as u128;
    assert(behind * channels <= 0xFFFF_FFFF_FFFF_FFFF * 255) by (nonlinear_arith)
        requires
            behind <= 0xFFFF_FFFF_FFFF_FFFF,
            channels <= 255,
    ;
    let i: u128 = behind * channels as u128 + ch as u128;
    if i >= len as u128 {
        None
    } else {
        Some(i as u64)
    }
}

/// How many samples and frames a stream has.
#[derive(Debug, Clone, Copy, PartialEq, Eq)]
pub struct Sv8Geometry {
    /// Samples per channel before the first one of the signal.
    pub beginning_silence: u64,
    /// Samples per channel, with the silence.
    pub sample_count: u64,
    /// Frames.
    pub frames: u64,
}

/// With `count` samples, the last frame has room for the delay behind them.
pub open spec fn has_room(count: int) -> bool {
    1 <= count % 1152 <= 671
}

/// The geometry of a stream with `n` samples per channel: the least silence with which
/// the last frame has room for the delay of analysis and synthesis.
pub fn gapless_geometry(n: u64) -> (g: Sv8Geometry)
    requires
        n <= u64::MAX - 481,
    ensures
        g.sample_count == n + g.beginning_silence,
        has_room(g.sample_count as int),
        g.beginning_silence <= 481,
        forall|s: int| 0 <= s < g.beginning_silence ==> !has_room(#[trigger] (n + s)),
        g.frames == crate::sv8_decode::frames_for(g.sample_count as nat),
        1152 * g.frames >= g.sample_count + ANALYSIS_SYNTHESIS_DELAY,
        crate::sv8_decode::frames_for((g.sample_count + g.beginning_silence) as nat) == g.frames,
{
    let r: u64 = n % 1152;
    let beginning_silence: u64 = if 1 <= r && r <= 671 {
        0
    } else if r == 0 {
        1
    } else {
        1152 - r + 1
    };
    let sample_count: u64 = n + beginning_silence;
    let frames: u64 = sample_count / 1152 + if sample_count % 1152 > 0 { 1 } else { 0 };
    Sv8Geometry { beginning_silence, sample_count, frames }
}

// ---------------------------------------------------------------------------
// What a stream is written as
// ---------------------------------------------------------------------------

/// The settings of a stream.
#[derive(Debug, Clone, Copy, PartialEq, Eq)]
pub struct Sv8StreamSettings {
    /// Bands may be coded as mid and side.
    pub stream_ms: bool,
    /// Highest band, `1..=31`.
    pub max_band: u8,
    /// Half the binary logarithm of the frames per audio packet, `0..=7`.
    pub block_power: u8,
    /// Quality profile, in eighths.
    pub profile: u8,
    /// The encoder substituted noise.
    pub pns: bool,
}

/// The bytes before the seek offset.
pub open spec fn prefix_bytes(
    g: Sv8Geometry,
    channels: u8,
    freq: u8,
    s: Sv8StreamSettings,
) -> Seq<u8> {
    let body = packets::sh_body(
        g.sample_count,
        g.beginning_silence,
        freq,
        s.max_band,
        channels,
        s.stream_ms,
        s.block_power,
    );
    SV8_MAGIC@ + packets::packet(0x53, 0x48, packets::sh_bytes(body)) + packets::packet(
        0x52,
        0x47,
        seq![1u8, 0u8, 0u8, 0u8, 0u8, 0u8, 0u8, 0u8, 0u8],
    ) + packets::packet(0x45, 0x49, info_bytes(s))
}

/// The payload of the encoder information: version 0.1.0.
pub open spec fn info_bytes(s: Sv8StreamSettings) -> Seq<u8> {
    seq![
        (2 * s.profile + if s.pns {
            1int
        } else {
            0int
        }) as u8,
        0u8,
        1u8,
        0u8,
    ]
}

/// What the frames `i..to` of a packet are written as, its first one being `from`.
pub open spec fn emit_run(
    tables: Sv8TableSet,
    frames: Seq<StereoFrame>,
    from: int,
    i: int,
    to: int,
    s: Sv8StreamSettings,
    memory: FrameMemory,
) -> Emit
    decreases to - i,
{
    if i >= to {
        Emit::of(Seq::empty())
    } else {
        let w = sv8_stereo_frame_encode::frame_write(
            tables,
            frames[i],
            s.max_band,
            i == from,
            s.stream_ms,
            memory,
        );
        w.emit.chain(emit_run(tables, frames, from, i + 1, to, s, w.memory))
    }
}

/// Bits as bytes, filled up with clear bits.
pub open spec fn in_bytes(s: Seq<bool>) -> Seq<u8> {
    bits::to_bytes(s + bit_writer::padding(s.len()))
}

/// A payload that a packet can count.
pub open spec fn countable(payload: Seq<u8>) -> bool {
    payload.len() < 0x7fff_ffff_ffff_fff0
}

/// Where the packet ends that starts at frame `from`.
pub open spec fn packet_end(from: int, len: int, s: Sv8StreamSettings) -> int {
    let most = stream_headers::frames_of_power(s.block_power as nat);
    if len - from < most {
        len
    } else {
        from + most
    }
}

/// Audio packets, and where they start.
#[verifier::ext_equal]
pub struct Audio {
    pub bytes: Seq<u8>,
    pub offsets: Seq<u64>,
}

/// The audio packets of the frames from `from` on, with the first at the byte `at`.
pub open spec fn audio(
    tables: Sv8TableSet,
    frames: Seq<StereoFrame>,
    from: int,
    at: nat,
    s: Sv8StreamSettings,
) -> Result<Audio>
    decreases frames.len() - from,
{
    proof {
        stream_headers::lemma_frames_positive(s.block_power as nat);
    }
    if from >= frames.len() {
        Ok(Audio { bytes: Seq::empty(), offsets: Seq::empty() })
    } else {
        let to = packet_end(from, frames.len() as int, s);
        let e = emit_run(tables, frames, from, from, to, s, FrameMemory::blank());
        match e.result {
            Err(f) => Err(f),
            Ok(_) => if !countable(in_bytes(e.code)) {
                Err(Error::HeaderFieldOutOfRange("packet size"))
            } else {
                let p = packets::packet(0x41, 0x50, in_bytes(e.code));
                match audio(tables, frames, to, at + p.len(), s) {
                    Err(f) => Err(f),
                    Ok(rest) => Ok(
                        Audio {
                            bytes: p + rest.bytes,
                            offsets: seq![at as u64] + rest.offsets,
                        },
                    ),
                }
            },
        }
    }
}

/// The seek table of audio packets: every second of them.
pub open spec fn table_for(offsets: Seq<u64>) -> SeekTable {
    SeekTable {
        seek_pwr_delta: SEEK_PWR_DELTA,
        entries: Seq::new((offsets.len() + 1) as nat / 2, |i: int| offsets[2 * i]),
    }
}

/// The seek offset, as a packet.
pub open spec fn offset_packet(offset: nat) -> Seq<u8> {
    packets::packet(0x53, 0x4f, sv8_seek::filled(framing::varint(offset), 5))
}

/// Composing a stream behind its header packets.
pub open spec fn stream_bytes(
    tables: Sv8TableSet,
    prefix: Seq<u8>,
    frames: Seq<StereoFrame>,
    s: Sv8StreamSettings,
) -> Result<Seq<u8>> {
    match audio(tables, frames, 0, prefix.len() + 8, s) {
        Err(e) => Err(e),
        Ok(a) => {
            let table = sv8_seek::emit_table(table_for(a.offsets));
            let offset = 8 + a.bytes.len();
            match table.result {
                Err(e) => Err(e),
                Ok(_) => if !countable(in_bytes(table.code)) {
                    Err(Error::HeaderFieldOutOfRange("packet size"))
                } else if offset >= 0x8_0000_0000 {
                    Err(Error::HeaderFieldOutOfRange("SO st_offset"))
                } else {
                    Ok(
                        prefix + offset_packet(offset) + a.bytes + packets::packet(
                            0x53,
                            0x54,
                            in_bytes(table.code),
                        ) + packets::packet(0x53, 0x45, Seq::empty()),
                    )
                },
            }
        },
    }
}

// ---------------------------------------------------------------------------
// Encoders
// ---------------------------------------------------------------------------

/// A composed stream.
#[derive(Debug, Clone, PartialEq, Eq)]
pub struct Sv8EncodedStream {
    /// The bytes of the stream.
    pub bytes: Vec<u8>,
    /// Frames.
    pub frames: u64,
    /// Audio packets.
    pub audio_packets: u64,
}

/// Composes the bytes before the seek offset. A field outside its range is refused.
pub fn stream_prefix(
    geometry: &Sv8Geometry,
    channels: u8,
    sample_freq_index: u8,
    settings: &Sv8StreamSettings,
) -> (r: Result<Vec<u8>>)
    ensures
        match r {
            Ok(p) => {
                &&& sample_freq_index < 4
                &&& 1 <= settings.max_band <= 31
                &&& 1 <= channels <= 16
                &&& settings.block_power <= 7
                &&& settings.profile <= 0x7f
                &&& p@ == prefix_bytes(*geometry, channels, sample_freq_index, *settings)
            },
            Err(e) => e == (if sample_freq_index >= 4 {
                Error::HeaderFieldOutOfRange("sample_freq_index")
            } else if !(1 <= settings.max_band <= 31) {
                Error::MaxBandOutOfRange(settings.max_band)
            } else if !(1 <= channels <= 16) {
                Error::HeaderFieldOutOfRange("channels")
            } else if settings.block_power > 7 {
                Error::HeaderFieldOutOfRange("block_power")
            } else {
                Error::HeaderFieldOutOfRange("profile")
            }) && !(sample_freq_index < 4 && 1 <= settings.max_band <= 31 && 1 <= channels <= 16
                && settings.block_power <= 7 && settings.profile <= 0x7f),
        },
{
    let magic: [u8; 4] = SV8_MAGIC;
    let mut out: Vec<u8> = Vec::new();
    append_bytes(&mut out, &magic);
    let sh: Vec<u8> = sh_payload(
        geometry.sample_count,
        geometry.beginning_silence,
        sample_freq_index,
        settings.max_band,
        channels,
        settings.stream_ms,
        settings.block_power,
    )?;
    write_packet(&mut out, [0x53, 0x48], sh.as_slice());
    let rg: Vec<u8> = rg_payload(0, 0, 0, 0);
    proof {
        reveal_with_fuel(stream_headers::big_endian, 3);
        assert(rg@ =~= seq![1u8, 0u8, 0u8, 0u8, 0u8, 0u8, 0u8, 0u8, 0u8]);
    }
    write_packet(&mut out, [0x52, 0x47], rg.as_slice());
    let ei: Vec<u8> = ei_payload(settings.profile, settings.pns, 0, 1, 0)?;
    assert(ei@ =~= info_bytes(*settings));
    write_packet(&mut out, [0x45, 0x49], ei.as_slice());
    assert(out@ =~= prefix_bytes(*geometry, channels, sample_freq_index, *settings));
    Ok(out)
}

/// No band past the 32nd codes anything, in any frame that has the bands that it counts.
pub open spec fn encodable(frames: Seq<Sv8StereoFrameDecode>, max_band: u8) -> bool {
    forall|i: int, b: int|
        0 <= i < frames.len() && sv8_stereo_frame_encode::complete(frames[i]@, max_band) && 32
            <= b < frames[i].nbands ==> !sv8_stereo_frame::in_scope(#[trigger] frames[i].res@[b])
}

/// Writes the frames `from..to` as the payload of an audio packet.
fn write_run(
    tables: &Sv8TableSet,
    frames: &Vec<Sv8StereoFrameDecode>,
    from: usize,
    to: usize,
    settings: &Sv8StreamSettings,
) -> (r: Result<Vec<u8>>)
    requires
        from <= to <= frames@.len(),
        encodable(frames@, settings.max_band),
    ensures
        ({
            let e = emit_run(
                *tables,
                sv8_stream::models(frames@),
                from as int,
                from as int,
                to as int,
                *settings,
                FrameMemory::blank(),
            );
            match (e.result, r) {
                (Ok(_), Ok(p)) => p@ == in_bytes(e.code),
                (Err(e), Err(f)) => e == f,
                _ => false,
            }
        }),
{
    let ghost models = sv8_stream::models(frames@);
    let ghost whole = emit_run(
        *tables,
        models,
        from as int,
        from as int,
        to as int,
        *settings,
        FrameMemory::blank(),
    );
    let mut writer: Sv7BitWriter = Sv7BitWriter::new();
    let mut state: Sv8FrameState = Sv8FrameState::new();
    let mut i: usize = from;
    assert(whole =~= whole.after(writer@));
    while i < to
        invariant
            from <= i <= to <= frames@.len(),
            encodable(frames@, settings.max_band),
            models == sv8_stream::models(frames@),
            whole == emit_run(
                *tables,
                models,
                from as int,
                from as int,
                to as int,
                *settings,
                FrameMemory::blank(),
            ),
            whole == emit_run(
                *tables,
                models,
                from as int,
                i as int,
                to as int,
                *settings,
                state@,
            ).after(writer@),
        decreases to - i,
    {
        let frame: &Sv8StereoFrameDecode = &frames[i];
        let ghost before = writer@;
        let ghost w = sv8_stereo_frame_encode::frame_write(
            *tables,
            frame@,
            settings.max_band,
            i == from,
            settings.stream_ms,
            state@,
        );
        assert(models[i as int] == frame@);
        let written: Result<()> = encode_sv8_stereo_frame(
            tables,
            &mut writer,
            frame,
            settings.max_band,
            i == from,
            settings.stream_ms,
            &mut state,
        );
        proof {
            crate::coding::lemma_chain_after(
                w.emit,
                emit_run(
                    *tables,
                    models,
                    from as int,
                    i + 1,
                    to as int,
                    *settings,
                    w.memory,
                ),
                before,
            );
        }
        match written {
            Ok(_) => {},
            Err(e) => {
                return Err(e);
            },
        }
        i = i + 1;
    }
    let ghost code = writer@;
    assert(whole.code =~= code);
    let out: Vec<u8> = writer.finish();
    proof {
        bits::lemma_to_bytes(out@);
    }
    Ok(out)
}

/// A packet with five bytes of payload has a size of one byte.
pub proof fn lemma_small_packet(a: u8, b: u8, payload: Seq<u8>)
    requires
        payload.len() == 5,
    ensures
        packets::packet(a, b, payload) == seq![a, b, 8u8] + payload,
{
    reveal(packets::packet);
    assert(vstd::arithmetic::power::pow(128, 1) == 128) by {
        reveal_with_fuel(vstd::arithmetic::power::pow, 2);
    }
    assert(packets::field_len(1, 5) == 1);
    reveal_with_fuel(framing::lead, 2);
    assert(framing::varint(8) =~= seq![8u8]);
    assert(packets::packet(a, b, payload) =~= seq![a, b, 8u8] + payload);
}

/// Every second of the offsets.
fn every_second(offsets: &Vec<u64>) -> (out: Vec<u64>)
    ensures
        out@ == table_for(offsets@).entries,
{
    let mut out: Vec<u64> = Vec::new();
    let mut i: usize = 0;
    while i < offsets.len()
        invariant
            i <= offsets@.len(),
            out@.len() == (i + 1) / 2,
            forall|j: int| 0 <= j < out@.len() ==> #[trigger] out@[j] == offsets@[2 * j],
        decreases offsets@.len() - i,
    {
        if i % 2 == 0 {
            out.push(offsets[i]);
        }
        i = i + 1;
    }
    assert(out@ =~= table_for(offsets@).entries);
    out
}

/// `whole` is `rest` behind the audio packets `bytes`, which start at `offsets`.
spec fn behind(
    whole: Result<Audio>,
    bytes: Seq<u8>,
    offsets: Seq<u64>,
    rest: Result<Audio>,
) -> bool {
    match rest {
        Err(e) => whole == Err::<Audio, Error>(e),
        Ok(a) => whole == Ok::<Audio, Error>(
            Audio { bytes: bytes + a.bytes, offsets: offsets + a.offsets },
        ),
    }
}

/// One more audio packet.
proof fn lemma_behind(
    tables: Sv8TableSet,
    frames: Seq<StereoFrame>,
    from: int,
    at: nat,
    s: Sv8StreamSettings,
    whole: Result<Audio>,
    bytes: Seq<u8>,
    offsets: Seq<u64>,
)
    requires
        0 <= from < frames.len(),
        behind(whole, bytes, offsets, audio(tables, frames, from, at, s)),
    ensures
        ({
            let to = packet_end(from, frames.len() as int, s);
            let e = emit_run(tables, frames, from, from, to, s, FrameMemory::blank());
            let p = packets::packet(0x41, 0x50, in_bytes(e.code));
            match e.result {
                Err(f) => whole == Err::<Audio, Error>(f),
                Ok(_) => if countable(in_bytes(e.code)) {
                    behind(
                        whole,
                        bytes + p,
                        offsets.push(at as u64),
                        audio(tables, frames, to, at + p.len(), s),
                    )
                } else {
                    whole == Err::<Audio, Error>(Error::HeaderFieldOutOfRange("packet size"))
                },
            }
        }),
{
    let to = packet_end(from, frames.len() as int, s);
    let e = emit_run(tables, frames, from, from, to, s, FrameMemory::blank());
    let p = packets::packet(0x41, 0x50, in_bytes(e.code));
    if e.result is Ok && countable(in_bytes(e.code)) {
        let next = audio(tables, frames, to, at + p.len(), s);
        if next is Ok {
            let a = next->Ok_0;
            assert(bytes + (p + a.bytes) =~= (bytes + p) + a.bytes);
            assert(offsets + (seq![at as u64] + a.offsets) =~= offsets.push(at as u64)
                + a.offsets);
        }
    }
}

/// Writes the audio packets behind `out`, and returns where they start.
fn write_audio(
    tables: &Sv8TableSet,
    out: &mut Vec<u8>,
    frames: &Vec<Sv8StereoFrameDecode>,
    settings: &Sv8StreamSettings,
) -> (r: Result<Vec<u64>>)
    requires
        settings.block_power <= 7,
        encodable(frames@, settings.max_band),
    ensures
        match (
            audio(*tables, sv8_stream::models(frames@), 0, old(out)@.len(), *settings),
            r,
        ) {
            (Ok(a), Ok(o)) => final(out)@ == old(out)@ + a.bytes && o@ == a.offsets,
            (Err(e), Err(f)) => e == f,
            _ => false,
        },
{
    let per_packet: u64 = frames_per_packet(settings.block_power);
    let ghost start = out@;
    let ghost models = sv8_stream::models(frames@);
    let ghost want = audio(*tables, models, 0, start.len(), *settings);
    let ghost mut sound: Seq<u8> = Seq::empty();
    let mut offsets: Vec<u64> = Vec::new();
    let len: usize = frames.len();
    let mut from: usize = 0;
    proof {
        assert(out@ =~= start + sound);
        if want is Ok {
            assert(sound + want->Ok_0.bytes =~= want->Ok_0.bytes);
            assert(offsets@ + want->Ok_0.offsets =~= want->Ok_0.offsets);
        }
    }
    while from < len
        invariant
            from <= len == frames@.len(),
            encodable(frames@, settings.max_band),
            settings.block_power <= 7,
            per_packet == stream_headers::frames_of_power(settings.block_power as nat),
            per_packet >= 1,
            models == sv8_stream::models(frames@),
            start == old(out)@,
            out@ == start + sound,
            want == audio(*tables, models, 0, old(out)@.len(), *settings),
            behind(
                want,
                sound,
                offsets@,
                audio(*tables, models, from as int, out@.len(), *settings),
            ),
        decreases len - from,
    {
        let to: usize = if ((len - from) as u64) < per_packet {
            len
        } else {
            from + per_packet as usize
        };
        assert(to == packet_end(from as int, len as int, *settings));
        proof {
            lemma_behind(
                *tables,
                models,
                from as int,
                out@.len(),
                *settings,
                want,
                sound,
                offsets@,
            );
        }
        let payload: Vec<u8> = match write_run(tables, frames, from, to, settings) {
            Ok(p) => p,
            Err(e) => {
                return Err(e);
            },
        };
        if payload.len() as u64 >= 0x7fff_ffff_ffff_fff0 {
            return Err(Error::HeaderFieldOutOfRange("packet size"));
        }
        let ghost p = packets::packet(0x41, 0x50, payload@);
        offsets.push(out.len() as u64);
        write_packet(out, [0x41, 0x50], payload.as_slice());
        proof {
            assert(out@ =~= start + (sound + p));
            sound = sound + p;
        }
        from = to;
    }
    proof {
        assert(sound + Seq::<u8>::empty() =~= sound);
        assert(offsets@ + Seq::<u64>::empty() =~= offsets@);
    }
    Ok(offsets)
}

/// Composes a stream behind the header packets `prefix`: the seek offset, the audio
/// packets, the seek table and the stream end. A frame that does not encode is refused.
pub fn encode_sv8_frames(
    tables: &Sv8TableSet,
    prefix: Vec<u8>,
    frames: &Vec<Sv8StereoFrameDecode>,
    settings: &Sv8StreamSettings,
) -> (r: Result<Sv8EncodedStream>)
    requires
        settings.block_power <= 7,
        encodable(frames@, settings.max_band),
    ensures
        match (
            stream_bytes(*tables, prefix@, sv8_stream::models(frames@), *settings),
            r,
        ) {
            (Ok(b), Ok(s)) => {
                &&& s.bytes@ == b
                &&& s.frames == frames@.len()
                &&& s.audio_packets == audio(
                    *tables,
                    sv8_stream::models(frames@),
                    0,
                    prefix@.len() + 8,
                    *settings,
                )->Ok_0.offsets.len()
            },
            (Err(e), Err(f)) => e == f,
            _ => false,
        },
{
    let ghost models = sv8_stream::models(frames@);
    let ghost head = prefix@;
    let so_pos: usize = prefix.len();
    let mut out: Vec<u8> = prefix;
    let blank: [u8; SO_PAYLOAD_LEN] = [0;5];
    write_packet(&mut out, [0x53, 0x4f], &blank);
    proof {
        lemma_small_packet(0x53, 0x4f, blank@);
    }
    let ghost opened = out@;
    assert(opened.len() == head.len() + 8);
    let offsets: Vec<u64> = write_audio(tables, &mut out, frames, settings)?;
    let ghost sound = audio(*tables, models, 0, head.len() + 8, *settings)->Ok_0.bytes;
    let st_pos: usize = out.len();
    let table: SeekTableFields = SeekTableFields {
        seek_pwr_delta: SEEK_PWR_DELTA,
        entries: every_second(&offsets),
    };
    assert(table@ =~= table_for(offsets@));
    let st: Vec<u8> = table.payload()?;
    proof {
        bits::lemma_to_bytes(st@);
    }
    if st.len() as u64 >= 0x7fff_ffff_ffff_fff0 {
        return Err(Error::HeaderFieldOutOfRange("packet size"));
    }
    write_packet(&mut out, [0x53, 0x54], st.as_slice());
    let ghost tail = packets::packet(0x53, 0x54, st@);
    assert(out@ =~= opened + sound + tail);
    let so: [u8; SO_PAYLOAD_LEN] = SeekOffsetFields {
        st_offset: (st_pos - so_pos) as u64,
    }.payload()?;
    let ghost before = out@;
    let total: usize = out.len();
    let mut i: usize = 0;
    while i < SO_PAYLOAD_LEN
        invariant
            i <= 5,
            out@.len() == before.len(),
            out@.len() == total,
            so_pos + 8 <= total,
            forall|j: int|
                0 <= j < before.len() ==> #[trigger] out@[j] == if so_pos + 3 <= j < so_pos + 3 + i {
                    so@[j - so_pos - 3]
                } else {
                    before[j]
                },
        decreases 5 - i,
    {
        out.set(so_pos + 3 + i, so[i]);
        i = i + 1;
    }
    proof {
        lemma_small_packet(0x53, 0x4f, so@);
        assert(out@ =~= head + packets::packet(0x53, 0x4f, so@) + sound + tail);
    }
    let none: [u8; 0] = [];
    assert(none@ =~= Seq::<u8>::empty());
    write_packet(&mut out, [0x53, 0x45], &none);
    Ok(
        Sv8EncodedStream {
            bytes: out,
            frames: frames.len() as u64,
            audio_packets: offsets.len() as u64,
        },
    )
}

} // verus!
