//! What holds of composed streams: they decode to their frames, and their seek layer
//! leads to their audio packets.

use crate::bit_writer;
use crate::bits;
use crate::cns::CnsPrng;
use crate::coding;
use crate::error::Error;
use crate::framing;
use crate::framing::{PacketKey, SV8_MAGIC};
use crate::packets;
use crate::stream_headers;
use crate::stream_headers::StreamHeaderFields;
use crate::sv8_crc;
use crate::sv8_decode;
use crate::sv8_decode::{Opened, Walk};
use crate::sv8_file_encode;
use crate::sv8_file_encode::{Sv8Geometry, Sv8StreamSettings};
use crate::sv8_huffman::Sv8TableSet;
use crate::sv8_seek;
use crate::sv8_seek::SeekTable;
use crate::sv8_seek_index;
use crate::sv8_seek_index::{Prefix, SeekIndex};
use crate::sv8_stereo_frame;
use crate::sv8_stereo_frame::{FrameMemory, StereoFrame};
use crate::sv8_stereo_frame_encode;
use crate::sv8_stereo_frame_laws;
use crate::sv8_stream;
use crate::sv8_stream::StreamMemory;
use vstd::prelude::*;

verus! {

// ---------------------------------------------------------------------------
// Frames in a row
// ---------------------------------------------------------------------------

/// The noise generator behind the frames `i..to`.
pub open spec fn noise_behind(
    frames: Seq<StereoFrame>,
    i: int,
    to: int,
    noise: CnsPrng,
) -> CnsPrng
    decreases to - i,
{
    if i >= to {
        noise
    } else {
        noise_behind(
            frames,
            i + 1,
            to,
            sv8_stereo_frame::noise_after(noise, frames[i].res, 2 * frames[i].nbands),
        )
    }
}

/// The frames `i..to` are ones that a decoder yields, with the noise that it has there.
pub open spec fn plain_run(
    frames: Seq<StereoFrame>,
    i: int,
    to: int,
    stream_ms: bool,
    noise: CnsPrng,
) -> bool
    decreases to - i,
{
    i >= to || (sv8_stereo_frame_laws::plain(frames[i], stream_ms, noise) && plain_run(
        frames,
        i + 1,
        to,
        stream_ms,
        sv8_stereo_frame::noise_after(noise, frames[i].res, 2 * frames[i].nbands),
    ))
}

/// A run of such frames comes apart into two.
pub proof fn lemma_run_split(
    frames: Seq<StereoFrame>,
    i: int,
    mid: int,
    to: int,
    stream_ms: bool,
    noise: CnsPrng,
)
    requires
        i <= mid <= to,
        plain_run(frames, i, to, stream_ms, noise),
    ensures
        plain_run(frames, i, mid, stream_ms, noise),
        plain_run(frames, mid, to, stream_ms, noise_behind(frames, i, mid, noise)),
        noise_behind(frames, i, to, noise) == noise_behind(
            frames,
            mid,
            to,
            noise_behind(frames, i, mid, noise),
        ),
    decreases mid - i,
{
    if i < mid {
        lemma_run_split(
            frames,
            i + 1,
            mid,
            to,
            stream_ms,
            sv8_stereo_frame::noise_after(noise, frames[i].res, 2 * frames[i].nbands),
        );
    }
}

/// The frames of a written packet read back.
proof fn lemma_run_reads_back(
    tables: Sv8TableSet,
    frames: Seq<StereoFrame>,
    from: int,
    i: int,
    to: int,
    s: Sv8StreamSettings,
    memory: FrameMemory,
    noise: CnsPrng,
    bits: Seq<bool>,
    pos: nat,
)
    requires
        tables.canonical(),
        0 <= from <= i <= to <= frames.len(),
        i == from || memory.last_nbands <= 32,
        plain_run(frames, i, to, s.stream_ms, noise),
        ({
            let e = sv8_file_encode::emit_run(tables, frames, from, i, to, s, memory);
            e.result is Ok && coding::readable(bits, pos, e.code)
        }),
    ensures
        ({
            let run = sv8_stream::run_read(
                tables,
                bits,
                s.max_band,
                s.stream_ms,
                (to - from) as nat,
                frames.subrange(from, i),
                pos,
                memory,
                noise,
            );
            &&& run.result is Ok
            &&& run.frames == frames.subrange(from, to)
            &&& run.noise == noise_behind(frames, i, to, noise)
        }),
    decreases to - i,
{
    if i < to {
        let f = frames[i];
        let w = sv8_stereo_frame_encode::frame_write(
            tables,
            f,
            s.max_band,
            i == from,
            s.stream_ms,
            memory,
        );
        let rest = sv8_file_encode::emit_run(tables, frames, from, i + 1, to, s, w.memory);
        bits::lemma_at_concat(bits, pos, w.emit.code, rest.code);
        sv8_stereo_frame_laws::law_frame_reads_back(
            tables,
            bits,
            pos,
            f,
            s.max_band,
            i == from,
            s.stream_ms,
            memory,
            noise,
        );
        assert(frames.subrange(from, i).push(f) =~= frames.subrange(from, i + 1));
        sv8_stereo_frame_encode::lemma_write_count(
            tables,
            f,
            s.max_band,
            i == from,
            s.stream_ms,
            memory,
        );
        assert(f.nbands <= 32) by {
            reveal(sv8_stereo_frame_laws::plain);
        }
        lemma_run_reads_back(
            tables,
            frames,
            from,
            i + 1,
            to,
            s,
            w.memory,
            sv8_stereo_frame::noise_after(noise, f.res, 2 * f.nbands),
            bits,
            pos + w.emit.code.len(),
        );
    }
}

/// The bits of a payload start with what it was made from, and two clear bytes follow.
proof fn lemma_payload_bits(code: Seq<bool>)
    ensures
        coding::readable(
            sv8_stream::payload_bits(sv8_file_encode::in_bytes(code)),
            0,
            code,
        ),
{
    let whole = code + bit_writer::padding(code.len());
    let payload = bits::to_bytes(whole);
    bits::lemma_of_to_bytes(whole);
    bits::lemma_of_bytes_concat(payload, seq![0u8, 0u8]);
    let all = sv8_stream::payload_bits(payload);
    assert(all.subrange(0, code.len() as int) =~= code);
}

/// A written audio packet reads back as its frames.
pub proof fn law_packet_frames_read_back(
    tables: Sv8TableSet,
    frames: Seq<StereoFrame>,
    from: int,
    to: int,
    s: Sv8StreamSettings,
    noise: CnsPrng,
)
    requires
        tables.canonical(),
        0 <= from <= to <= frames.len(),
        plain_run(frames, from, to, s.stream_ms, noise),
        sv8_file_encode::emit_run(
            tables,
            frames,
            from,
            from,
            to,
            s,
            FrameMemory::blank(),
        ).result is Ok,
    ensures
        ({
            let e = sv8_file_encode::emit_run(
                tables,
                frames,
                from,
                from,
                to,
                s,
                FrameMemory::blank(),
            );
            let run = sv8_stream::packet_read(
                tables,
                sv8_file_encode::in_bytes(e.code),
                s.max_band,
                s.stream_ms,
                (to - from) as nat,
                noise,
            );
            &&& run.result is Ok
            &&& run.frames == frames.subrange(from, to)
            &&& run.noise == noise_behind(frames, from, to, noise)
        }),
{
    let e = sv8_file_encode::emit_run(tables, frames, from, from, to, s, FrameMemory::blank());
    let bits = sv8_stream::payload_bits(sv8_file_encode::in_bytes(e.code));
    lemma_payload_bits(e.code);
    assert(frames.subrange(from, from) =~= Seq::<StereoFrame>::empty());
    lemma_run_reads_back(
        tables,
        frames,
        from,
        from,
        to,
        s,
        FrameMemory::blank(),
        noise,
        bits,
        0,
    );
}

// ---------------------------------------------------------------------------
// Packets in a row
// ---------------------------------------------------------------------------

/// The stream was opened with the settings, and asks for `n` more frames.
spec fn opened_for(o: Opened, s: Sv8StreamSettings, n: int) -> bool {
    &&& o.header.block_power == s.block_power
    &&& o.memory.max_band == s.max_band
    &&& o.memory.stream_ms == s.stream_ms
    &&& o.remaining == n
    &&& o.memory.frames_decoded + n <= u64::MAX
}

/// The walk goes through the written audio packets, and collects their frames.
proof fn lemma_audio_walk(
    tables: Sv8TableSet,
    frames: Seq<StereoFrame>,
    from: int,
    at: nat,
    s: Sv8StreamSettings,
    w: Walk,
    rest: Seq<u8>,
)
    requires
        tables.canonical(),
        0 <= from <= frames.len(),
        w.opened is Some,
        opened_for(w.opened->0, s, frames.len() - from),
        plain_run(
            frames,
            from,
            frames.len() as int,
            s.stream_ms,
            w.opened->0.memory.noise,
        ),
        sv8_file_encode::audio(tables, frames, from, at, s) is Ok,
    ensures
        ({
            let a = sv8_file_encode::audio(tables, frames, from, at, s)->Ok_0;
            let o = w.opened->0;
            let end = Walk {
                opened: Some(
                    Opened {
                        header: o.header,
                        memory: StreamMemory {
                            max_band: s.max_band,
                            stream_ms: s.stream_ms,
                            noise: noise_behind(
                                frames,
                                from,
                                frames.len() as int,
                                o.memory.noise,
                            ),
                            frames_decoded: (o.memory.frames_decoded + frames.len()
                                - from) as u64,
                        },
                        remaining: 0,
                    },
                ),
                audio_packets: w.audio_packets + a.offsets.len(),
                frames: w.frames + frames.skip(from),
            };
            sv8_decode::walk(tables, a.bytes + rest, w) == sv8_decode::walk(tables, rest, end)
        }),
    decreases frames.len() - from,
{
    let n = frames.len() as int;
    let a = sv8_file_encode::audio(tables, frames, from, at, s)->Ok_0;
    let o = w.opened->0;
    stream_headers::lemma_frames_positive(s.block_power as nat);
    if from >= n {
        assert(a.bytes + rest =~= rest);
        assert(w.frames + frames.skip(from) =~= w.frames);
    } else {
        let to = sv8_file_encode::packet_end(from, n, s);
        let e = sv8_file_encode::emit_run(
            tables,
            frames,
            from,
            from,
            to,
            s,
            FrameMemory::blank(),
        );
        let payload = sv8_file_encode::in_bytes(e.code);
        let p = packets::packet(0x41, 0x50, payload);
        let more = sv8_file_encode::audio(tables, frames, to, at + p.len(), s)->Ok_0;
        lemma_run_split(frames, from, to, n, s.stream_ms, o.memory.noise);
        law_packet_frames_read_back(tables, frames, from, to, s, o.memory.noise);
        packets::law_packet_reads_back(0x41, 0x50, payload, more.bytes + rest);
        assert(a.bytes + rest =~= p + (more.bytes + rest));
        let run = o.memory.reading(tables, payload, o.due());
        assert(o.due() == to - from);
        let next = w.played(run, o.due());
        assert(sv8_decode::walk(tables, a.bytes + rest, w) == sv8_decode::walk(
            tables,
            more.bytes + rest,
            next,
        ));
        lemma_audio_walk(tables, frames, to, at + p.len(), s, next, rest);
        assert(w.frames + frames.subrange(from, to) + frames.skip(to) =~= w.frames + frames.skip(
            from,
        ));
        assert(a.offsets.len() == 1 + more.offsets.len());
    }
}

/// The header of a composed stream.
pub open spec fn header_for(
    g: Sv8Geometry,
    channels: u8,
    freq: u8,
    s: Sv8StreamSettings,
) -> StreamHeaderFields {
    StreamHeaderFields {
        crc: sv8_crc::crc32(
            packets::sh_body(
                g.sample_count,
                g.beginning_silence,
                freq,
                s.max_band,
                channels,
                s.stream_ms,
                s.block_power,
            ),
        ),
        stream_version: 8,
        sample_count: g.sample_count,
        beginning_silence: g.beginning_silence,
        sample_freq_index: freq,
        max_band: s.max_band,
        channels,
        mid_side: s.stream_ms,
        block_power: s.block_power,
    }
}

/// The fields have their ranges.
pub open spec fn in_range(g: Sv8Geometry, channels: u8, freq: u8, s: Sv8StreamSettings) -> bool {
    &&& g.sample_count < 0x8000_0000_0000_0000
    &&& g.beginning_silence < 0x8000_0000_0000_0000
    &&& freq < 4
    &&& 1 <= s.max_band <= 31
    &&& 1 <= channels <= 2
    &&& s.block_power <= 7
}

/// The header packets behind the magic.
pub open spec fn header_packets(
    g: Sv8Geometry,
    channels: u8,
    freq: u8,
    s: Sv8StreamSettings,
) -> (Seq<u8>, Seq<u8>, Seq<u8>) {
    let body = packets::sh_body(
        g.sample_count,
        g.beginning_silence,
        freq,
        s.max_band,
        channels,
        s.stream_ms,
        s.block_power,
    );
    (
        packets::sh_bytes(body),
        seq![1u8, 0u8, 0u8, 0u8, 0u8, 0u8, 0u8, 0u8, 0u8],
        sv8_file_encode::info_bytes(s),
    )
}

/// What a composed stream is made of, behind the magic.
pub proof fn lemma_stream_parts(
    tables: Sv8TableSet,
    g: Sv8Geometry,
    channels: u8,
    freq: u8,
    s: Sv8StreamSettings,
    frames: Seq<StereoFrame>,
) -> (parts: (Seq<u8>, Seq<u8>, Seq<u8>))
    requires
        ({
            let prefix = sv8_file_encode::prefix_bytes(g, channels, freq, s);
            sv8_file_encode::stream_bytes(tables, prefix, frames, s) is Ok
        }),
    ensures
        ({
            let prefix = sv8_file_encode::prefix_bytes(g, channels, freq, s);
            let b = sv8_file_encode::stream_bytes(tables, prefix, frames, s)->Ok_0;
            let (sh, rg, ei) = header_packets(g, channels, freq, s);
            let a = sv8_file_encode::audio(tables, frames, 0, prefix.len() + 8, s);
            let table = sv8_seek::emit_table(sv8_file_encode::table_for(a->Ok_0.offsets));
            let offset = 8 + a->Ok_0.bytes.len();
            let (so, st, end) = parts;
            &&& a is Ok
            &&& table.result is Ok
            &&& offset < 0x8_0000_0000
            &&& so == sv8_seek::filled(framing::varint(offset), 5)
            &&& so.len() == 5
            &&& st == sv8_file_encode::in_bytes(table.code)
            &&& sv8_file_encode::countable(st)
            &&& end == packets::packet(0x53, 0x54, st) + packets::packet(
                0x53,
                0x45,
                Seq::<u8>::empty(),
            )
            &&& b.len() >= 4
            &&& b.take(4) == SV8_MAGIC@
            &&& b.skip(4) == packets::packet(0x53, 0x48, sh) + (packets::packet(0x52, 0x47, rg) + (
            packets::packet(0x45, 0x49, ei) + (packets::packet(0x53, 0x4f, so) + (a->Ok_0.bytes
                + end))))
            &&& prefix.len() == 4 + packets::packet(0x53, 0x48, sh).len() + packets::packet(
                0x52,
                0x47,
                rg,
            ).len() + packets::packet(0x45, 0x49, ei).len()
        }),
{
    let prefix = sv8_file_encode::prefix_bytes(g, channels, freq, s);
    let b = sv8_file_encode::stream_bytes(tables, prefix, frames, s)->Ok_0;
    let (sh, rg, ei) = header_packets(g, channels, freq, s);
    let a = sv8_file_encode::audio(tables, frames, 0, prefix.len() + 8, s)->Ok_0;
    let table = sv8_seek::emit_table(sv8_file_encode::table_for(a.offsets));
    let offset = 8 + a.bytes.len();
    sv8_seek::lemma_offset_len(offset as u64);
    let so = sv8_seek::filled(framing::varint(offset), 5);
    let st = sv8_file_encode::in_bytes(table.code);
    let end = packets::packet(0x53, 0x54, st) + packets::packet(0x53, 0x45, Seq::<u8>::empty());
    assert(b.take(4) =~= SV8_MAGIC@);
    assert(b.skip(4) =~= packets::packet(0x53, 0x48, sh) + (packets::packet(0x52, 0x47, rg) + (
    packets::packet(0x45, 0x49, ei) + (packets::packet(0x53, 0x4f, so) + (a.bytes + end)))));
    (so, st, end)
}

/// A composed stream decodes to its header and its frames.
pub proof fn law_stream_decodes(
    tables: Sv8TableSet,
    g: Sv8Geometry,
    channels: u8,
    freq: u8,
    s: Sv8StreamSettings,
    frames: Seq<StereoFrame>,
)
    requires
        tables.canonical(),
        in_range(g, channels, freq, s),
        sv8_decode::frames_for((g.sample_count + g.beginning_silence) as nat) == frames.len(),
        plain_run(frames, 0, frames.len() as int, s.stream_ms, CnsPrng { down: 1, up: 1 }),
        ({
            let prefix = sv8_file_encode::prefix_bytes(g, channels, freq, s);
            sv8_file_encode::stream_bytes(tables, prefix, frames, s) is Ok
        }),
    ensures
        ({
            let prefix = sv8_file_encode::prefix_bytes(g, channels, freq, s);
            let b = sv8_file_encode::stream_bytes(tables, prefix, frames, s)->Ok_0;
            let a = sv8_file_encode::audio(tables, frames, 0, prefix.len() + 8, s)->Ok_0;
            let w = sv8_decode::walk(tables, b.skip(4), Walk::start());
            &&& b.len() >= 4
            &&& b.take(4) == SV8_MAGIC@
            &&& w is Ok
            &&& w->Ok_0.opened is Some
            &&& w->Ok_0.opened->0.header == header_for(g, channels, freq, s)
            &&& w->Ok_0.opened->0.memory.frames_decoded == frames.len()
            &&& w->Ok_0.audio_packets == a.offsets.len()
            &&& w->Ok_0.frames == frames
        }),
{
    let (so, st, end) = lemma_stream_parts(tables, g, channels, freq, s, frames);
    let prefix = sv8_file_encode::prefix_bytes(g, channels, freq, s);
    let b = sv8_file_encode::stream_bytes(tables, prefix, frames, s)->Ok_0;
    let (sh, rg, ei) = header_packets(g, channels, freq, s);
    let a = sv8_file_encode::audio(tables, frames, 0, prefix.len() + 8, s)->Ok_0;
    let h = header_for(g, channels, freq, s);
    packets::lemma_header_len(
        g.sample_count,
        g.beginning_silence,
        freq,
        s.max_band,
        channels,
        s.stream_ms,
        s.block_power,
    );
    packets::law_header_reads_back(
        g.sample_count,
        g.beginning_silence,
        freq,
        s.max_band,
        channels,
        s.stream_ms,
        s.block_power,
    );
    let none = Seq::<u8>::empty();
    let d4 = a.bytes + end;
    let d3 = packets::packet(0x53, 0x4f, so) + d4;
    let d2 = packets::packet(0x45, 0x49, ei) + d3;
    let d1 = packets::packet(0x52, 0x47, rg) + d2;
    let w0 = Walk::start();
    let w1 = w0.headed(h);
    packets::law_packet_reads_back(0x53, 0x48, sh, d1);
    packets::law_packet_reads_back(0x52, 0x47, rg, d2);
    packets::law_packet_reads_back(0x45, 0x49, ei, d3);
    packets::law_packet_reads_back(0x53, 0x4f, so, d4);
    assert(sv8_decode::walk(tables, b.skip(4), w0) == sv8_decode::walk(tables, d1, w1));
    assert(sv8_decode::walk(tables, d1, w1) == sv8_decode::walk(tables, d2, w1));
    assert(sv8_decode::walk(tables, d2, w1) == sv8_decode::walk(tables, d3, w1));
    assert(sv8_decode::walk(tables, d3, w1) == sv8_decode::walk(tables, d4, w1));
    lemma_audio_walk(tables, frames, 0, prefix.len() + 8, s, w1, end);
    assert(w1.frames + frames.skip(0) =~= frames);
    let w2 = Walk {
        opened: Some(
            Opened {
                header: h,
                memory: StreamMemory {
                    max_band: s.max_band,
                    stream_ms: s.stream_ms,
                    noise: noise_behind(
                        frames,
                        0,
                        frames.len() as int,
                        CnsPrng { down: 1, up: 1 },
                    ),
                    frames_decoded: frames.len() as u64,
                },
                remaining: 0,
            },
        ),
        audio_packets: a.offsets.len(),
        frames,
    };
    assert(sv8_decode::walk(tables, d4, w1) == sv8_decode::walk(tables, end, w2));
    let last = packets::packet(0x53, 0x45, none);
    packets::law_packet_reads_back(0x53, 0x54, st, last);
    packets::law_packet_reads_back(0x53, 0x45, none, none);
    assert(last + none =~= last);
    assert(sv8_decode::walk(tables, end, w2) == sv8_decode::walk(tables, last, w2));
}

/// With the geometry of an encoder, all of the signal is heard, and nothing else.
pub proof fn law_gapless(header: StreamHeaderFields, n: u64, silence: u64, frames: nat)
    requires
        header.sample_count == n + silence,
        header.beginning_silence == silence,
        frames == sv8_decode::frames_for(header.sample_count as nat),
    ensures
        sv8_decode::audible(header, frames) == (silence as nat, (n + silence) as nat),
{
}

/// Behind the filterbanks, too, all of the signal is heard: with the geometry of an encoder
/// the coded frames reach as far as the delayed signal does.
pub proof fn law_gapless_behind_the_filterbanks(
    header: StreamHeaderFields,
    n: u64,
    silence: u64,
    frames: nat,
    len: nat,
)
    requires
        header.sample_count == n + silence,
        header.beginning_silence == silence,
        frames == sv8_decode::frames_for(header.sample_count as nat),
        sv8_file_encode::has_room(header.sample_count as int),
        len >= 2 * (1152 * frames),
    ensures
        sv8_decode::heard(sv8_decode::audible(header, frames), len) == (
            (2 * (silence + 481)) as nat,
            (2 * (silence + 481) + 2 * n) as nat,
        ),
{
}

// ---------------------------------------------------------------------------
// The seek layer
// ---------------------------------------------------------------------------

/// The walk for positions finds the written audio packets where they start.
proof fn lemma_audio_positions(
    tables: Sv8TableSet,
    frames: Seq<StereoFrame>,
    from: int,
    at: nat,
    s: Sv8StreamSettings,
    done: Seq<u64>,
    fpp: nat,
    rest: Seq<u8>,
)
    requires
        0 <= from <= frames.len(),
        sv8_file_encode::audio(tables, frames, from, at, s) is Ok,
    ensures
        ({
            let a = sv8_file_encode::audio(tables, frames, from, at, s)->Ok_0;
            sv8_seek_index::positions_of(a.bytes + rest, at, done, fpp)
                == sv8_seek_index::positions_of(
                rest,
                at + a.bytes.len(),
                done + a.offsets,
                fpp,
            )
        }),
    decreases frames.len() - from,
{
    let n = frames.len() as int;
    let a = sv8_file_encode::audio(tables, frames, from, at, s)->Ok_0;
    stream_headers::lemma_frames_positive(s.block_power as nat);
    if from >= n {
        assert(a.bytes + rest =~= rest);
        assert(done + a.offsets =~= done);
    } else {
        let to = sv8_file_encode::packet_end(from, n, s);
        let e = sv8_file_encode::emit_run(
            tables,
            frames,
            from,
            from,
            to,
            s,
            FrameMemory::blank(),
        );
        let payload = sv8_file_encode::in_bytes(e.code);
        let p = packets::packet(0x41, 0x50, payload);
        let more = sv8_file_encode::audio(tables, frames, to, at + p.len(), s)->Ok_0;
        packets::law_packet_reads_back(0x41, 0x50, payload, more.bytes + rest);
        assert(a.bytes + rest =~= p + (more.bytes + rest));
        lemma_audio_positions(
            tables,
            frames,
            to,
            at + p.len(),
            s,
            done.push(at as u64),
            fpp,
            rest,
        );
        assert(done.push(at as u64) + more.offsets =~= done + a.offsets);
    }
}

/// The header packets and the seek offset of a composed stream, for the walks below.
pub proof fn lemma_head_packets(
    tables: Sv8TableSet,
    g: Sv8Geometry,
    channels: u8,
    freq: u8,
    s: Sv8StreamSettings,
    d1: Seq<u8>,
    d2: Seq<u8>,
    d3: Seq<u8>,
    so: Seq<u8>,
    d4: Seq<u8>,
)
    requires
        in_range(g, channels, freq, s),
        so.len() == 5,
        ({
            let (sh, rg, ei) = header_packets(g, channels, freq, s);
            &&& d1 == packets::packet(0x52, 0x47, rg) + d2
            &&& d2 == packets::packet(0x45, 0x49, ei) + d3
            &&& d3 == packets::packet(0x53, 0x4f, so) + d4
        }),
    ensures
        ({
            let (sh, rg, ei) = header_packets(g, channels, freq, s);
            let h = header_for(g, channels, freq, s);
            let d0 = packets::packet(0x53, 0x48, sh) + d1;
            &&& framing::packet_at(d0) matches Ok(Some(p)) && p.key == PacketKey::StreamHeader
                && stream_headers::header_of(p.payload) == Ok::<StreamHeaderFields, Error>(h)
                && p.extent() == packets::packet(0x53, 0x48, sh).len() && d0.skip(
                p.extent() as int,
            ) == d1
            &&& framing::packet_at(d1) matches Ok(Some(p)) && p.key == PacketKey::ReplayGain
                && p.extent() == packets::packet(0x52, 0x47, rg).len() && d1.skip(
                p.extent() as int,
            ) == d2
            &&& framing::packet_at(d2) matches Ok(Some(p)) && p.key == PacketKey::EncoderInfo
                && p.extent() == packets::packet(0x45, 0x49, ei).len() && d2.skip(
                p.extent() as int,
            ) == d3
            &&& framing::packet_at(d3) matches Ok(Some(p)) && p.key == PacketKey::SeekTableOffset
                && p.payload == so && p.extent() == 8 && d3.skip(p.extent() as int) == d4
        }),
{
    let (sh, rg, ei) = header_packets(g, channels, freq, s);
    packets::lemma_header_len(
        g.sample_count,
        g.beginning_silence,
        freq,
        s.max_band,
        channels,
        s.stream_ms,
        s.block_power,
    );
    packets::law_header_reads_back(
        g.sample_count,
        g.beginning_silence,
        freq,
        s.max_band,
        channels,
        s.stream_ms,
        s.block_power,
    );
    packets::law_packet_reads_back(0x53, 0x48, sh, d1);
    packets::law_packet_reads_back(0x52, 0x47, rg, d2);
    packets::law_packet_reads_back(0x45, 0x49, ei, d3);
    packets::law_packet_reads_back(0x53, 0x4f, so, d4);
    sv8_file_encode::lemma_small_packet(0x53, 0x4f, so);
}

/// Walking over the packets of a composed stream finds every audio packet where it was
/// written.
pub proof fn law_stream_walks(
    tables: Sv8TableSet,
    g: Sv8Geometry,
    channels: u8,
    freq: u8,
    s: Sv8StreamSettings,
    frames: Seq<StereoFrame>,
)
    requires
        in_range(g, channels, freq, s),
        ({
            let prefix = sv8_file_encode::prefix_bytes(g, channels, freq, s);
            sv8_file_encode::stream_bytes(tables, prefix, frames, s) is Ok
        }),
    ensures
        ({
            let prefix = sv8_file_encode::prefix_bytes(g, channels, freq, s);
            let b = sv8_file_encode::stream_bytes(tables, prefix, frames, s)->Ok_0;
            let a = sv8_file_encode::audio(tables, frames, 0, prefix.len() + 8, s)->Ok_0;
            sv8_seek_index::walked_index(b) == Ok::<SeekIndex, Error>(
                SeekIndex {
                    positions: a.offsets,
                    packets_per_entry: 1,
                    frames_per_packet: header_for(g, channels, freq, s).packet_frames(),
                },
            )
        }),
{
    let (so, st, end) = lemma_stream_parts(tables, g, channels, freq, s, frames);
    let prefix = sv8_file_encode::prefix_bytes(g, channels, freq, s);
    let b = sv8_file_encode::stream_bytes(tables, prefix, frames, s)->Ok_0;
    let (sh, rg, ei) = header_packets(g, channels, freq, s);
    let a = sv8_file_encode::audio(tables, frames, 0, prefix.len() + 8, s)->Ok_0;
    let fpp = header_for(g, channels, freq, s).packet_frames();
    let none = Seq::<u8>::empty();
    let d4 = a.bytes + end;
    let d3 = packets::packet(0x53, 0x4f, so) + d4;
    let d2 = packets::packet(0x45, 0x49, ei) + d3;
    let d1 = packets::packet(0x52, 0x47, rg) + d2;
    let n0 = packets::packet(0x53, 0x48, sh).len();
    let n1 = n0 + packets::packet(0x52, 0x47, rg).len();
    let n2 = n1 + packets::packet(0x45, 0x49, ei).len();
    lemma_head_packets(tables, g, channels, freq, s, d1, d2, d3, so, d4);
    let e0 = Seq::<u64>::empty();
    assert(sv8_seek_index::walked_index(b) == sv8_seek_index::positions_of(d1, 4 + n0, e0, fpp));
    assert(sv8_seek_index::positions_of(d1, 4 + n0, e0, fpp) == sv8_seek_index::positions_of(
        d2,
        4 + n1,
        e0,
        fpp,
    ));
    assert(sv8_seek_index::positions_of(d2, 4 + n1, e0, fpp) == sv8_seek_index::positions_of(
        d3,
        4 + n2,
        e0,
        fpp,
    ));
    assert(sv8_seek_index::positions_of(d3, 4 + n2, e0, fpp) == sv8_seek_index::positions_of(
        d4,
        4 + n2 + 8,
        e0,
        fpp,
    ));
    lemma_audio_positions(tables, frames, 0, prefix.len() + 8, s, e0, fpp, end);
    assert(e0 + a.offsets =~= a.offsets);
    let far = prefix.len() + 8 + a.bytes.len();
    assert(sv8_seek_index::positions_of(d4, 4 + n2 + 8, e0, fpp) == sv8_seek_index::positions_of(
        end,
        far,
        a.offsets,
        fpp,
    ));
    let last = packets::packet(0x53, 0x45, none);
    packets::law_packet_reads_back(0x53, 0x54, st, last);
    packets::law_packet_reads_back(0x53, 0x45, none, none);
    assert(last + none =~= last);
    let farther = far + packets::packet(0x53, 0x54, st).len();
    assert(sv8_seek_index::positions_of(end, far, a.offsets, fpp) == sv8_seek_index::positions_of(
        last,
        farther,
        a.offsets,
        fpp,
    ));
}

/// What follows the first of two parts.
pub proof fn lemma_skip_part(a: Seq<u8>, b: Seq<u8>, n: int)
    requires
        0 <= n <= b.len(),
    ensures
        (a + b).skip(a.len() + n) == b.skip(n),
{
    assert((a + b).skip(a.len() + n) =~= b.skip(n));
}

/// The seek table of a composed stream stands where its seek offset says.
proof fn lemma_table_place(
    h0: Seq<u8>,
    h1: Seq<u8>,
    h2: Seq<u8>,
    h3: Seq<u8>,
    sound: Seq<u8>,
    end: Seq<u8>,
)
    ensures
        (h0 + (h1 + (h2 + (h3 + (sound + end))))).skip(
            (h0.len() + h1.len() + h2.len() + h3.len() + sound.len()) as int,
        ) == end,
        (h0 + (h1 + (h2 + (h3 + (sound + end))))).len() == h0.len() + h1.len() + h2.len()
            + h3.len() + sound.len() + end.len(),
{
    let d4 = sound + end;
    let d3 = h3 + d4;
    let d2 = h2 + d3;
    let d1 = h1 + d2;
    let n4 = sound.len() as int;
    let n3 = n4 + h3.len();
    let n2 = n3 + h2.len();
    let n1 = n2 + h1.len();
    lemma_skip_part(h0, d1, n1);
    lemma_skip_part(h1, d2, n2);
    lemma_skip_part(h2, d3, n3);
    lemma_skip_part(h3, d4, n4);
    lemma_skip_part(sound, end, 0);
    assert(end.skip(0) =~= end);
}

/// The table that a composed stream ends with reads back.
proof fn lemma_table_packet(table: SeekTable, st: Seq<u8>, rest: Seq<u8>)
    requires
        sv8_seek::emit_table(table).result is Ok,
        table.entries.len() <= u64::MAX,
        st == sv8_file_encode::in_bytes(sv8_seek::emit_table(table).code),
        sv8_file_encode::countable(st),
    ensures
        framing::packet_at(packets::packet(0x53, 0x54, st) + rest) matches Ok(Some(p)) && p.key
            == PacketKey::SeekTable && sv8_seek::table_of(p.payload) == Ok::<SeekTable, Error>(
            table,
        ),
        packets::packet(0x53, 0x54, st).len() > 0,
{
    let code = sv8_seek::emit_table(table).code;
    let whole = code + bit_writer::padding(code.len());
    assert(whole.len() % 8 == 0);
    bits::lemma_of_to_bytes(whole);
    assert(bits::of_bytes(st) == whole);
    sv8_seek::law_table_reads_back(st, table);
    packets::law_packet_reads_back(0x53, 0x54, st, rest);
    packets::lemma_packet_len(0x53, 0x54, st);
}

/// The seek offset of a composed stream leads to the table of every second audio packet.
pub proof fn law_stream_seeks(
    tables: Sv8TableSet,
    g: Sv8Geometry,
    channels: u8,
    freq: u8,
    s: Sv8StreamSettings,
    frames: Seq<StereoFrame>,
)
    requires
        in_range(g, channels, freq, s),
        ({
            let prefix = sv8_file_encode::prefix_bytes(g, channels, freq, s);
            sv8_file_encode::stream_bytes(tables, prefix, frames, s) is Ok
        }),
    ensures
        ({
            let prefix = sv8_file_encode::prefix_bytes(g, channels, freq, s);
            let b = sv8_file_encode::stream_bytes(tables, prefix, frames, s)->Ok_0;
            let a = sv8_file_encode::audio(tables, frames, 0, prefix.len() + 8, s)->Ok_0;
            let at = (prefix.len() - 4) as nat;
            let offset = (8 + a.bytes.len()) as u64;
            &&& sv8_seek_index::prefix_of(b.skip(4), 0, None) == Ok::<Prefix, Error>(
                Prefix {
                    header: Some(header_for(g, channels, freq, s)),
                    offset: Some((at, offset)),
                },
            )
            &&& sv8_seek_index::table_at(b.skip(4), at, offset) == Ok::<SeekTable, Error>(
                sv8_file_encode::table_for(a.offsets),
            )
        }),
{
    let (so, st, end) = lemma_stream_parts(tables, g, channels, freq, s, frames);
    let prefix = sv8_file_encode::prefix_bytes(g, channels, freq, s);
    let b = sv8_file_encode::stream_bytes(tables, prefix, frames, s)->Ok_0;
    let (sh, rg, ei) = header_packets(g, channels, freq, s);
    let a = sv8_file_encode::audio(tables, frames, 0, prefix.len() + 8, s)->Ok_0;
    let h = header_for(g, channels, freq, s);
    let none = Seq::<u8>::empty();
    let d4 = a.bytes + end;
    let d3 = packets::packet(0x53, 0x4f, so) + d4;
    let d2 = packets::packet(0x45, 0x49, ei) + d3;
    let d1 = packets::packet(0x52, 0x47, rg) + d2;
    let n0 = packets::packet(0x53, 0x48, sh).len();
    let n1 = n0 + packets::packet(0x52, 0x47, rg).len();
    let n2 = n1 + packets::packet(0x45, 0x49, ei).len();
    lemma_head_packets(tables, g, channels, freq, s, d1, d2, d3, so, d4);
    let offset = (8 + a.bytes.len()) as u64;
    sv8_seek::law_offset_reads_back(offset);
    assert(sv8_seek_index::prefix_of(b.skip(4), 0, None) == sv8_seek_index::prefix_of(
        d1,
        n0,
        Some(h),
    ));
    assert(sv8_seek_index::prefix_of(d1, n0, Some(h)) == sv8_seek_index::prefix_of(
        d2,
        n1,
        Some(h),
    ));
    assert(sv8_seek_index::prefix_of(d2, n1, Some(h)) == sv8_seek_index::prefix_of(
        d3,
        n2,
        Some(h),
    ));
    let table = sv8_file_encode::table_for(a.offsets);
    lemma_offsets_len(tables, frames, 0, prefix.len() + 8, s);
    lemma_table_packet(table, st, packets::packet(0x53, 0x45, none));
    sv8_file_encode::lemma_small_packet(0x53, 0x4f, so);
    lemma_table_place(
        packets::packet(0x53, 0x48, sh),
        packets::packet(0x52, 0x47, rg),
        packets::packet(0x45, 0x49, ei),
        packets::packet(0x53, 0x4f, so),
        a.bytes,
        end,
    );
    assert(b.skip(4).skip((n2 + offset) as int) == end);
}

/// Every audio packet takes three bytes and more.
pub proof fn lemma_offsets_len(
    tables: Sv8TableSet,
    frames: Seq<StereoFrame>,
    from: int,
    at: nat,
    s: Sv8StreamSettings,
)
    requires
        0 <= from <= frames.len(),
        sv8_file_encode::audio(tables, frames, from, at, s) is Ok,
    ensures
        sv8_file_encode::audio(tables, frames, from, at, s)->Ok_0.offsets.len()
            <= sv8_file_encode::audio(tables, frames, from, at, s)->Ok_0.bytes.len(),
    decreases frames.len() - from,
{
    let n = frames.len() as int;
    stream_headers::lemma_frames_positive(s.block_power as nat);
    if from < n {
        let to = sv8_file_encode::packet_end(from, n, s);
        let e = sv8_file_encode::emit_run(
            tables,
            frames,
            from,
            from,
            to,
            s,
            FrameMemory::blank(),
        );
        let p = packets::packet(0x41, 0x50, sv8_file_encode::in_bytes(e.code));
        packets::lemma_packet_len(0x41, 0x50, sv8_file_encode::in_bytes(e.code));
        lemma_offsets_len(tables, frames, to, at + p.len(), s);
    }
}

} // verus!
