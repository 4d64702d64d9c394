//! What holds of seeking in composed streams: their own index agrees with a walk over their
//! packets, and decoding from an entry on yields the frames from there on.

use crate::bits;
use crate::coding;
use crate::error::Error;
use crate::framing;
use crate::framing::PacketKey;
use crate::packets;
use crate::stream_headers;
use crate::stream_headers::StreamHeaderFields;
use crate::sv8_decode;
use crate::sv8_file_encode;
use crate::sv8_file_encode::{Sv8Geometry, Sv8StreamSettings};
use crate::sv8_huffman::Sv8TableSet;
use crate::sv8_seek;
use crate::sv8_seek::{SeekTable, SEEK_TABLE_CAP};
use crate::sv8_seek_index;
use crate::sv8_seek_index::SeekIndex;
use crate::sv8_stereo_frame::{FrameMemory, StereoFrame};
use crate::sv8_stream_laws;
use crate::sv8_stream::StreamMemory;
use vstd::arithmetic::power2::*;
use vstd::prelude::*;

verus! {

// ---------------------------------------------------------------------------
// Decoding from a packet on
// ---------------------------------------------------------------------------

/// The packets from the `p`-th on are those of the frames from there on.
proof fn lemma_audio_part(
    tables: Sv8TableSet,
    frames: Seq<StereoFrame>,
    from: int,
    at: nat,
    s: Sv8StreamSettings,
    p: int,
) -> (m: nat)
    requires
        0 <= from <= frames.len(),
        sv8_file_encode::audio(tables, frames, from, at, s) is Ok,
        0 <= p < sv8_file_encode::audio(tables, frames, from, at, s)->Ok_0.offsets.len(),
    ensures
        ({
            let a = sv8_file_encode::audio(tables, frames, from, at, s)->Ok_0;
            let k = from + p * stream_headers::frames_of_power(s.block_power as nat);
            let part = sv8_file_encode::audio(tables, frames, k, at + m, s);
            &&& from <= k < frames.len()
            &&& m < a.bytes.len()
            &&& a.offsets[p] == (at + m) as u64
            &&& part is Ok
            &&& a.bytes.skip(m as int) == part->Ok_0.bytes
        }),
    decreases p,
{
    let n = frames.len() as int;
    let a = sv8_file_encode::audio(tables, frames, from, at, s)->Ok_0;
    let most = stream_headers::frames_of_power(s.block_power as nat) as int;
    stream_headers::lemma_frames_positive(s.block_power as nat);
    let to = sv8_file_encode::packet_end(from, n, s);
    let e = sv8_file_encode::emit_run(tables, frames, from, from, to, s, FrameMemory::blank());
    let payload = sv8_file_encode::in_bytes(e.code);
    let first = packets::packet(0x41, 0x50, payload);
    packets::lemma_packet_len(0x41, 0x50, payload);
    let more = sv8_file_encode::audio(tables, frames, to, at + first.len(), s)->Ok_0;
    if p == 0 {
        assert(0 * most == 0);
        assert(a.bytes.skip(0) =~= a.bytes);
        0
    } else {
        assert(more.offsets.len() > 0);
        assert(to == from + most);
        let m = lemma_audio_part(tables, frames, to, at + first.len(), s, p - 1);
        assert(from + p * most == to + (p - 1) * most) by (nonlinear_arith)
            requires
                to == from + most,
        ;
        assert(p * most >= 0) by (nonlinear_arith)
            requires
                p >= 0,
                most >= 1,
        ;
        assert(a.bytes.skip((first.len() + m) as int) =~= more.bytes.skip(m as int));
        first.len() + m
    }
}

/// Decoding goes through the written audio packets, and collects their frames.
proof fn lemma_frames_from(
    tables: Sv8TableSet,
    frames: Seq<StereoFrame>,
    from: int,
    at: nat,
    s: Sv8StreamSettings,
    first: bool,
    memory: StreamMemory,
    done: Seq<StereoFrame>,
    rest: Seq<u8>,
) -> (end: StreamMemory)
    requires
        tables.canonical(),
        0 <= from <= frames.len(),
        memory.max_band == s.max_band,
        memory.stream_ms == s.stream_ms,
        sv8_stream_laws::plain_run(
            frames,
            from,
            frames.len() as int,
            s.stream_ms,
            memory.noise,
        ),
        sv8_file_encode::audio(tables, frames, from, at, s) is Ok,
    ensures
        ({
            let a = sv8_file_encode::audio(tables, frames, from, at, s)->Ok_0;
            let most = stream_headers::frames_of_power(s.block_power as nat);
            let left = (frames.len() - from) as nat;
            sv8_seek_index::frames_from(tables, a.bytes + rest, most, first, memory, left, done)
                == sv8_seek_index::frames_from(
                tables,
                rest,
                most,
                first && from >= frames.len(),
                end,
                0,
                done + frames.skip(from),
            )
        }),
    decreases frames.len() - from,
{
    let n = frames.len() as int;
    let a = sv8_file_encode::audio(tables, frames, from, at, s)->Ok_0;
    let most = stream_headers::frames_of_power(s.block_power as nat);
    stream_headers::lemma_frames_positive(s.block_power as nat);
    if from >= n {
        assert(a.bytes + rest =~= rest);
        assert(done + frames.skip(from) =~= done);
        memory
    } else {
        let to = sv8_file_encode::packet_end(from, n, s);
        let e = sv8_file_encode::emit_run(tables, frames, from, from, to, s, FrameMemory::blank());
        let payload = sv8_file_encode::in_bytes(e.code);
        let p = packets::packet(0x41, 0x50, payload);
        let more = sv8_file_encode::audio(tables, frames, to, at + p.len(), s)->Ok_0;
        sv8_stream_laws::lemma_run_split(frames, from, to, n, s.stream_ms, memory.noise);
        sv8_stream_laws::law_packet_frames_read_back(tables, frames, from, to, s, memory.noise);
        packets::law_packet_reads_back(0x41, 0x50, payload, more.bytes + rest);
        assert(a.bytes + rest =~= p + (more.bytes + rest));
        let run = memory.reading(tables, payload, (to - from) as nat);
        let next = memory.after(run);
        let got = done + run.frames;
        assert(sv8_seek_index::frames_from(
            tables,
            a.bytes + rest,
            most,
            first,
            memory,
            (n - from) as nat,
            done,
        ) == sv8_seek_index::frames_from(
            tables,
            more.bytes + rest,
            most,
            false,
            next,
            (n - to) as nat,
            got,
        ));
        let end = lemma_frames_from(tables, frames, to, at + p.len(), s, false, next, got, rest);
        assert(got + frames.skip(to) =~= done + frames.skip(from));
        end
    }
}

/// The header packets of a composed stream are short.
proof fn lemma_prefix_len(g: Sv8Geometry, channels: u8, freq: u8, s: Sv8StreamSettings)
    ensures
        ({
            let (sh, rg, ei) = sv8_stream_laws::header_packets(g, channels, freq, s);
            &&& packets::packet(0x53, 0x48, sh).len() <= 38
            &&& packets::packet(0x52, 0x47, rg).len() <= 20
            &&& packets::packet(0x45, 0x49, ei).len() <= 15
        }),
{
    let (sh, rg, ei) = sv8_stream_laws::header_packets(g, channels, freq, s);
    packets::lemma_header_len(
        g.sample_count,
        g.beginning_silence,
        freq,
        s.max_band,
        channels,
        s.stream_ms,
        s.block_power,
    );
    packets::lemma_packet_len(0x53, 0x48, sh);
    packets::lemma_packet_len(0x52, 0x47, rg);
    packets::lemma_packet_len(0x45, 0x49, ei);
}

/// An entry of an index that names the packets of a composed stream leads to the frames from
/// there on, as they decode with a fresh noise generator.
pub proof fn law_entry_leads_on(
    tables: Sv8TableSet,
    g: Sv8Geometry,
    channels: u8,
    freq: u8,
    s: Sv8StreamSettings,
    frames: Seq<StereoFrame>,
    index: SeekIndex,
    entry: nat,
)
    requires
        tables.canonical(),
        sv8_stream_laws::in_range(g, channels, freq, s),
        sv8_decode::frames_for(g.sample_count as nat) == frames.len(),
        entry < index.positions.len(),
        index.frames_per_packet == stream_headers::frames_of_power(s.block_power as nat),
        ({
            let prefix = sv8_file_encode::prefix_bytes(g, channels, freq, s);
            let a = sv8_file_encode::audio(tables, frames, 0, prefix.len() + 8, s)->Ok_0;
            &&& sv8_file_encode::stream_bytes(tables, prefix, frames, s) is Ok
            &&& entry * index.packets_per_entry < a.offsets.len()
            &&& index.positions[entry as int] == a.offsets[(entry
                * index.packets_per_entry) as int]
        }),
        sv8_stream_laws::plain_run(
            frames,
            (entry * (index.packets_per_entry * index.frames_per_packet)) as int,
            frames.len() as int,
            s.stream_ms,
            crate::cns::CnsPrng { down: 1, up: 1 },
        ),
    ensures
        ({
            let prefix = sv8_file_encode::prefix_bytes(g, channels, freq, s);
            let b = sv8_file_encode::stream_bytes(tables, prefix, frames, s)->Ok_0;
            let first = entry * (index.packets_per_entry * index.frames_per_packet);
            sv8_seek_index::decode_from(tables, b, index, entry) == Ok::<
                (nat, Seq<StereoFrame>),
                Error,
            >((first, frames.skip(first as int)))
        }),
{
    let (so, st, end) = sv8_stream_laws::lemma_stream_parts(tables, g, channels, freq, s, frames);
    let prefix = sv8_file_encode::prefix_bytes(g, channels, freq, s);
    let b = sv8_file_encode::stream_bytes(tables, prefix, frames, s)->Ok_0;
    let (sh, rg, ei) = sv8_stream_laws::header_packets(g, channels, freq, s);
    let a = sv8_file_encode::audio(tables, frames, 0, prefix.len() + 8, s)->Ok_0;
    let h = sv8_stream_laws::header_for(g, channels, freq, s);
    let most = index.frames_per_packet;
    let none = Seq::<u8>::empty();
    let d4 = a.bytes + end;
    let d3 = packets::packet(0x53, 0x4f, so) + d4;
    let d2 = packets::packet(0x45, 0x49, ei) + d3;
    let d1 = packets::packet(0x52, 0x47, rg) + d2;
    sv8_stream_laws::lemma_head_packets(tables, g, channels, freq, s, d1, d2, d3, so, d4);
    assert(sv8_seek_index::first_header(b.skip(4)) == Ok::<
        Option<StreamHeaderFields>,
        Error,
    >(Some(h)));
    let p = entry * index.packets_per_entry;
    let first = entry * (index.packets_per_entry * most);
    vstd::arithmetic::mul::lemma_mul_is_associative(
        entry as int,
        index.packets_per_entry as int,
        most as int,
    );
    let m = lemma_audio_part(tables, frames, 0, prefix.len() + 8, s, p as int);
    lemma_prefix_len(g, channels, freq, s);
    sv8_file_encode::lemma_small_packet(0x53, 0x4f, so);
    let start = index.positions[entry as int];
    assert(start == prefix.len() + 8 + m);
    lemma_place(
        b,
        packets::packet(0x53, 0x48, sh),
        packets::packet(0x52, 0x47, rg),
        packets::packet(0x45, 0x49, ei),
        packets::packet(0x53, 0x4f, so),
        a.bytes,
        end,
        m,
    );
    let part = sv8_file_encode::audio(tables, frames, first as int, prefix.len() + 8 + m, s);
    assert(b.skip(start as int) == part->Ok_0.bytes + end);
    let memory = StreamMemory::fresh(h);
    let last_memory = lemma_frames_from(
        tables,
        frames,
        first as int,
        prefix.len() + 8 + m,
        s,
        true,
        memory,
        Seq::empty(),
        end,
    );
    let got = Seq::<StereoFrame>::empty() + frames.skip(first as int);
    assert(got =~= frames.skip(first as int));
    let last = packets::packet(0x53, 0x45, none);
    packets::law_packet_reads_back(0x53, 0x54, st, last);
    packets::law_packet_reads_back(0x53, 0x45, none, none);
    assert(last + none =~= last);
    assert(sv8_seek_index::frames_from(tables, end, most, false, last_memory, 0, got)
        == sv8_seek_index::frames_from(tables, last, most, false, last_memory, 0, got));
}

/// A packet of a composed stream stands where it was counted to.
proof fn lemma_place(
    b: Seq<u8>,
    h0: Seq<u8>,
    h1: Seq<u8>,
    h2: Seq<u8>,
    h3: Seq<u8>,
    sound: Seq<u8>,
    end: Seq<u8>,
    m: nat,
)
    requires
        b.len() >= 4,
        b.skip(4) == h0 + (h1 + (h2 + (h3 + (sound + end)))),
        m < sound.len(),
    ensures
        b.skip((4 + h0.len() + h1.len() + h2.len() + h3.len() + m) as int) == sound.skip(m as int) + end,
        4 + h0.len() + h1.len() + h2.len() + h3.len() + m < b.len(),
{
    let d4 = sound + end;
    let d3 = h3 + d4;
    let d2 = h2 + d3;
    let d1 = h1 + d2;
    let n3 = h3.len() + m;
    let n2 = h2.len() + n3;
    let n1 = h1.len() + n2;
    sv8_stream_laws::lemma_skip_part(h0, d1, n1 as int);
    sv8_stream_laws::lemma_skip_part(h1, d2, n2 as int);
    sv8_stream_laws::lemma_skip_part(h2, d3, n3 as int);
    sv8_stream_laws::lemma_skip_part(h3, d4, m as int);
    assert(d4.skip(m as int) =~= sound.skip(m as int) + end);
    assert(b.skip((4 + h0.len() + n1) as int) =~= b.skip(4).skip((h0.len() + n1) as int));
}

// ---------------------------------------------------------------------------
// The stored index
// ---------------------------------------------------------------------------

/// Entry `i` of an index is the packet `i * packets_per_entry`.
pub open spec fn names_packet(index: SeekIndex, offsets: Seq<u64>, i: int) -> bool {
    &&& 0 <= i * index.packets_per_entry < offsets.len()
    &&& index.positions[i] == offsets[i * index.packets_per_entry]
}

/// Every entry of an index is a packet.
pub open spec fn names_packets(index: SeekIndex, offsets: Seq<u64>) -> bool {
    forall|i: int|
        0 <= i < index.positions.len() ==> #[trigger] names_packet(index, offsets, i)
}

/// Thinning a table that names every second packet leaves one that names packets.
proof fn lemma_thinned(kept: Seq<u64>, offsets: Seq<u64>, stride: nat, i: int)
    requires
        stride > 0,
        2 * kept.len() <= offsets.len() + 1,
        forall|j: int| 0 <= j < kept.len() ==> #[trigger] kept[j] == offsets[2 * j],
        0 <= i < sv8_seek_index::strided(kept, stride).len(),
    ensures
        0 <= i * (2 * stride) < offsets.len(),
        sv8_seek_index::strided(kept, stride)[i] == offsets[i * (2 * stride)],
{
    let k = stride as int;
    let n = (kept.len() + k - 1) / k;
    vstd::arithmetic::div_mod::lemma_fundamental_div_mod(kept.len() + k - 1, k);
    assert(0 <= i * k < kept.len()) by (nonlinear_arith)
        requires
            0 <= i < n,
            k > 0,
            kept.len() + k - 1 == k * n + (kept.len() + k - 1) % k,
            0 <= (kept.len() + k - 1) % k,
    ;
    assert(i * (2 * k) == 2 * (i * k)) by (nonlinear_arith);
    assert(kept[i * k] == offsets[2 * (i * k)]);
}

/// An index of every `stride`-th entry of such a table names packets.
proof fn lemma_names_packets(index: SeekIndex, kept: Seq<u64>, offsets: Seq<u64>, stride: nat)
    requires
        stride > 0,
        2 * kept.len() <= offsets.len() + 1,
        forall|j: int| 0 <= j < kept.len() ==> #[trigger] kept[j] == offsets[2 * j],
        index.positions == sv8_seek_index::strided(kept, stride),
        index.packets_per_entry == 2 * stride,
    ensures
        names_packets(index, offsets),
{
    assert forall|i: int| 0 <= i < index.positions.len() implies #[trigger] names_packet(
        index,
        offsets,
        i,
    ) by {
        lemma_thinned(kept, offsets, stride, i);
    }
}

/// The index that a composed stream carries names its packets: it agrees with a walk over
/// them, whatever number of entries it is thinned to.
pub proof fn law_stored_index_agrees(
    tables: Sv8TableSet,
    g: Sv8Geometry,
    channels: u8,
    freq: u8,
    s: Sv8StreamSettings,
    frames: Seq<StereoFrame>,
    ceiling: nat,
)
    requires
        sv8_stream_laws::in_range(g, channels, freq, s),
        ({
            let prefix = sv8_file_encode::prefix_bytes(g, channels, freq, s);
            sv8_file_encode::stream_bytes(tables, prefix, frames, s) is Ok
        }),
    ensures
        ({
            let prefix = sv8_file_encode::prefix_bytes(g, channels, freq, s);
            let b = sv8_file_encode::stream_bytes(tables, prefix, frames, s)->Ok_0;
            let stored = sv8_seek_index::stored_index(b, ceiling);
            let walked = sv8_seek_index::walked_index(b);
            &&& stored matches Ok(Some(_))
            &&& walked is Ok
            &&& names_packets(stored->Ok_0->0, walked->Ok_0.positions)
            &&& stored->Ok_0->0.frames_per_packet == walked->Ok_0.frames_per_packet
        }),
{
    sv8_stream_laws::law_stream_walks(tables, g, channels, freq, s, frames);
    sv8_stream_laws::law_stream_seeks(tables, g, channels, freq, s, frames);
    let (so, st, end) = sv8_stream_laws::lemma_stream_parts(tables, g, channels, freq, s, frames);
    let prefix = sv8_file_encode::prefix_bytes(g, channels, freq, s);
    let b = sv8_file_encode::stream_bytes(tables, prefix, frames, s)->Ok_0;
    let a = sv8_file_encode::audio(tables, frames, 0, prefix.len() + 8, s)->Ok_0;
    let h = sv8_stream_laws::header_for(g, channels, freq, s);
    let table = sv8_file_encode::table_for(a.offsets);
    let index = sv8_seek_index::index_of(table, Some(h), ceiling);
    assert(sv8_seek_index::stored_index(b, ceiling) == Ok::<Option<SeekIndex>, Error>(
        Some(index),
    ));
    let power = (2 * h.block_power + table.seek_pwr_delta) as nat;
    let most = if ceiling < 2 {
        2
    } else {
        ceiling
    };
    let d = sv8_seek_index::doublings(h.sample_count as nat, power, most, 0);
    let justified = sv8_seek_index::needed(h.sample_count as nat, power + d) * pow2(d);
    let kept = if table.entries.len() > justified {
        table.entries.take(justified as int)
    } else {
        table.entries
    };
    lemma_pow2_pos(d);
    lemma2_to64();
    assert(index.positions == sv8_seek_index::strided(kept, pow2(d)));
    assert(index.packets_per_entry == 2 * pow2(d));
    lemma_names_packets(index, kept, a.offsets, pow2(d));
}

/// A table of every second packet has no more entries than its stream's sample count asks for.
proof fn lemma_justified(samples: int, offsets: int, most: int, span: int, stride: int)
    requires
        samples >= 0,
        offsets >= 1,
        most >= 1,
        stride >= 1,
        span == 1152 * (2 * most * stride),
        (offsets - 1) * most < (samples + 1151) / 1152,
    ensures
        offsets <= 2 * ((2 + samples / span) * stride),
{
    let x = samples / span;
    assert(span >= 1152) by (nonlinear_arith)
        requires
            most >= 1,
            stride >= 1,
            span == 1152 * (2 * most * stride),
    ;
    vstd::arithmetic::div_mod::lemma_fundamental_div_mod(samples, span);
    vstd::arithmetic::div_mod::lemma_mod_bound(samples, span);
    let wide = (x + 1) * (2 * most * stride);
    assert(samples < 1152 * wide) by (nonlinear_arith)
        requires
            samples == span * x + samples % span,
            samples % span < span,
            span == 1152 * (2 * most * stride),
            wide == (x + 1) * (2 * most * stride),
    ;
    assert((samples + 1151) / 1152 <= wide);
    assert(offsets - 1 < (x + 1) * (2 * stride)) by (nonlinear_arith)
        requires
            (offsets - 1) * most < wide,
            wide == (x + 1) * (2 * most * stride),
            most >= 1,
    ;
    assert((x + 1) * (2 * stride) <= 2 * ((2 + x) * stride)) by (nonlinear_arith)
        requires
            stride >= 1,
    ;
}

/// The needed entries, with the span of an entry given.
proof fn lemma_needed(samples: nat, power: nat, span: int)
    requires
        span == 1152 * pow2(power),
    ensures
        sv8_seek_index::needed(samples, power) == 2 + samples as int / span,
{
    lemma_pow2_pos(power);
    vstd::arithmetic::div_mod::lemma_div_pos_is_pos(samples as int, span);
}

/// The index that a composed stream carries reaches every packet: with the entries that there
/// are, no packet is left behind.
pub proof fn law_stored_index_reaches(
    tables: Sv8TableSet,
    g: Sv8Geometry,
    channels: u8,
    freq: u8,
    s: Sv8StreamSettings,
    frames: Seq<StereoFrame>,
    ceiling: nat,
)
    requires
        sv8_stream_laws::in_range(g, channels, freq, s),
        sv8_decode::frames_for(g.sample_count as nat) == frames.len(),
        ({
            let prefix = sv8_file_encode::prefix_bytes(g, channels, freq, s);
            sv8_file_encode::stream_bytes(tables, prefix, frames, s) is Ok
        }),
    ensures
        ({
            let prefix = sv8_file_encode::prefix_bytes(g, channels, freq, s);
            let b = sv8_file_encode::stream_bytes(tables, prefix, frames, s)->Ok_0;
            let stored = sv8_seek_index::stored_index(b, ceiling)->Ok_0->0;
            let walked = sv8_seek_index::walked_index(b)->Ok_0;
            stored.positions.len() * stored.packets_per_entry >= walked.positions.len()
        }),
{
    law_stored_index_agrees(tables, g, channels, freq, s, frames, ceiling);
    sv8_stream_laws::law_stream_walks(tables, g, channels, freq, s, frames);
    sv8_stream_laws::law_stream_seeks(tables, g, channels, freq, s, frames);
    let (so, st, end) = sv8_stream_laws::lemma_stream_parts(tables, g, channels, freq, s, frames);
    let prefix = sv8_file_encode::prefix_bytes(g, channels, freq, s);
    let a = sv8_file_encode::audio(tables, frames, 0, prefix.len() + 8, s)->Ok_0;
    let h = sv8_stream_laws::header_for(g, channels, freq, s);
    let table = sv8_file_encode::table_for(a.offsets);
    let most = stream_headers::frames_of_power(s.block_power as nat) as int;
    let power = (2 * h.block_power + table.seek_pwr_delta) as nat;
    let limit = if ceiling < 2 {
        2
    } else {
        ceiling
    };
    let d = sv8_seek_index::doublings(h.sample_count as nat, power, limit, 0);
    let stride = pow2(d);
    lemma_pow2_pos(d);
    lemma2_to64();
    let entries = table.entries.len() as int;
    let n = a.offsets.len() as int;
    let justified = sv8_seek_index::needed(h.sample_count as nat, power + d) * stride;
    if n > 0 {
        stream_headers::lemma_frames_positive(s.block_power as nat);
        let m = lemma_audio_part(tables, frames, 0, prefix.len() + 8, s, n - 1);
        lemma_frames_power(s.block_power as nat);
        lemma_pow2_adds(power, d);
        lemma_pow2_unfold(power);
        let span = (1152 * pow2(power + d)) as int;
        assert(span == 1152 * (2 * most * stride)) by (nonlinear_arith)
            requires
                span == 1152 * (pow2(power) * stride),
                pow2(power) == 2 * most,
        ;
        lemma_justified(g.sample_count as int, n, most, span, stride as int);
        lemma_needed(h.sample_count as nat, power + d, span);
    } else {
        assert(justified >= 0) by (nonlinear_arith)
            requires
                justified == sv8_seek_index::needed(h.sample_count as nat, power + d) * stride,
        ;
    }
    assert(entries <= justified);
    lemma_strided_reaches(entries, n, stride as int);
}

/// The frames of a packet are a power of two.
proof fn lemma_frames_power(power: nat)
    ensures
        stream_headers::frames_of_power(power) == pow2(2 * power),
    decreases power,
{
    lemma2_to64();
    if power > 0 {
        lemma_frames_power((power - 1) as nat);
        lemma_pow2_unfold(2 * power);
        lemma_pow2_unfold((2 * power - 1) as nat);
    }
}

/// Taking every `stride`-th of `entries` entries, one for every second of `n`, reaches all.
proof fn lemma_strided_reaches(entries: int, n: int, stride: int)
    requires
        entries == (n + 1) / 2,
        n >= 0,
        stride >= 1,
    ensures
        ((entries + stride - 1) / stride) * (2 * stride) >= n,
{
    let k = (entries + stride - 1) / stride;
    vstd::arithmetic::div_mod::lemma_fundamental_div_mod(entries + stride - 1, stride);
    vstd::arithmetic::div_mod::lemma_mod_bound(entries + stride - 1, stride);
    assert(k * (2 * stride) >= 2 * entries) by (nonlinear_arith)
        requires
            entries + stride - 1 == stride * k + (entries + stride - 1) % stride,
            (entries + stride - 1) % stride < stride,
    ;
}

// ---------------------------------------------------------------------------
// Thinning
// ---------------------------------------------------------------------------

/// Doubling ends where few enough entries are needed.
proof fn lemma_doubled_enough(samples: nat, power: nat, ceiling: nat, d: nat)
    requires
        samples <= u64::MAX,
        ceiling >= 2,
        power <= 40,
        power + d <= 54,
    ensures
        sv8_seek_index::needed(
            samples,
            power + sv8_seek_index::doublings(samples, power, ceiling, d),
        ) <= ceiling,
    decreases 54 - power - d,
{
    lemma2_to64();
    lemma2_to64_rest();
    if sv8_seek_index::needed(samples, power + d) > ceiling {
        if power + d == 54 {
            vstd::arithmetic::div_mod::lemma_basic_div(samples as int, (1152 * pow2(54)) as int);
        } else {
            lemma_doubled_enough(samples, power, ceiling, d + 1);
        }
    }
}

/// Fewer entries are needed than there are when each stands for `stride` of them.
proof fn lemma_needed_falls(samples: nat, power: nat, d: nat)
    ensures
        sv8_seek_index::needed(samples, power) <= sv8_seek_index::needed(samples, power + d) * pow2(
            d,
        ),
{
    lemma_pow2_pos(power);
    lemma_pow2_pos(d);
    lemma_pow2_pos(power + d);
    lemma_pow2_adds(power, d);
    let one = (1152 * pow2(power)) as int;
    let stride = pow2(d) as int;
    let wide = (1152 * pow2(power + d)) as int;
    lemma_needed(samples, power, one);
    lemma_needed(samples, power + d, wide);
    assert(wide == one * stride) by (nonlinear_arith)
        requires
            wide == 1152 * (pow2(power) * stride),
            one == 1152 * pow2(power),
    ;
    let s = samples as int;
    let x = s / one;
    let y = s / wide;
    vstd::arithmetic::div_mod::lemma_fundamental_div_mod(s, one);
    vstd::arithmetic::div_mod::lemma_mod_bound(s, one);
    vstd::arithmetic::div_mod::lemma_fundamental_div_mod(s, wide);
    vstd::arithmetic::div_mod::lemma_mod_bound(s, wide);
    assert(x < (y + 1) * stride) by (nonlinear_arith)
        requires
            s == one * x + s % one,
            0 <= s % one,
            s == wide * y + s % wide,
            s % wide < wide,
            wide == one * stride,
            one > 0,
    ;
    assert((2 + y) * stride == (y + 1) * stride + stride) by (nonlinear_arith);
}

/// Every entry of a sequence is the sequence.
proof fn lemma_strided_one(entries: Seq<u64>)
    ensures
        sv8_seek_index::strided(entries, 1) == entries,
{
    let s = sv8_seek_index::strided(entries, 1);
    assert(s.len() == entries.len()) by (nonlinear_arith)
        requires
            s.len() == (entries.len() + 1 - 1) as nat / 1,
    ;
    assert forall|i: int| 0 <= i < s.len() implies #[trigger] s[i] == entries[i] by {
        assert(i * 1 == i);
    }
    assert(s =~= entries);
}

/// An index that was thinned: it has every `2^k`-th position of another, and perhaps more
/// behind them.
pub open spec fn is_thinned(x: SeekIndex, full: SeekIndex, k: nat) -> bool {
    &&& x.packets_per_entry == full.packets_per_entry * pow2(k)
    &&& x.frames_per_packet == full.frames_per_packet
    &&& sv8_seek_index::strided(full.positions, pow2(k)).is_prefix_of(x.positions)
}

/// How an index under a ceiling relates to one without.
proof fn lemma_thinning(
    table: SeekTable,
    h: StreamHeaderFields,
    ceiling: nat,
) -> (k: nat)
    requires
        table.seek_pwr_delta <= 15,
        h.block_power < 8,
    ensures
        ({
            let x = sv8_seek_index::index_of(table, Some(h), ceiling);
            let full = sv8_seek_index::index_of(table, Some(h), u64::MAX as nat);
            &&& x.positions.len() <= if ceiling < 2 {
                2
            } else {
                ceiling
            }
            &&& is_thinned(x, full, k)
        }),
{
    let samples = h.sample_count as nat;
    let power = (2 * h.block_power + table.seek_pwr_delta) as nat;
    let most = if ceiling < 2 {
        2
    } else {
        ceiling
    };
    let entries = table.entries;
    let x = sv8_seek_index::index_of(table, Some(h), ceiling);
    let full = sv8_seek_index::index_of(table, Some(h), u64::MAX as nat);
    let d = sv8_seek_index::doublings(samples, power, most, 0);
    lemma_doubled_enough(samples, power, most, 0);
    lemma_needed_falls(samples, power, d);
    lemma_pow2_pos(d);
    lemma_pow2_pos(power);
    lemma2_to64();
    let one = (1152 * pow2(power)) as int;
    lemma_needed(samples, power, one);
    vstd::arithmetic::div_mod::lemma_div_is_ordered_by_denominator(samples as int, 1152, one);
    assert(sv8_seek_index::doublings(samples, power, u64::MAX as nat, 0) == 0);
    let few = sv8_seek_index::needed(samples, power);
    let need = sv8_seek_index::needed(samples, power + d);
    let stride = pow2(d) as int;
    let kept = if entries.len() > need * pow2(d) {
        entries.take((need * pow2(d)) as int)
    } else {
        entries
    };
    let all = if entries.len() > few {
        entries.take(few as int)
    } else {
        entries
    };
    assert(few * pow2(0) == few);
    lemma_strided_one(all);
    assert(full.positions == all);
    assert(x.positions == sv8_seek_index::strided(kept, pow2(d)));
    assert(x.packets_per_entry == full.packets_per_entry * pow2(d)) by {
        assert(full.packets_per_entry == pow2(table.seek_pwr_delta as nat) * 1);
    }
    assert(kept.len() <= need * stride);
    assert((kept.len() + stride - 1) / stride <= need) by {
        vstd::arithmetic::div_mod::lemma_fundamental_div_mod(kept.len() + stride - 1, stride);
        vstd::arithmetic::div_mod::lemma_mod_bound(kept.len() + stride - 1, stride);
        let q = (kept.len() + stride - 1) / stride;
        assert(q <= need) by (nonlinear_arith)
            requires
                kept.len() + stride - 1 == stride * q + (kept.len() + stride - 1) % stride,
                0 <= (kept.len() + stride - 1) % stride,
                kept.len() <= need * stride,
                stride > 0,
        ;
    }
    let part = sv8_seek_index::strided(all, pow2(d));
    vstd::arithmetic::div_mod::lemma_div_is_ordered(
        all.len() + stride - 1,
        kept.len() + stride - 1,
        stride,
    );
    assert(part.len() <= x.positions.len());
    assert forall|i: int| 0 <= i < part.len() implies #[trigger] part[i] == x.positions[i] by {
        vstd::arithmetic::div_mod::lemma_fundamental_div_mod(all.len() + stride - 1, stride);
        vstd::arithmetic::div_mod::lemma_mod_bound(all.len() + stride - 1, stride);
        let q = (all.len() + stride - 1) / stride;
        assert(0 <= i * stride < all.len()) by (nonlinear_arith)
            requires
                0 <= i < q,
                all.len() + stride - 1 == stride * q + (all.len() + stride - 1) % stride,
                0 <= (all.len() + stride - 1) % stride,
                stride > 0,
        ;
    }
    assert(part =~= x.positions.take(part.len() as int));
    d
}

/// The header that a walk over the packets before the audio finds has a block power of three
/// bits.
proof fn lemma_prefix_power(data: Seq<u8>, at: nat, header: Option<StreamHeaderFields>)
    requires
        header matches Some(h) ==> h.block_power < 8,
    ensures
        sv8_seek_index::prefix_of(data, at, header) matches Ok(p) ==> (p.header matches Some(h)
            ==> h.block_power < 8),
    decreases data.len(),
{
    framing::lemma_packet_extent(data);
    if let Ok(Some(p)) = framing::packet_at(data) {
        let rest = data.skip(p.extent() as int);
        match p.key {
            PacketKey::StreamHeader => {
                reveal(stream_headers::header_of);
                if let Ok(h) = stream_headers::header_of(p.payload) {
                    lemma_prefix_power(rest, at + p.extent(), Some(h));
                }
            },
            _ => {
                lemma_prefix_power(rest, at + p.extent(), header);
            },
        }
    }
}

/// Thinning a stored index to a ceiling: no more than `ceiling` positions are left, or two
/// where the ceiling is below that; the distance of the entries doubles some times; and the
/// positions at that distance are all still there, in front.
pub proof fn law_thinning(input: Seq<u8>, ceiling: nat)
    requires
        sv8_seek_index::stored_index(input, u64::MAX as nat) matches Ok(Some(_)),
        sv8_seek_index::prefix_of(input.skip(4), 0, None) matches Ok(p) && p.header is Some,
    ensures
        sv8_seek_index::stored_index(input, ceiling) matches Ok(Some(_)),
        sv8_seek_index::stored_index(input, ceiling)->Ok_0->0.positions.len() <= if ceiling < 2 {
            2
        } else {
            ceiling
        },
        exists|k: nat|
            #[trigger] is_thinned(
                sv8_seek_index::stored_index(input, ceiling)->Ok_0->0,
                sv8_seek_index::stored_index(input, u64::MAX as nat)->Ok_0->0,
                k,
            ),
{
    let p = sv8_seek_index::prefix_of(input.skip(4), 0, None)->Ok_0;
    lemma_prefix_power(input.skip(4), 0, None);
    let (at, v) = p.offset->0;
    let table = sv8_seek_index::table_at(input.skip(4), at, v)->Ok_0;
    sv8_seek_index::lemma_table_at(input.skip(4), at, v);
    let h = p.header->0;
    let k = lemma_thinning(table, h, ceiling);
    let x = sv8_seek_index::index_of(table, Some(h), ceiling);
    let full = sv8_seek_index::index_of(table, Some(h), u64::MAX as nat);
    assert(sv8_seek_index::stored_index(input, ceiling) == Ok::<Option<SeekIndex>, Error>(
        Some(x),
    ));
    assert(sv8_seek_index::stored_index(input, u64::MAX as nat) == Ok::<
        Option<SeekIndex>,
        Error,
    >(Some(full)));
    assert(is_thinned(
        sv8_seek_index::stored_index(input, ceiling)->Ok_0->0,
        sv8_seek_index::stored_index(input, u64::MAX as nat)->Ok_0->0,
        k,
    ));
}

// ---------------------------------------------------------------------------
// Streams that need no thinning
// ---------------------------------------------------------------------------

/// Where the packets of a composed stream start: later ones behind earlier ones, each with the
/// key of an audio packet.
proof fn lemma_packet_starts(
    tables: Sv8TableSet,
    frames: Seq<StereoFrame>,
    from: int,
    at: nat,
    s: Sv8StreamSettings,
    p: int,
)
    requires
        0 <= from <= frames.len(),
        sv8_file_encode::audio(tables, frames, from, at, s) is Ok,
        0 <= p < sv8_file_encode::audio(tables, frames, from, at, s)->Ok_0.offsets.len(),
        at + sv8_file_encode::audio(tables, frames, from, at, s)->Ok_0.bytes.len() <= u64::MAX,
    ensures
        ({
            let a = sv8_file_encode::audio(tables, frames, from, at, s)->Ok_0;
            let m = a.offsets[p] - at;
            &&& 0 <= m
            &&& m + 2 < a.bytes.len()
            &&& a.bytes[m] == 0x41
            &&& a.bytes[m + 1] == 0x50
            &&& p > 0 ==> a.offsets[p - 1] < a.offsets[p]
        }),
    decreases p,
{
    let n = frames.len() as int;
    let a = sv8_file_encode::audio(tables, frames, from, at, s)->Ok_0;
    stream_headers::lemma_frames_positive(s.block_power as nat);
    let to = sv8_file_encode::packet_end(from, n, s);
    let e = sv8_file_encode::emit_run(tables, frames, from, from, to, s, FrameMemory::blank());
    let payload = sv8_file_encode::in_bytes(e.code);
    let first = packets::packet(0x41, 0x50, payload);
    packets::lemma_packet_len(0x41, 0x50, payload);
    let more = sv8_file_encode::audio(tables, frames, to, at + first.len(), s)->Ok_0;
    if p == 0 {
        reveal(packets::packet);
        assert(first[0] == 0x41 && first[1] == 0x50);
    } else {
        lemma_packet_starts(tables, frames, to, at + first.len(), s, p - 1);
        assert(a.offsets[p] == more.offsets[p - 1]);
        if p > 1 {
            assert(a.offsets[p - 1] == more.offsets[p - 2]);
        }
    }
}

/// Packets further on start further on.
proof fn lemma_starts_rise(offsets: Seq<u64>, i: int, j: int)
    requires
        0 <= i < j < offsets.len(),
        forall|p: int| 0 < p < offsets.len() ==> offsets[p - 1] < #[trigger] offsets[p],
    ensures
        offsets[i] < offsets[j],
    decreases j - i,
{
    if i + 1 < j {
        lemma_starts_rise(offsets, i, j - 1);
    }
}

/// So few packets need no thinning.
proof fn lemma_few_needed(samples: int, offsets: int, most: int, span: int)
    requires
        0 <= samples,
        0 <= offsets <= 100_000,
        most >= 1,
        span == 1152 * (2 * most),
        samples <= 1152 * (offsets * most),
    ensures
        2 + samples / span <= 65536,
{
    assert(samples <= 50_000 * span) by (nonlinear_arith)
        requires
            samples <= 1152 * (offsets * most),
            offsets <= 100_000,
            most >= 1,
            span == 1152 * (2 * most),
    ;
    assert(span >= 1152);
    vstd::arithmetic::div_mod::lemma_div_is_ordered(samples, 50_000 * span, span);
    vstd::arithmetic::div_mod::lemma_div_multiples_vanish(50_000, span);
    vstd::arithmetic::mul::lemma_mul_is_commutative(50_000, span);
}

/// The packets of a stream hold its frames.
proof fn lemma_packets_hold(
    tables: Sv8TableSet,
    frames: Seq<StereoFrame>,
    from: int,
    at: nat,
    s: Sv8StreamSettings,
)
    requires
        0 <= from <= frames.len(),
        sv8_file_encode::audio(tables, frames, from, at, s) is Ok,
    ensures
        frames.len() - from <= sv8_file_encode::audio(tables, frames, from, at, s)->Ok_0.offsets.len()
            * stream_headers::frames_of_power(s.block_power as nat),
    decreases frames.len() - from,
{
    let n = frames.len() as int;
    let a = sv8_file_encode::audio(tables, frames, from, at, s)->Ok_0;
    let most = stream_headers::frames_of_power(s.block_power as nat) as int;
    stream_headers::lemma_frames_positive(s.block_power as nat);
    if from >= n {
        assert(a.offsets.len() == 0);
        assert(0 * most == 0);
    } else {
        let to = sv8_file_encode::packet_end(from, n, s);
        let e = sv8_file_encode::emit_run(tables, frames, from, from, to, s, FrameMemory::blank());
        let payload = sv8_file_encode::in_bytes(e.code);
        let first = packets::packet(0x41, 0x50, payload);
        let more = sv8_file_encode::audio(tables, frames, to, at + first.len(), s)->Ok_0;
        lemma_packets_hold(tables, frames, to, at + first.len(), s);
        let k = more.offsets.len() as int;
        assert(a.offsets.len() == 1 + k);
        assert((1 + k) * most == most + k * most) by (nonlinear_arith);
    }
}

/// A composed stream of up to 100000 packets: walking over it finds its packets, one behind
/// the other, each where its key stands; and its own index names every second of them.
pub proof fn law_stored_index_of_few(
    tables: Sv8TableSet,
    g: Sv8Geometry,
    channels: u8,
    freq: u8,
    s: Sv8StreamSettings,
    frames: Seq<StereoFrame>,
)
    requires
        sv8_stream_laws::in_range(g, channels, freq, s),
        sv8_decode::frames_for(g.sample_count as nat) == frames.len(),
        ({
            let prefix = sv8_file_encode::prefix_bytes(g, channels, freq, s);
            &&& sv8_file_encode::stream_bytes(tables, prefix, frames, s) is Ok
            &&& sv8_file_encode::audio(
                tables,
                frames,
                0,
                prefix.len() + 8,
                s,
            )->Ok_0.offsets.len() <= 100_000
        }),
    ensures
        ({
            let prefix = sv8_file_encode::prefix_bytes(g, channels, freq, s);
            let b = sv8_file_encode::stream_bytes(tables, prefix, frames, s)->Ok_0;
            let a = sv8_file_encode::audio(tables, frames, 0, prefix.len() + 8, s)->Ok_0;
            let w = sv8_seek_index::walked_index(b)->Ok_0;
            let x = sv8_seek_index::stored_index(b, SEEK_TABLE_CAP as nat)->Ok_0->0;
            &&& sv8_seek_index::walked_index(b) is Ok
            &&& sv8_seek_index::stored_index(b, SEEK_TABLE_CAP as nat) is Ok
            &&& sv8_seek_index::stored_index(b, SEEK_TABLE_CAP as nat)->Ok_0 is Some
            &&& w.positions.len() == a.offsets.len()
            &&& w.packets_per_entry == 1
            &&& forall|i: int, j: int|
                0 <= i < j < w.positions.len() ==> #[trigger] w.positions[i]
                    < #[trigger] w.positions[j]
            &&& forall|i: int|
                0 <= i < w.positions.len() ==> (#[trigger] w.positions[i]) + 1 < b.len()
                    && b[w.positions[i] as int] == 0x41 && b[w.positions[i] + 1] == 0x50
            &&& x.packets_per_entry == 2
            &&& x.frames_per_packet == w.frames_per_packet
            &&& x.positions == sv8_seek_index::strided(w.positions, 2)
        }),
{
    sv8_stream_laws::law_stream_walks(tables, g, channels, freq, s, frames);
    sv8_stream_laws::law_stream_seeks(tables, g, channels, freq, s, frames);
    let (so, st, end) = sv8_stream_laws::lemma_stream_parts(tables, g, channels, freq, s, frames);
    let prefix = sv8_file_encode::prefix_bytes(g, channels, freq, s);
    let b = sv8_file_encode::stream_bytes(tables, prefix, frames, s)->Ok_0;
    let a = sv8_file_encode::audio(tables, frames, 0, prefix.len() + 8, s)->Ok_0;
    let (sh, rg, ei) = sv8_stream_laws::header_packets(g, channels, freq, s);
    let h = sv8_stream_laws::header_for(g, channels, freq, s);
    let table = sv8_file_encode::table_for(a.offsets);
    let at = (prefix.len() + 8) as int;
    lemma_prefix_len(g, channels, freq, s);
    sv8_file_encode::lemma_small_packet(0x53, 0x4f, so);
    assert forall|i: int| 0 <= i < a.offsets.len() implies (#[trigger] a.offsets[i]) + 1 < b.len()
        && b[a.offsets[i] as int] == 0x41 && b[a.offsets[i] + 1] == 0x50 by {
        lemma_packet_starts(tables, frames, 0, at as nat, s, i);
        let m = (a.offsets[i] - at) as nat;
        lemma_place(
            b,
            packets::packet(0x53, 0x48, sh),
            packets::packet(0x52, 0x47, rg),
            packets::packet(0x45, 0x49, ei),
            packets::packet(0x53, 0x4f, so),
            a.bytes,
            end,
            m,
        );
        let tail = b.skip(a.offsets[i] as int);
        assert(tail[0] == a.bytes.skip(m as int)[0]);
        assert(tail[1] == a.bytes.skip(m as int)[1]);
    }
    assert forall|p: int| 0 < p < a.offsets.len() implies a.offsets[p - 1]
        < #[trigger] a.offsets[p] by {
        lemma_packet_starts(tables, frames, 0, at as nat, s, p);
    }
    assert forall|i: int, j: int| 0 <= i < j < a.offsets.len() implies #[trigger] a.offsets[i]
        < #[trigger] a.offsets[j] by {
        lemma_starts_rise(a.offsets, i, j);
    }
    lemma_few(tables, g, channels, freq, s, frames);
    assert(sv8_seek_index::strided(a.offsets, 2) =~= table.entries) by {
        let n = a.offsets.len();
        assert((n + 2 - 1) as nat / 2 == (n + 1) as nat / 2);
    }
}

/// The index of such a stream is its table.
proof fn lemma_few(
    tables: Sv8TableSet,
    g: Sv8Geometry,
    channels: u8,
    freq: u8,
    s: Sv8StreamSettings,
    frames: Seq<StereoFrame>,
)
    requires
        sv8_decode::frames_for(g.sample_count as nat) == frames.len(),
        ({
            let prefix = sv8_file_encode::prefix_bytes(g, channels, freq, s);
            let a = sv8_file_encode::audio(tables, frames, 0, prefix.len() + 8, s);
            a is Ok && a->Ok_0.offsets.len() <= 100_000
        }),
    ensures
        ({
            let prefix = sv8_file_encode::prefix_bytes(g, channels, freq, s);
            let a = sv8_file_encode::audio(tables, frames, 0, prefix.len() + 8, s)->Ok_0;
            let h = sv8_stream_laws::header_for(g, channels, freq, s);
            let table = sv8_file_encode::table_for(a.offsets);
            let x = sv8_seek_index::index_of(table, Some(h), SEEK_TABLE_CAP as nat);
            x.positions == table.entries && x.packets_per_entry == 2 && x.frames_per_packet
                == h.packet_frames()
        }),
{
    let prefix = sv8_file_encode::prefix_bytes(g, channels, freq, s);
    let a = sv8_file_encode::audio(tables, frames, 0, prefix.len() + 8, s)->Ok_0;
    let h = sv8_stream_laws::header_for(g, channels, freq, s);
    let table = sv8_file_encode::table_for(a.offsets);
    let most = stream_headers::frames_of_power(s.block_power as nat) as int;
    let n = a.offsets.len() as int;
    let power = (2 * h.block_power + table.seek_pwr_delta) as nat;
    stream_headers::lemma_frames_positive(s.block_power as nat);
    lemma_packets_hold(tables, frames, 0, prefix.len() + 8, s);
    lemma_frames_power(s.block_power as nat);
    lemma_pow2_unfold(power);
    lemma2_to64();
    let span = (1152 * pow2(power)) as int;
    assert(span == 1152 * (2 * most));
    lemma_few_needed(g.sample_count as int, n, most, span);
    lemma_needed(h.sample_count as nat, power, span);
    assert(sv8_seek_index::doublings(h.sample_count as nat, power, SEEK_TABLE_CAP as nat, 0) == 0);
    let need = sv8_seek_index::needed(h.sample_count as nat, power);
    assert(need * pow2(0) == need);
    if n > 0 {
        let m = lemma_audio_part(tables, frames, 0, prefix.len() + 8, s, n - 1);
        lemma_justified(g.sample_count as int, n, most, span, 1);
    }
    assert(table.entries.len() <= need);
    lemma_strided_one(table.entries);
}

// ---------------------------------------------------------------------------
// Streams compose
// ---------------------------------------------------------------------------

/// Rising entries take up to 2^25 bits each.
proof fn lemma_entries_fit(entries: Seq<u64>, i: int)
    requires
        sv8_seek::rising(entries),
        0 <= i <= entries.len(),
    ensures
        coding::emit_each(sv8_seek::entry_emit(entries), i, entries.len() as int).code.len()
            <= 0x200_0000 * (entries.len() - i),
    decreases entries.len() - i,
{
    let step = sv8_seek::entry_emit(entries);
    if i < entries.len() {
        lemma_entries_fit(entries, i + 1);
        assert(entries[i] < 0x8_0000_0000);
        if i < 2 {
            sv8_seek::lemma_offset_len(entries[i]);
        } else {
            assert(entries[i - 2] <= entries[i - 1] <= entries[i]);
            let d = entries[i] - sv8_seek::expected(entries, i);
            bits::lemma_field_len((sv8_seek::code_of(d) % 4096) as nat, 12);
        }
        assert(step(i).code.len() <= 0x200_0000);
        assert(step(i).result is Ok);
    }
}

/// The table of rising entries fits a packet.
proof fn lemma_table_fits(t: SeekTable)
    requires
        t.seek_pwr_delta <= 15,
        sv8_seek::rising(t.entries),
        t.entries.len() < 0x8_0000_0000,
    ensures
        sv8_seek::emit_table(t).result is Ok,
        sv8_file_encode::countable(sv8_file_encode::in_bytes(sv8_seek::emit_table(t).code)),
{
    sv8_seek::lemma_rising_writes(t);
    lemma_entries_fit(t.entries, 0);
    sv8_seek::lemma_offset_len(t.entries.len() as u64);
    bits::lemma_field_len(t.seek_pwr_delta as nat, 4);
}

/// The packets of a stream start one behind the other, below its end.
proof fn lemma_offsets_rise(
    tables: Sv8TableSet,
    frames: Seq<StereoFrame>,
    at: nat,
    s: Sv8StreamSettings,
)
    requires
        sv8_file_encode::audio(tables, frames, 0, at, s) is Ok,
        at + sv8_file_encode::audio(tables, frames, 0, at, s)->Ok_0.bytes.len() < 0x8_0000_0000,
    ensures
        sv8_seek::rising(
            sv8_file_encode::table_for(
                sv8_file_encode::audio(tables, frames, 0, at, s)->Ok_0.offsets,
            ).entries,
        ),
        sv8_file_encode::audio(tables, frames, 0, at, s)->Ok_0.offsets.len() < 0x8_0000_0000,
{
    let a = sv8_file_encode::audio(tables, frames, 0, at, s)->Ok_0;
    sv8_stream_laws::lemma_offsets_len(tables, frames, 0, at, s);
    assert forall|p: int| 0 < p < a.offsets.len() implies a.offsets[p - 1]
        < #[trigger] a.offsets[p] by {
        lemma_packet_starts(tables, frames, 0, at, s, p);
    }
    let entries = sv8_file_encode::table_for(a.offsets).entries;
    assert forall|i: int| 0 <= i < entries.len() implies #[trigger] entries[i]
        < 0x8_0000_0000 by {
        lemma_packet_starts(tables, frames, 0, at, s, 2 * i);
    }
    assert forall|i: int, j: int| 0 <= i <= j < entries.len() implies #[trigger] entries[i]
        <= #[trigger] entries[j] by {
        if i < j {
            lemma_starts_rise(a.offsets, 2 * i, 2 * j);
        }
    }
}

/// Frames that encode make a stream, however their sizes jump, as long as it stays below
/// 2^35 bytes.
pub proof fn law_stream_composes(
    tables: Sv8TableSet,
    prefix: Seq<u8>,
    frames: Seq<StereoFrame>,
    s: Sv8StreamSettings,
)
    requires
        sv8_file_encode::audio(tables, frames, 0, prefix.len() + 8, s) is Ok,
        prefix.len() + 8 + sv8_file_encode::audio(
            tables,
            frames,
            0,
            prefix.len() + 8,
            s,
        )->Ok_0.bytes.len() < 0x8_0000_0000,
    ensures
        sv8_file_encode::stream_bytes(tables, prefix, frames, s) is Ok,
{
    let a = sv8_file_encode::audio(tables, frames, 0, prefix.len() + 8, s)->Ok_0;
    lemma_offsets_rise(tables, frames, prefix.len() + 8, s);
    lemma_table_fits(sv8_file_encode::table_for(a.offsets));
}

} // verus!
