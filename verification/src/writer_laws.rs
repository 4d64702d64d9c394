//! What the writers choose where a value could be written in more than one way, and what they
//! accept.

use crate::bit_writer;
use crate::bits;
use crate::coding;
use crate::coding::Emit;
use crate::framing;
use crate::header_laws;
use crate::packets;
use crate::stream_headers;
use crate::sv7_band_decode::Sv7TableSet;
use crate::sv7_band_header;
use crate::sv7_frame_encode;
use crate::sv7_frame_encode::Sv7EncBand;
use crate::sv7_huffman;
use crate::sv7_huffman::Sv7HuffmanEntry;
use crate::sv7_scf_decode;
use crate::sv7_scf_encode;
use crate::sv7_stereo_frame::ScfMemory;
use crate::sv7_stereo_frame_encode;
use crate::sv7_tables::{DSCF_VLC, SCFI_VLC};
use crate::sv8_crc;
use crate::sv8_decode;
use crate::sv8_file_encode;
use crate::sv8_file_encode::{Sv8Geometry, Sv8StreamSettings};
use crate::sv8_huffman::Sv8TableSet;
use crate::sv8_seek;
use crate::sv8_stereo_frame::StereoFrame;
use vstd::arithmetic::power::*;
use vstd::prelude::*;

verus! {

// ---------------------------------------------------------------------------
// Bytes
// ---------------------------------------------------------------------------

/// Bits are filled up to a whole byte with as few clear ones as it takes.
pub proof fn law_padding(n: nat, i: int)
    ensures
        (n + bit_writer::padding(n).len()) % 8 == 0,
        bit_writer::padding(n).len() < 8,
        0 <= i < bit_writer::padding(n).len() ==> !bit_writer::padding(n)[i],
{
}

/// The size of a packet is written in as few bytes as can count themselves: with fewer, the
/// size would take more than it counts.
pub proof fn law_packet_is_short(a: u8, b: u8, payload: Seq<u8>, n: nat)
    requires
        payload.len() < 0x7fff_ffff_ffff_fff0,
        1 <= n < packets::packet(a, b, payload).len() - 2 - payload.len(),
    ensures
        framing::varint(2 + n + payload.len()).len() > n,
{
    packets::lemma_packet_len(a, b, payload);
    lemma_field_too_short(1, payload.len(), n);
}

proof fn lemma_field_too_short(from: nat, len: nat, n: nat)
    requires
        1 <= from <= n < packets::field_len(from, len),
        n < 9,
    ensures
        framing::varint(2 + n + len).len() > n,
    decreases n - from,
{
    if from < n {
        lemma_field_too_short(from + 1, len, n);
    } else {
        let v = 2 + n + len;
        let m = (n - 1) as nat;
        assert(pow(128, n) == 128 * pow(128, m)) by {
            reveal(pow);
        }
        framing::lemma_lead_len(v / 128, m);
    }
}

/// The last frame of a stream has room for the delay of 481 samples exactly where its count
/// says so.
pub proof fn law_room_for_delay(count: nat)
    ensures
        sv8_file_encode::has_room(count as int) <==> count + 481 <= 1152 * sv8_decode::frames_for(
            count,
        ),
{
}

/// The number of a difference between positions has its sign in the lowest bit, which is clear
/// where it is not negative, and its size in the others.
pub proof fn law_difference_number(d: int)
    ensures
        sv8_seek::code_of(d) % 2 == 0 <==> d >= 0,
        d >= 0 ==> sv8_seek::code_of(d) / 2 == d,
        d < 0 ==> sv8_seek::code_of(d) / 2 == -d,
{
}

// ---------------------------------------------------------------------------
// Frames of the older format
// ---------------------------------------------------------------------------

/// A band of the types 1 to 7 starts with the low bit of its context.
pub proof fn law_selector_written(tables: Sv7TableSet, band: Sv7EncBand)
    requires
        band matches Sv7EncBand::Coded { band_type, .. } && 1 <= band_type <= 7,
    ensures
        sv7_frame_encode::emit_samples(tables, band).code.len() >= 1,
        sv7_frame_encode::emit_samples(tables, band).code[0] <==> band->ctx % 2 == 1,
{
}

/// A band type is written as a word of the code where it lies from five below to three above
/// the type of the band below, and only there; farther types, and the lowest band's, are
/// written outright in four bits, behind the escape where a band lies below. So a type depends
/// on its distance alone where it is near, and on itself alone where it is far.
pub proof fn law_type_written(hdr: Seq<Sv7HuffmanEntry>, below: i8, t: i8)
    ensures
        -5 <= t - below <= 3 ==> sv7_band_header::emit_type(hdr, Some(below), t)
            == sv7_huffman::emit(hdr, (t - below) as i8),
        !(-5 <= t - below <= 3) && 0 <= t <= 15 && sv7_huffman::emit(hdr, 4).result is Ok ==> {
            let e = sv7_band_header::emit_type(hdr, Some(below), t);
            let escape = sv7_huffman::emit(hdr, 4).code;
            &&& e.result is Ok
            &&& e.code.len() == escape.len() + 4
            &&& e.code.take(escape.len() as int) == escape
            &&& bits::value(e.code.skip(escape.len() as int)) == t
        },
        0 <= t <= 15 ==> {
            let e = sv7_band_header::emit_type(hdr, None, t);
            e.result is Ok && e.code.len() == 4 && bits::value(e.code) == t
        },
{
    if 0 <= t <= 15 {
        let raw = bits::field(t as nat, 4);
        bits::lemma_field_len(t as nat, 4);
        vstd::arithmetic::power2::lemma2_to64();
        bits::lemma_value_of_bits(t as nat, 4);
        let escape = sv7_huffman::emit(hdr, 4).code;
        assert((escape + raw).take(escape.len() as int) =~= escape);
        assert((escape + raw).skip(escape.len() as int) =~= raw);
    }
}

/// A scalefactor is written as a word of the code where it lies within seven of the one
/// before, and only there; farther ones are written outright in six bits behind the escape,
/// and are refused where they do not fit.
pub proof fn law_index_written(reference: i32, index: i32)
    ensures
        -7 <= index - reference <= 7 ==> sv7_scf_encode::emit_index(reference, index)
            == sv7_huffman::emit(sv7_scf_decode::difference_rows(), (index - reference) as i8),
        !(-7 <= index - reference <= 7) ==> {
            let e = sv7_scf_encode::emit_index(reference, index);
            let escape = sv7_huffman::emit(sv7_scf_decode::difference_rows(), 8);
            &&& e.result is Ok <==> 0 <= index <= 63
            &&& e.result is Ok ==> escape.result is Ok && e.code.len() == escape.code.len() + 6
                && e.code.take(escape.code.len() as int) == escape.code && bits::value(
                e.code.skip(escape.code.len() as int),
            ) == index
        },
{
    reveal_with_fuel(sv7_huffman::row_of, 17);
    if 0 <= index <= 63 {
        let raw = bits::field(index as nat, 6);
        bits::lemma_field_len(index as nat, 6);
        vstd::arithmetic::power2::lemma2_to64();
        bits::lemma_value_of_bits(index as nat, 6);
        let escape = sv7_huffman::emit(sv7_scf_decode::difference_rows(), 8).code;
        assert((escape + raw).take(escape.len() as int) =~= escape);
        assert((escape + raw).skip(escape.len() as int) =~= raw);
    }
}

/// The method of three scalefactors has two bits: the higher is set where the second equals the
/// first, the lower where the third equals the second.
pub proof fn law_method_bits(s: [i32; 3])
    ensures
        sv7_scf_encode::method_for(s) < 4,
        sv7_scf_encode::method_for(s) >= 2 <==> s[0] == s[1],
        sv7_scf_encode::method_for(s) as int % 2 == 1 <==> s[1] == s[2],
{
}

/// The words of the small codes have the listed lengths: a method stands for itself, and a
/// difference is listed seven higher.
pub proof fn law_small_codes(i: int)
    requires
        0 <= i < 16,
    ensures
        i < 4 ==> {
            let e = sv7_huffman::emit(sv7_scf_decode::method_rows(), SCFI_VLC[i].0 as i8);
            e.result is Ok && e.code.len() == SCFI_VLC[i].1
        },
        ({
            let e = sv7_huffman::emit(
                sv7_scf_decode::difference_rows(),
                (DSCF_VLC[i].0 - 7) as i8,
            );
            e.result is Ok && e.code.len() == DSCF_VLC[i].1
        }),
{
    reveal_with_fuel(sv7_huffman::row_of, 17);
    if i < 4 {
        lemma_word_len(sv7_scf_decode::method_rows(), SCFI_VLC[i].0 as i8);
    }
    lemma_word_len(sv7_scf_decode::difference_rows(), (DSCF_VLC[i].0 - 7) as i8);
}

/// A word has the length of its row.
proof fn lemma_word_len(rows: Seq<Sv7HuffmanEntry>, value: i8)
    ensures
        match sv7_huffman::row_of(rows, 0, value) {
            Some(r) => sv7_huffman::emit(rows, value).code.len() == rows[r].length,
            None => true,
        },
{
    if sv7_huffman::row_of(rows, 0, value) is Some {
        let r = sv7_huffman::row_of(rows, 0, value)->0;
        bits::lemma_field_len(rows[r].code as nat / rows[r].step(), rows[r].length as nat);
    }
}

/// Steps that all succeed succeed together.
proof fn lemma_each_succeeds(step: spec_fn(int) -> Emit, from: int, n: int)
    requires
        forall|i: int| from <= i < n ==> (#[trigger] step(i)).result is Ok,
    ensures
        coding::emit_each(step, from, n).result is Ok,
    decreases n - from,
{
    if from < n {
        assert(step(from).result is Ok);
        lemma_each_succeeds(step, from + 1, n);
    }
}

/// A frame body of up to 32 bands is written where each head, method, scalefactor and level of
/// its bands is.
pub proof fn law_body_is_written(
    tables: Sv7TableSet,
    left: Seq<Sv7EncBand>,
    right: Seq<Sv7EncBand>,
    ms_flags: Seq<bool>,
    stream_ms: bool,
    memory: ScfMemory,
)
    requires
        left.len() <= 32,
        left.len() == right.len(),
        left.len() == ms_flags.len(),
        forall|b: int|
            0 <= b < left.len() ==> (#[trigger] sv7_band_header::head_emit(
                tables.hdr@,
                sv7_stereo_frame_encode::types_of(left, right),
                ms_flags,
                stream_ms,
            )(b)).result is Ok,
        forall|i: int|
            0 <= i < 2 * left.len() ==> (#[trigger] sv7_stereo_frame_encode::method_emit(
                left,
                right,
            )(i)).result is Ok,
        forall|i: int|
            0 <= i < 2 * left.len() ==> (#[trigger] sv7_stereo_frame_encode::scf_emit(
                left,
                right,
                memory,
            )(i)).result is Ok,
        forall|i: int|
            0 <= i < 2 * left.len() ==> (#[trigger] sv7_stereo_frame_encode::level_emit(
                tables,
                left,
                right,
            )(i)).result is Ok,
    ensures
        sv7_stereo_frame_encode::body_write(
            tables,
            left,
            right,
            ms_flags,
            stream_ms,
            memory,
        ).emit.result is Ok,
{
    reveal(sv7_stereo_frame_encode::body_write);
    let n = 2 * left.len() as int;
    lemma_each_succeeds(
        sv7_band_header::head_emit(
            tables.hdr@,
            sv7_stereo_frame_encode::types_of(left, right),
            ms_flags,
            stream_ms,
        ),
        0,
        left.len() as int,
    );
    lemma_each_succeeds(sv7_stereo_frame_encode::method_emit(left, right), 0, n);
    lemma_each_succeeds(sv7_stereo_frame_encode::scf_emit(left, right, memory), 0, n);
    lemma_each_succeeds(sv7_stereo_frame_encode::level_emit(tables, left, right), 0, n);
}

// ---------------------------------------------------------------------------
// Streams
// ---------------------------------------------------------------------------

/// A stream starts with its four letters, its header, a replay gain of zeros and what encoder
/// made it, of version 0.1.0, and nothing else stands before the seek offset.
pub proof fn law_stream_starts(
    g: Sv8Geometry,
    channels: u8,
    freq: u8,
    s: Sv8StreamSettings,
)
    requires
        g.sample_count < 0x8000_0000_0000_0000,
        g.beginning_silence < 0x8000_0000_0000_0000,
        freq < 4,
        1 <= s.max_band <= 31,
        1 <= channels <= 16,
        s.block_power <= 7,
        s.profile <= 0x7f,
    ensures
        ({
            let p = sv8_file_encode::prefix_bytes(g, channels, freq, s);
            let d0 = p.skip(4);
            let m0 = framing::packet_at(d0)->Ok_0->0;
            let h = stream_headers::header_of(m0.payload)->Ok_0;
            let d1 = d0.skip(m0.extent() as int);
            let m1 = framing::packet_at(d1)->Ok_0->0;
            let r = stream_headers::gain_of(m1.payload)->Ok_0;
            let d2 = d1.skip(m1.extent() as int);
            let m2 = framing::packet_at(d2)->Ok_0->0;
            let i = stream_headers::info_of(m2.payload)->Ok_0;
            &&& p.len() > 4
            &&& p[0] == 'M' as u8 && p[1] == 'P' as u8 && p[2] == 'C' as u8 && p[3] == 'K' as u8
            &&& framing::packet_at(d0) matches Ok(Some(_))
            &&& m0.key is StreamHeader
            &&& stream_headers::header_of(m0.payload) is Ok
            &&& h.crc == sv8_crc::crc32(m0.payload.skip(4))
            &&& h.stream_version == 8
            &&& h.sample_count == g.sample_count
            &&& h.beginning_silence == g.beginning_silence
            &&& h.sample_freq_index == freq
            &&& h.max_band == s.max_band
            &&& h.channels == channels
            &&& h.mid_side == s.stream_ms
            &&& h.block_power == s.block_power
            &&& framing::packet_at(d1) matches Ok(Some(_))
            &&& m1.key is ReplayGain
            &&& r.version == 1
            &&& r.title_gain == 0 && r.title_peak == 0 && r.album_gain == 0 && r.album_peak == 0
            &&& framing::packet_at(d2) matches Ok(Some(_))
            &&& m2.key is EncoderInfo
            &&& i.profile == s.profile && i.pns == s.pns
            &&& i.major == 0 && i.minor == 1 && i.build == 0
            &&& d2.len() == m2.extent()
        }),
{
    let body = packets::sh_body(
        g.sample_count,
        g.beginning_silence,
        freq,
        s.max_band,
        channels,
        s.stream_ms,
        s.block_power,
    );
    let sh = packets::sh_bytes(body);
    let rg = seq![1u8, 0u8, 0u8, 0u8, 0u8, 0u8, 0u8, 0u8, 0u8];
    let ei = sv8_file_encode::info_bytes(s);
    let p = sv8_file_encode::prefix_bytes(g, channels, freq, s);
    let none = Seq::<u8>::empty();
    let d2 = packets::packet(0x45, 0x49, ei) + none;
    let d1 = packets::packet(0x52, 0x47, rg) + d2;
    let d0 = packets::packet(0x53, 0x48, sh) + d1;
    packets::lemma_header_len(
        g.sample_count,
        g.beginning_silence,
        freq,
        s.max_band,
        channels,
        s.stream_ms,
        s.block_power,
    );
    packets::law_header_reads_back(
        g.sample_count,
        g.beginning_silence,
        freq,
        s.max_band,
        channels,
        s.stream_ms,
        s.block_power,
    );
    assert(p.skip(4) =~= d0);
    packets::law_packet_reads_back(0x53, 0x48, sh, d1);
    packets::law_packet_reads_back(0x52, 0x47, rg, d2);
    packets::law_packet_reads_back(0x45, 0x49, ei, none);
    header_laws::law_gain_fields(rg);
}

/// A stream goes on behind its start with the seek offset, the audio packets, the seek table
/// and the stream end. The seek offset counts the bytes from its own packet to the seek table,
/// which has every second audio packet.
pub proof fn law_stream_ends(
    tables: Sv8TableSet,
    prefix: Seq<u8>,
    frames: Seq<StereoFrame>,
    s: Sv8StreamSettings,
)
    requires
        sv8_file_encode::stream_bytes(tables, prefix, frames, s) is Ok,
    ensures
        ({
            let b = sv8_file_encode::stream_bytes(tables, prefix, frames, s)->Ok_0;
            let a = sv8_file_encode::audio(tables, frames, 0, prefix.len() + 8, s)->Ok_0;
            let d = b.skip(prefix.len() as int);
            let m = framing::packet_at(d)->Ok_0->0;
            let v = framing::varint_at(m.payload)->Ok_0.0;
            let t = d.skip(v as int);
            let n = framing::packet_at(t)->Ok_0->0;
            let e = t.skip(n.extent() as int);
            let l = framing::packet_at(e)->Ok_0->0;
            &&& prefix.len() <= b.len()
            &&& b.take(prefix.len() as int) == prefix
            &&& framing::packet_at(d) matches Ok(Some(_))
            &&& m.key is SeekTableOffset
            &&& framing::varint_at(m.payload) is Ok
            &&& m.extent() <= v <= d.len()
            &&& d.subrange(m.extent() as int, v as int) == a.bytes
            &&& framing::packet_at(t) matches Ok(Some(_))
            &&& n.key is SeekTable
            &&& sv8_seek::table_of(n.payload) is Ok
            &&& sv8_seek::table_of(n.payload)->Ok_0 == sv8_file_encode::table_for(a.offsets)
            &&& framing::packet_at(e) matches Ok(Some(_))
            &&& l.key is StreamEnd
            &&& l.payload.len() == 0
            &&& e.len() == l.extent()
        }),
{
    let b = sv8_file_encode::stream_bytes(tables, prefix, frames, s)->Ok_0;
    let a = sv8_file_encode::audio(tables, frames, 0, prefix.len() + 8, s)->Ok_0;
    let table = sv8_seek::emit_table(sv8_file_encode::table_for(a.offsets));
    let offset = 8 + a.bytes.len();
    let so = sv8_seek::filled(framing::varint(offset), 5);
    let st = sv8_file_encode::in_bytes(table.code);
    let none = Seq::<u8>::empty();
    let e = packets::packet(0x53, 0x45, none) + none;
    let t = packets::packet(0x53, 0x54, st) + e;
    let rest = a.bytes + t;
    let d = packets::packet(0x53, 0x4f, so) + rest;
    sv8_seek::lemma_offset_len(offset as u64);
    sv8_seek::law_offset_reads_back(offset as u64);
    sv8_file_encode::lemma_small_packet(0x53, 0x4f, so);
    assert(b =~= prefix + d);
    assert(b.skip(prefix.len() as int) =~= d);
    assert(b.take(prefix.len() as int) =~= prefix);
    packets::law_packet_reads_back(0x53, 0x4f, so, rest);
    packets::law_packet_reads_back(0x53, 0x54, st, e);
    packets::law_packet_reads_back(0x53, 0x45, none, none);
    assert(d.skip(offset as int) =~= t);
    assert(d.subrange(8, offset as int) =~= a.bytes);
    let padded = table.code + bit_writer::padding(table.code.len());
    law_padding(table.code.len(), 0);
    bits::lemma_of_to_bytes(padded);
    lemma_packet_count(tables, frames, 0, prefix.len() + 8, s);
    sv8_seek::law_table_reads_back(st, sv8_file_encode::table_for(a.offsets));
}

/// There are no more audio packets than bytes.
proof fn lemma_packet_count(
    tables: Sv8TableSet,
    frames: Seq<StereoFrame>,
    from: int,
    at: nat,
    s: Sv8StreamSettings,
)
    requires
        0 <= from,
        sv8_file_encode::audio(tables, frames, from, at, s) is Ok,
    ensures
        ({
            let a = sv8_file_encode::audio(tables, frames, from, at, s)->Ok_0;
            a.offsets.len() <= a.bytes.len()
        }),
    decreases frames.len() - from,
{
    stream_headers::lemma_frames_positive(s.block_power as nat);
    if from < frames.len() {
        let to = sv8_file_encode::packet_end(from, frames.len() as int, s);
        let e = sv8_file_encode::emit_run(
            tables,
            frames,
            from,
            from,
            to,
            s,
            crate::sv8_stereo_frame::FrameMemory::blank(),
        );
        let payload = sv8_file_encode::in_bytes(e.code);
        let p = packets::packet(0x41, 0x50, payload);
        packets::lemma_packet_len(0x41, 0x50, payload);
        lemma_packet_count(tables, frames, to, at + p.len(), s);
    }
}

/// The offsets of audio packets are where they start, counted from the start of the stream.
pub proof fn law_audio_offsets(
    tables: Sv8TableSet,
    frames: Seq<StereoFrame>,
    from: int,
    at: nat,
    s: Sv8StreamSettings,
    i: int,
)
    requires
        0 <= from,
        sv8_file_encode::audio(tables, frames, from, at, s) is Ok,
        at + sv8_file_encode::audio(tables, frames, from, at, s)->Ok_0.bytes.len() <= u64::MAX,
        0 <= i < sv8_file_encode::audio(tables, frames, from, at, s)->Ok_0.offsets.len(),
    ensures
        ({
            let a = sv8_file_encode::audio(tables, frames, from, at, s)->Ok_0;
            let x = a.offsets[i] - at;
            &&& 0 <= x < a.bytes.len() - 1
            &&& a.bytes[x] == 'A' as u8
            &&& a.bytes[x + 1] == 'P' as u8
            &&& i == 0 ==> x == 0
        }),
    decreases frames.len() - from,
{
    stream_headers::lemma_frames_positive(s.block_power as nat);
    let a = sv8_file_encode::audio(tables, frames, from, at, s)->Ok_0;
    let to = sv8_file_encode::packet_end(from, frames.len() as int, s);
    let e = sv8_file_encode::emit_run(
        tables,
        frames,
        from,
        from,
        to,
        s,
        crate::sv8_stereo_frame::FrameMemory::blank(),
    );
    let payload = sv8_file_encode::in_bytes(e.code);
    let p = packets::packet(0x41, 0x50, payload);
    packets::lemma_packet_len(0x41, 0x50, payload);
    let rest = sv8_file_encode::audio(tables, frames, to, at + p.len(), s)->Ok_0;
    assert(a.bytes == p + rest.bytes);
    if i == 0 {
        reveal(packets::packet);
        assert(p[0] == 0x41 && p[1] == 0x50);
    } else {
        law_audio_offsets(tables, frames, to, at + p.len(), s, i - 1);
        let y = rest.offsets[i - 1] - (at + p.len());
        assert(a.offsets[i] == rest.offsets[i - 1]);
        assert(a.bytes[p.len() + y] == rest.bytes[y]);
        assert(a.bytes[p.len() + y + 1] == rest.bytes[y + 1]);
    }
}

} // verus!
