//! Writing variable-length integers, packets and the payloads of the header packets.

use crate::error::{Error, Result};
use crate::framing;
use crate::framing::{PacketKey, PacketModel};
use crate::stream_headers;
use crate::stream_headers::{StreamHeaderFields, SV8_STREAM_VERSION};
use crate::sv8_crc;
use crate::sv8_crc::sv8_crc32;
use vstd::arithmetic::power::*;
use vstd::prelude::*;

verus! {

/// Appends the bytes of `value`.
pub fn write_varint(out: &mut Vec<u8>, value: u64)
    ensures
        final(out)@ == old(out)@ + framing::varint(value as nat),
{
    let ghost start = out@;
    let mut tail: Vec<u8> = Vec::new();
    let mut v: u64 = value / 128;
    let ghost whole = framing::lead(v as nat);
    while v > 0
        invariant
            whole == framing::lead(v as nat) + tail@.reverse(),
        decreases v,
    {
        let ghost before = tail@;
        tail.push((v % 128) as u8 + 128);
        proof {
            let lead = framing::lead(v as nat);
            let shorter = framing::lead((v / 128) as nat);
            assert(lead == shorter.push((128 + v % 128) as u8));
            assert(lead + before.reverse() =~= shorter + tail@.reverse());
        }
        v = v / 128;
    }
    assert(whole =~= tail@.reverse());
    let mut i: usize = tail.len();
    assert(whole.take(0) =~= Seq::<u8>::empty());
    while i > 0
        invariant
            i <= tail@.len(),
            whole == tail@.reverse(),
            out@ == start + whole.take(tail@.len() - i),
        decreases i,
    {
        i = i - 1;
        proof {
            let n = tail@.len() - i - 1;
            assert(whole[n as int] == tail@[i as int]);
            assert(whole.take(n as int).push(whole[n as int]) =~= whole.take(n + 1));
        }
        out.push(tail[i]);
    }
    assert(whole.take(tail@.len() as int) =~= whole);
    out.push((value % 128) as u8);
    assert(out@ =~= start + framing::varint(value as nat));
}

/// How many bytes `value` takes.
#[must_use]
pub fn varint_len(value: u64) -> (n: usize)
    ensures
        n == framing::varint(value as nat).len(),
        1 <= n <= 10,
{
    let mut n: usize = 1;
    let mut v: u64 = value / 128;
    let ghost whole = framing::lead(v as nat).len();
    proof {
        reveal_with_fuel(pow, 10);
        framing::lemma_lead_len(v as nat, 9);
    }
    while v != 0
        invariant
            whole + 1 == framing::lead(v as nat).len() + n,
            whole <= 9,
            1 <= n,
        decreases v,
    {
        assert(framing::lead(v as nat).len() == framing::lead((v / 128) as nat).len() + 1);
        n = n + 1;
        v = v / 128;
    }
    n
}

// ---------------------------------------------------------------------------
// Packets
// ---------------------------------------------------------------------------

/// How many bytes the size of a packet takes that has `len` bytes of payload: the least
/// number, from `n` on, that holds a size which counts the field itself.
pub open spec fn field_len(n: nat, len: nat) -> nat
    decreases 9 - n,
{
    if n >= 9 || 2 + n + len < pow(128, n) {
        n
    } else {
        field_len(n + 1, len)
    }
}

/// The size of a packet with `len` bytes of payload.
pub open spec fn packet_size(len: nat) -> nat {
    2 + field_len(1, len) + len
}

/// The bytes of a packet.
#[verifier::opaque]
pub open spec fn packet(a: u8, b: u8, payload: Seq<u8>) -> Seq<u8> {
    seq![a, b] + framing::varint(packet_size(payload.len())) + payload
}

/// The size takes the bytes that it counts for itself.
proof fn lemma_field_len(n: nat, len: nat)
    requires
        1 <= n <= 9,
        n == 1 || 1 + n + len >= pow(128, (n - 1) as nat),
        11 + len < 0x8000_0000_0000_0000,
    ensures
        n <= field_len(n, len) <= 9,
        framing::varint(2 + field_len(n, len) + len).len() == field_len(n, len),
    decreases 9 - n,
{
    reveal_with_fuel(pow, 10);
    if n >= 9 || 2 + n + len < pow(128, n) {
        let v = 2 + n + len;
        let m = (n - 1) as nat;
        assert(pow(128, n) == 128 * pow(128, m)) by {
            reveal(pow);
        }
        framing::lemma_lead_len(v / 128, m);
        if n > 1 {
            let k = (n - 2) as nat;
            assert(pow(128, m) == 128 * pow(128, k)) by {
                reveal(pow);
            }
            framing::lemma_lead_len(v / 128, k);
        }
    } else {
        lemma_field_len(n + 1, len);
    }
}

/// The bytes of a packet are as many as its size says.
pub proof fn lemma_packet_len(a: u8, b: u8, payload: Seq<u8>)
    requires
        payload.len() < 0x7fff_ffff_ffff_fff0,
    ensures
        packet(a, b, payload).len() == packet_size(payload.len()),
        3 <= packet_size(payload.len()) <= payload.len() + 11,
{
    reveal(packet);
    lemma_field_len(1, payload.len());
}

/// A written packet reads back as it was written, and the walk stands behind it.
pub proof fn law_packet_reads_back(a: u8, b: u8, payload: Seq<u8>, rest: Seq<u8>)
    requires
        payload.len() < 0x7fff_ffff_ffff_fff0,
    ensures
        ({
            let m = PacketModel {
                key: PacketKey::of(a, b),
                header_len: 2 + field_len(1, payload.len()),
                payload,
            };
            let data = packet(a, b, payload) + rest;
            &&& framing::packet_at(data) == Ok::<Option<PacketModel>, Error>(Some(m))
            &&& m.extent() == packet(a, b, payload).len()
            &&& data.skip(m.extent() as int) == rest
        }),
{
    reveal(packet);
    reveal(framing::packet_at);
    let data = packet(a, b, payload) + rest;
    let size = packet_size(payload.len());
    lemma_field_len(1, payload.len());
    let field = framing::varint(size);
    framing::law_varint_reads_back(size, payload + rest);
    assert(data.skip(2) =~= field + (payload + rest));
    let n = field.len() as int;
    assert(data.subrange(n + 2, size as int) =~= payload);
    assert(data.skip(size as int) =~= rest);
}

/// Appends a packet. The size counts its own bytes.
pub fn write_packet(out: &mut Vec<u8>, key: [u8; 2], payload: &[u8])
    requires
        payload@.len() < 0x7fff_ffff_ffff_fff0,
    ensures
        final(out)@ == old(out)@ + packet(key[0], key[1], payload@),
{
    let ghost start = out@;
    let len: u64 = payload.len() as u64;
    let mut size_len: u64 = 1;
    proof {
        lemma_field_len(1, len as nat);
    }
    while varint_len(2 + size_len + len) as u64 > size_len
        invariant
            1 <= size_len <= 9,
            len < 0x7fff_ffff_ffff_fff0,
            field_len(size_len as nat, len as nat) == field_len(1, len as nat),
            field_len(1, len as nat) <= 9,
            framing::varint(packet_size(len as nat)).len() == field_len(1, len as nat),
        decreases 9 - size_len,
    {
        proof {
            reveal_with_fuel(pow, 10);
            let v = (2 + size_len + len) as nat;
            let n = size_len as nat;
            let m = (n - 1) as nat;
            assert(pow(128, n) == 128 * pow(128, m)) by {
                reveal(pow);
            }
            framing::lemma_lead_len(v / 128, m);
        }
        size_len = size_len + 1;
    }
    proof {
        reveal_with_fuel(pow, 10);
        let v = (2 + size_len + len) as nat;
        let n = size_len as nat;
        let m = (n - 1) as nat;
        assert(pow(128, n) == 128 * pow(128, m)) by {
            reveal(pow);
        }
        framing::lemma_lead_len(v / 128, m);
        assert(field_len(n, len as nat) == n);
    }
    out.push(key[0]);
    out.push(key[1]);
    write_varint(out, 2 + size_len + len);
    append_bytes(out, payload);
    proof {
        reveal(packet);
    }
    assert(out@ =~= start + packet(key[0], key[1], payload@));
}

/// Appends bytes.
pub fn append_bytes(out: &mut Vec<u8>, data: &[u8])
    ensures
        final(out)@ == old(out)@ + data@,
{
    let ghost start = out@;
    let mut i: usize = 0;
    assert(data@.take(0) =~= Seq::<u8>::empty());
    while i < data.len()
        invariant
            i <= data@.len(),
            out@ == start + data@.take(i as int),
        decreases data@.len() - i,
    {
        out.push(data[i]);
        i = i + 1;
        assert(out@ =~= start + data@.take(i as int));
    }
    assert(data@.take(i as int) =~= data@);
}

// ---------------------------------------------------------------------------
// Payloads
// ---------------------------------------------------------------------------

/// Appends the two bytes of `v`, the higher first.
fn push_be16(out: &mut Vec<u8>, v: u16)
    ensures
        final(out)@ == old(out)@ + stream_headers::big_endian(v as nat, 2),
{
    let ghost start = out@;
    out.push((v / 256) as u8);
    out.push((v % 256) as u8);
    proof {
        reveal_with_fuel(stream_headers::big_endian, 3);
        assert(out@ =~= start + stream_headers::big_endian(v as nat, 2));
    }
}

/// Appends the four bytes of `v`, the highest first.
fn push_be32(out: &mut Vec<u8>, v: u32)
    ensures
        final(out)@ == old(out)@ + stream_headers::big_endian(v as nat, 4),
{
    let ghost start = out@;
    push_be16(out, (v / 0x1_0000) as u16);
    push_be16(out, (v % 0x1_0000) as u16);
    proof {
        reveal_with_fuel(stream_headers::big_endian, 5);
        assert(out@ =~= start + stream_headers::big_endian(v as nat, 4));
    }
}

/// The payload of a stream header, without the checksum.
pub open spec fn sh_body(
    sample_count: u64,
    silence: u64,
    freq: u8,
    max_band: u8,
    channels: u8,
    mid_side: bool,
    power: u8,
) -> Seq<u8> {
    seq![8u8] + framing::varint(sample_count as nat) + framing::varint(silence as nat)
        + stream_headers::big_endian(
        stream_headers::packed(
            freq as int,
            max_band as int,
            channels as int,
            mid_side,
            power as int,
        ) as nat,
        2,
    )
}

/// The payload of a stream header: the checksum of the body, and the body.
pub open spec fn sh_bytes(body: Seq<u8>) -> Seq<u8> {
    stream_headers::big_endian(sv8_crc::crc32(body) as nat, 4) + body
}

/// The payload of a stream header is short.
pub proof fn lemma_header_len(
    sample_count: u64,
    silence: u64,
    freq: u8,
    max_band: u8,
    channels: u8,
    mid_side: bool,
    power: u8,
)
    ensures
        sh_bytes(
            sh_body(sample_count, silence, freq, max_band, channels, mid_side, power),
        ).len() <= 27,
{
    reveal_with_fuel(pow, 10);
    framing::lemma_lead_len(sample_count as nat / 128, 9);
    framing::lemma_lead_len(silence as nat / 128, 9);
    let body = sh_body(sample_count, silence, freq, max_band, channels, mid_side, power);
    stream_headers::lemma_big_endian(sv8_crc::crc32(body) as nat);
    stream_headers::lemma_big_endian(
        stream_headers::packed(
            freq as int,
            max_band as int,
            channels as int,
            mid_side,
            power as int,
        ) as nat,
    );
}

/// Composes the payload of a stream header. A field outside its range is refused.
pub fn sh_payload(
    sample_count: u64,
    beginning_silence: u64,
    sample_freq_index: u8,
    max_band: u8,
    channels: u8,
    mid_side: bool,
    block_power: u8,
) -> (r: Result<Vec<u8>>)
    ensures
        match r {
            Ok(p) => {
                &&& sample_freq_index < 4
                &&& 1 <= max_band <= 31
                &&& 1 <= channels <= 16
                &&& block_power <= 7
                &&& p@ == sh_bytes(
                    sh_body(
                        sample_count,
                        beginning_silence,
                        sample_freq_index,
                        max_band,
                        channels,
                        mid_side,
                        block_power,
                    ),
                )
                &&& p@.len() <= 27
            },
            Err(e) => e == (if sample_freq_index >= 4 {
                Error::HeaderFieldOutOfRange("sample_freq_index")
            } else if !(1 <= max_band <= 31) {
                Error::MaxBandOutOfRange(max_band)
            } else if !(1 <= channels <= 16) {
                Error::HeaderFieldOutOfRange("channels")
            } else {
                Error::HeaderFieldOutOfRange("block_power")
            }) && !(sample_freq_index < 4 && 1 <= max_band <= 31 && 1 <= channels <= 16
                && block_power <= 7),
        },
{
    if sample_freq_index >= 4 {
        return Err(Error::HeaderFieldOutOfRange("sample_freq_index"));
    }
    if max_band < 1 || max_band > 31 {
        return Err(Error::MaxBandOutOfRange(max_band));
    }
    if channels < 1 || channels > 16 {
        return Err(Error::HeaderFieldOutOfRange("channels"));
    }
    if block_power > 7 {
        return Err(Error::HeaderFieldOutOfRange("block_power"));
    }
    let mut body: Vec<u8> = Vec::new();
    body.push(SV8_STREAM_VERSION);
    write_varint(&mut body, sample_count);
    write_varint(&mut body, beginning_silence);
    let flag: u16 = if mid_side { 8 } else { 0 };
    let packed: u16 = sample_freq_index as u16 * 0x2000 + (max_band - 1) as u16 * 0x100
        + (channels - 1) as u16 * 0x10 + flag + block_power as u16;
    push_be16(&mut body, packed);
    let ghost want = sh_body(
        sample_count,
        beginning_silence,
        sample_freq_index,
        max_band,
        channels,
        mid_side,
        block_power,
    );
    assert(body@ =~= want);
    let crc: u32 = sv8_crc32(body.as_slice());
    let mut payload: Vec<u8> = Vec::new();
    push_be32(&mut payload, crc);
    append_bytes(&mut payload, body.as_slice());
    proof {
        assert(payload@ =~= sh_bytes(want));
        lemma_header_len(
            sample_count,
            beginning_silence,
            sample_freq_index,
            max_band,
            channels,
            mid_side,
            block_power,
        );
    }
    Ok(payload)
}

/// A composed stream header parses back to its fields, with the checksum of the rest.
pub proof fn law_header_reads_back(
    sample_count: u64,
    silence: u64,
    freq: u8,
    max_band: u8,
    channels: u8,
    mid_side: bool,
    power: u8,
)
    requires
        sample_count < 0x8000_0000_0000_0000,
        silence < 0x8000_0000_0000_0000,
        freq < 8,
        1 <= max_band <= 32,
        1 <= channels <= 16,
        power <= 7,
    ensures
        ({
            let body = sh_body(sample_count, silence, freq, max_band, channels, mid_side, power);
            &&& sh_bytes(body).skip(4) == body
            &&& stream_headers::header_of(sh_bytes(body)) == Ok::<StreamHeaderFields, Error>(
                StreamHeaderFields {
                    crc: sv8_crc::crc32(body),
                    stream_version: 8,
                    sample_count,
                    beginning_silence: silence,
                    sample_freq_index: freq,
                    max_band,
                    channels,
                    mid_side,
                    block_power: power,
                },
            )
        }),
{
    let body = sh_body(sample_count, silence, freq, max_band, channels, mid_side, power);
    let crc = stream_headers::big_endian(sv8_crc::crc32(body) as nat, 4);
    reveal(stream_headers::header_of);
    let payload = sh_bytes(body);
    let v = stream_headers::packed(
        freq as int,
        max_band as int,
        channels as int,
        mid_side,
        power as int,
    );
    let tail = stream_headers::big_endian(v as nat, 2);
    stream_headers::lemma_big_endian(sv8_crc::crc32(body) as nat);
    stream_headers::lemma_big_endian(v as nat);
    let a = framing::varint(sample_count as nat);
    let b = framing::varint(silence as nat);
    framing::law_varint_reads_back(sample_count as nat, b + tail);
    framing::law_varint_reads_back(silence as nat, tail);
    assert(payload.skip(4) =~= body);
    assert(payload.take(4) =~= crc);
    assert(payload[4] == body[0]);
    assert(payload.skip(5) =~= a + (b + tail));
    assert(payload.skip(5 + a.len() as int) =~= b + tail);
    let n = a.len() as int;
    let m = b.len() as int;
    assert(payload.subrange(5 + n + m, 7 + n + m) =~= tail);
    stream_headers::lemma_unpacked(
        freq as int,
        max_band as int,
        channels as int,
        mid_side,
        power as int,
    );
}

/// Composes the payload of a replay-gain packet.
#[must_use]
pub fn rg_payload(title_gain: u16, title_peak: u16, album_gain: u16, album_peak: u16) -> (p: Vec<
    u8,
>)
    ensures
        p@ == seq![1u8] + stream_headers::big_endian(title_gain as nat, 2)
            + stream_headers::big_endian(title_peak as nat, 2) + stream_headers::big_endian(
            album_gain as nat,
            2,
        ) + stream_headers::big_endian(album_peak as nat, 2),
        p@.len() == 9,
        stream_headers::gain_of(p@) == Ok::<stream_headers::ReplayGainFields, Error>(
            stream_headers::ReplayGainFields {
                version: 1,
                title_gain,
                title_peak,
                album_gain,
                album_peak,
            },
        ),
{
    let mut out: Vec<u8> = Vec::new();
    out.push(1);
    push_be16(&mut out, title_gain);
    push_be16(&mut out, title_peak);
    push_be16(&mut out, album_gain);
    push_be16(&mut out, album_peak);
    proof {
        let a = stream_headers::big_endian(title_gain as nat, 2);
        let b = stream_headers::big_endian(title_peak as nat, 2);
        let c = stream_headers::big_endian(album_gain as nat, 2);
        let d = stream_headers::big_endian(album_peak as nat, 2);
        stream_headers::lemma_big_endian(title_gain as nat);
        stream_headers::lemma_big_endian(title_peak as nat);
        stream_headers::lemma_big_endian(album_gain as nat);
        stream_headers::lemma_big_endian(album_peak as nat);
        assert(out@ =~= seq![1u8] + a + b + c + d);
        assert(out@.subrange(1, 3) =~= a);
        assert(out@.subrange(3, 5) =~= b);
        assert(out@.subrange(5, 7) =~= c);
        assert(out@.subrange(7, 9) =~= d);
    }
    out
}

/// Composes the payload of an encoder-information packet. A profile of more than seven
/// bits is refused.
pub fn ei_payload(profile: u8, pns: bool, major: u8, minor: u8, build: u8) -> (r: Result<Vec<u8>>)
    ensures
        match r {
            Ok(p) => {
                &&& profile <= 0x7f
                &&& p@ == seq![
                    (2 * profile + if pns {
                        1int
                    } else {
                        0int
                    }) as u8,
                    major,
                    minor,
                    build,
                ]
                &&& stream_headers::info_of(p@) == Ok::<stream_headers::EncoderInfoFields, Error>(
                    stream_headers::EncoderInfoFields { profile, pns, major, minor, build },
                )
            },
            Err(e) => profile > 0x7f && e == Error::HeaderFieldOutOfRange("profile"),
        },
{
    if profile > 0x7f {
        return Err(Error::HeaderFieldOutOfRange("profile"));
    }
    let flag: u8 = if pns { 1 } else { 0 };
    let mut out: Vec<u8> = Vec::new();
    out.push(2 * profile + flag);
    out.push(major);
    out.push(minor);
    out.push(build);
    Ok(out)
}

} // verus!
