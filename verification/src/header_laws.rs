//! What the bytes of packets and headers say.

use crate::error::Error;
use crate::framing;
use crate::framing::PacketKey;
use crate::packets;
use crate::stream_headers;
use crate::sv8_crc;
use vstd::arithmetic::power2::*;
use vstd::prelude::*;

verus! {

/// An integer is its bytes up to the first below 128, each with seven bits, the highest first.
/// What the first bytes come to is returned, for every number of them.
pub proof fn law_varint_bytes(data: Seq<u8>) -> (parts: Seq<nat>)
    requires
        framing::varint_at(data) is Ok,
    ensures
        ({
            let (v, n) = framing::varint_at(data)->Ok_0;
            &&& 1 <= n <= 9
            &&& n <= data.len()
            &&& data[n - 1] < 128
            &&& parts.len() == n + 1
            &&& parts[0] == 0
            &&& parts[n as int] == v
            &&& forall|i: int| 0 <= i < n - 1 ==> #[trigger] data[i] >= 128
            &&& forall|i: int|
                0 <= i < n ==> parts[i + 1] == 128 * parts[i] + (#[trigger] data[i]) as int % 128
        }),
{
    lemma2_to64();
    lemma_varint_parts(data, 0, 0)
}

/// What the bytes of an integer from byte `i` on come to, behind `acc`.
proof fn lemma_varint_parts(data: Seq<u8>, i: int, acc: nat) -> (parts: Seq<nat>)
    requires
        0 <= i <= 9,
        acc < pow2((7 * i) as nat),
        framing::read_varint(data, i, acc, 9) is Ok,
    ensures
        ({
            let (v, n) = framing::read_varint(data, i, acc, 9)->Ok_0;
            &&& i + 1 <= n <= 9
            &&& n <= data.len()
            &&& data[n - 1] < 128
            &&& parts.len() == n - i + 1
            &&& parts[0] == acc
            &&& parts[n - i] == v
            &&& forall|k: int| i <= k < n - 1 ==> #[trigger] data[k] >= 128
            &&& forall|k: int|
                i <= k < n ==> parts[k - i + 1] == 128 * parts[k - i] + (
                #[trigger] data[k]) as int % 128
        }),
    decreases 9 - i,
{
    lemma2_to64();
    lemma_pow2_adds((7 * i) as nat, 7);
    if 7 * i + 7 < 63 {
        lemma_pow2_strictly_increases((7 * i + 7) as nat, 63);
    }
    assert(pow2(63) == 0x8000_0000_0000_0000) by {
        lemma2_to64_rest();
    }
    let next = acc * 128 + data[i] as nat % 128;
    if data[i] < 128 {
        seq![acc, next]
    } else {
        let rest = lemma_varint_parts(data, i + 1, next);
        let parts = seq![acc] + rest;
        let n = framing::read_varint(data, i, acc, 9)->Ok_0.1;
        assert forall|k: int| i <= k < n implies parts[k - i + 1] == 128 * parts[k - i] + (
        #[trigger] data[k]) as int % 128 by {
            if k > i {
                assert(parts[k - i] == rest[k - (i + 1)]);
                assert(parts[k - i + 1] == rest[k - (i + 1) + 1]);
            }
        }
        parts
    }
}

/// An integer is refused where no byte below 128 comes: as too long where nine bytes are
/// there, and as cut off where they are not.
pub proof fn law_varint_refused(data: Seq<u8>)
    ensures
        framing::varint_at(data) is Err <==> forall|i: int|
            0 <= i < 9 && i < data.len() ==> #[trigger] data[i] >= 128,
        framing::varint_at(data) is Err ==> framing::varint_at(data)->Err_0 == if data.len() >= 9 {
            Error::VarintTooLong
        } else {
            Error::UnexpectedEof
        },
{
    lemma_varint_refused_from(data, 0, 0);
}

proof fn lemma_varint_refused_from(data: Seq<u8>, i: int, acc: nat)
    requires
        0 <= i <= 9,
        i <= data.len(),
    ensures
        ({
            let r = framing::read_varint(data, i, acc, 9);
            &&& r is Err <==> forall|k: int|
                i <= k < 9 && k < data.len() ==> #[trigger] data[k] >= 128
            &&& r is Err ==> r->Err_0 == if data.len() >= 9 {
                Error::VarintTooLong
            } else {
                Error::UnexpectedEof
            }
        }),
    decreases 9 - i,
{
    if i < 9 && i < data.len() && data[i] >= 128 {
        lemma_varint_refused_from(data, i + 1, acc * 128 + (data[i] - 128) as nat);
        let rest = forall|k: int| i + 1 <= k < 9 && k < data.len() ==> #[trigger] data[k] >= 128;
        let all = forall|k: int| i <= k < 9 && k < data.len() ==> #[trigger] data[k] >= 128;
        if rest {
            assert forall|k: int| i <= k < 9 && k < data.len() implies #[trigger] data[k] >= 128 by {}
        }
    }
}

/// An integer is written in as few bytes as it needs: none of them is empty in front.
pub proof fn law_varint_is_short(v: nat)
    ensures
        framing::varint(v).len() >= 1,
        framing::varint(v)[0] != 128,
        v < 128 <==> framing::varint(v).len() == 1,
        framing::varint(v).last() == v % 128,
        v >= 128 ==> framing::varint(v).len() == framing::varint(v / 128).len() + 1,
{
    let high = v / 128;
    lemma_lead_first(high);
    if high > 0 {
        assert(framing::lead(high).len() >= 1);
        assert(framing::varint(v)[0] == framing::lead(high)[0]);
    }
}

proof fn lemma_lead_first(v: nat)
    ensures
        v > 0 ==> framing::lead(v).len() > 0 && framing::lead(v)[0] != 128,
    decreases v,
{
    if v > 0 {
        lemma_lead_first(v / 128);
        if v / 128 == 0 {
            assert(framing::lead(v / 128).len() == 0);
            assert(framing::lead(v)[0] == (128 + v % 128) as u8);
            assert(v % 128 == v);
        }
    }
}

/// A packet is two letters, its size and its payload. The size counts all of them. The
/// letters say what it holds.
pub proof fn law_packet_bytes(data: Seq<u8>)
    requires
        framing::packet_at(data) is Ok,
        data.len() > 0,
    ensures
        framing::packet_at(data)->Ok_0 is Some,
        ({
            let m = framing::packet_at(data)->Ok_0->0;
            let (size, n) = framing::varint_at(data.skip(2))->Ok_0;
            let (a, b) = (data[0] as char, data[1] as char);
            &&& data.len() >= 2
            &&& framing::varint_at(data.skip(2)) is Ok
            &&& m.header_len == n + 2
            &&& m.header_len + m.payload.len() == size <= data.len()
            &&& m.payload == data.subrange(m.header_len as int, size as int)
            &&& m.key is StreamHeader <==> a == 'S' && b == 'H'
            &&& m.key is ReplayGain <==> a == 'R' && b == 'G'
            &&& m.key is EncoderInfo <==> a == 'E' && b == 'I'
            &&& m.key is SeekTableOffset <==> a == 'S' && b == 'O'
            &&& m.key is AudioPacket <==> a == 'A' && b == 'P'
            &&& m.key is SeekTable <==> a == 'S' && b == 'T'
            &&& m.key is StreamEnd <==> a == 'S' && b == 'E'
            &&& m.key is Unknown ==> m.key == PacketKey::Unknown(data[0], data[1])
        }),
{
    reveal(framing::packet_at);
}

/// A packet is refused where its size does not count the letters and itself, and where it is
/// cut off.
pub proof fn law_packet_refused(data: Seq<u8>)
    requires
        data.len() >= 2,
        framing::varint_at(data.skip(2)) is Ok,
    ensures
        ({
            let (size, n) = framing::varint_at(data.skip(2))->Ok_0;
            framing::packet_at(data) is Err <==> size < n + 2 || size > data.len()
        }),
{
    reveal(framing::packet_at);
}

/// The payload of a stream header, as bytes: a checksum of what follows it, the version, the
/// two counts, and two bytes for the rest. Of these the first has the number of the sample
/// rate in three bits and the highest band less one in five, the second the channels less one
/// in four bits, a bit that is set where bands may be mid and side, and the block power in
/// three.
pub proof fn law_header_bytes(
    sample_count: u64,
    silence: u64,
    freq: u8,
    max_band: u8,
    channels: u8,
    mid_side: bool,
    power: u8,
)
    requires
        freq < 8,
        1 <= max_band <= 32,
        1 <= channels <= 16,
        power < 8,
    ensures
        ({
            let p = packets::sh_bytes(
                packets::sh_body(sample_count, silence, freq, max_band, channels, mid_side, power),
            );
            let n = p.len() as int;
            let flag: int = if mid_side {
                8
            } else {
                0
            };
            &&& n >= 9
            &&& 0x100_0000 * p[0] + 0x1_0000 * p[1] + 0x100 * p[2] + p[3] == sv8_crc::crc32(
                p.skip(4),
            )
            &&& p[4] == 8
            &&& p.subrange(5, n - 2) == framing::varint(sample_count as nat) + framing::varint(
                silence as nat,
            )
            &&& 0x100 * p[n - 2] + p[n - 1] == freq * 0x2000 + (max_band - 1) * 0x100 + (channels
                - 1) * 0x10 + flag + power
            &&& p[n - 2] == 32 * freq + (max_band - 1)
            &&& p[n - 1] == 16 * (channels - 1) + flag + power
        }),
{
    let body = packets::sh_body(sample_count, silence, freq, max_band, channels, mid_side, power);
    let p = packets::sh_bytes(body);
    let n = p.len() as int;
    let flag: int = if mid_side {
        8
    } else {
        0
    };
    let hi = 32 * freq + (max_band - 1);
    let lo = 16 * (channels - 1) + flag + power;
    let v = stream_headers::packed(
        freq as int,
        max_band as int,
        channels as int,
        mid_side,
        power as int,
    );
    assert(v == 256 * hi + lo);
    assert(0 <= lo < 256 && 0 <= hi < 256);
    let crc = sv8_crc::crc32(body) as nat;
    let a = framing::varint(sample_count as nat);
    let b = framing::varint(silence as nat);
    let tail = stream_headers::big_endian(v as nat, 2);
    let head = stream_headers::big_endian(crc, 4);
    stream_headers::lemma_big_endian(v as nat);
    stream_headers::lemma_big_endian(crc);
    stream_headers::lemma_four_bytes(head);
    stream_headers::lemma_two_bytes(tail);
    assert(p.skip(4) =~= body);
    assert(p[0] == head[0] && p[1] == head[1] && p[2] == head[2] && p[3] == head[3]);
    assert(p.subrange(5, n - 2) =~= a + b);
    assert(p[n - 2] == tail[0] && p[n - 1] == tail[1]);
    law_varint_is_short(sample_count as nat);
    law_varint_is_short(silence as nat);
}

/// The fields of a parsed stream header lie in its bytes: the checksum, the version, the two
/// counts, and then two bytes. Of these the first has the number of the sample rate in its
/// highest three bits and the highest band less one in the others, the second the channels
/// less one in its highest four bits, the mid/side flag in bit 3 and the block power below it.
pub proof fn law_header_fields(payload: Seq<u8>)
    requires
        stream_headers::header_of(payload) is Ok,
    ensures
        ({
            let h = stream_headers::header_of(payload)->Ok_0;
            let first = framing::varint_at(payload.skip(5));
            let (count, n) = first->Ok_0;
            let second = framing::varint_at(payload.skip(5 + n));
            let (silence, m) = second->Ok_0;
            let at = 5 + n + m;
            &&& first is Ok
            &&& second is Ok
            &&& at + 2 <= payload.len()
            &&& h.crc == 0x100_0000 * payload[0] + 0x1_0000 * payload[1] + 0x100 * payload[2]
                + payload[3]
            &&& h.stream_version == payload[4]
            &&& h.sample_count == count
            &&& h.beginning_silence == silence
            &&& 32 * h.sample_freq_index + (h.max_band - 1) == payload[at]
            &&& 1 <= h.max_band <= 32
            &&& h.channels - 1 == payload[at + 1] >> 4
            &&& h.mid_side <==> payload[at + 1] & 8 == 8
            &&& h.block_power == payload[at + 1] & 7
        }),
{
    reveal(stream_headers::header_of);
    let (count, n) = framing::varint_at(payload.skip(5))->Ok_0;
    let (silence, m) = framing::varint_at(payload.skip(5 + n))->Ok_0;
    let at = 5 + n + m;
    stream_headers::lemma_two_bytes(payload.subrange(5 + n + m, 7 + n + m));
    stream_headers::lemma_four_bytes(payload.take(4));
    let a = payload[at];
    let b = payload[at + 1];
    let v = 256 * a + b;
    assert(stream_headers::big_value(payload.subrange(5 + n + m, 7 + n + m)) == v);
    assert(v / 0x2000 == a / 32);
    assert(v / 0x100 == a);
    assert(v / 0x10 % 16 == b / 16);
    assert(v / 8 % 2 == b / 8 % 2);
    assert(v % 8 == b % 8);
    assert(b >> 4 == b / 16 && (b & 8 == 8 <==> b / 8 % 2 == 1) && b & 7 == b % 8) by (bit_vector);
}

/// A stream header is refused where it is cut off, or one of its counts is.
pub proof fn law_header_refused(payload: Seq<u8>)
    requires
        payload.len() >= 5,
    ensures
        ({
            let first = framing::varint_at(payload.skip(5));
            let n = first->Ok_0.1;
            let second = framing::varint_at(payload.skip(5 + n));
            let m = second->Ok_0.1;
            &&& first is Err ==> stream_headers::header_of(payload) is Err
            &&& first is Ok && second is Err ==> stream_headers::header_of(payload) is Err
            &&& first is Ok && second is Ok ==> (stream_headers::header_of(payload) is Ok <==> 7 + n
                + m <= payload.len())
        }),
{
    reveal(stream_headers::header_of);
}

/// An audio packet has up to four to the block power frames.
pub proof fn law_frames_of_power(power: nat)
    ensures
        stream_headers::frames_of_power(power) == pow2(2 * power),
    decreases power,
{
    if power == 0 {
        lemma2_to64();
    } else {
        law_frames_of_power((power - 1) as nat);
        lemma_pow2_adds((2 * (power - 1)) as nat, 2);
        lemma2_to64();
    }
}

/// The gains and peaks of a replay-gain packet are pairs of bytes, the higher first: those of
/// the title, then those of the album, the gain before the peak.
pub proof fn law_gain_fields(payload: Seq<u8>)
    ensures
        stream_headers::gain_of(payload) is Ok <==> payload.len() >= 9,
        payload.len() >= 9 ==> {
            let g = stream_headers::gain_of(payload)->Ok_0;
            &&& g.version == payload[0]
            &&& g.title_gain == 256 * payload[1] + payload[2]
            &&& g.title_peak == 256 * payload[3] + payload[4]
            &&& g.album_gain == 256 * payload[5] + payload[6]
            &&& g.album_peak == 256 * payload[7] + payload[8]
        },
{
    if payload.len() >= 9 {
        stream_headers::lemma_two_bytes(payload.subrange(1, 3));
        stream_headers::lemma_two_bytes(payload.subrange(3, 5));
        stream_headers::lemma_two_bytes(payload.subrange(5, 7));
        stream_headers::lemma_two_bytes(payload.subrange(7, 9));
    }
}

/// The fields of an encoder-information packet: the profile and the flag of noise, which is
/// the lowest bit, share a byte, and the version has three.
pub proof fn law_info_fields(payload: Seq<u8>)
    ensures
        stream_headers::info_of(payload) is Ok <==> payload.len() >= 4,
        payload.len() >= 4 ==> {
            let i = stream_headers::info_of(payload)->Ok_0;
            &&& i.profile == payload[0] >> 1
            &&& i.pns <==> payload[0] & 1 == 1
            &&& i.major == payload[1]
            &&& i.minor == payload[2]
            &&& i.build == payload[3]
        },
{
    let b = payload[0];
    assert(b >> 1 == b / 2 && (b & 1 == 1 <==> b % 2 == 1)) by (bit_vector);
}

} // verus!
