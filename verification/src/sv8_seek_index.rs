//! An index of where the audio packets of a stream start, and decoding from there on.

use crate::error::{Error, Result};
use crate::framing;
use crate::framing::{parse_sv8_magic, Packet, PacketKey, PacketStream, SV8_MAGIC};
use crate::stream_headers;
use crate::stream_headers::StreamHeaderFields;
use crate::sv8_huffman::Sv8TableSet;
use crate::sv8_seek;
use crate::sv8_seek::{SeekOffsetFields, SeekTable, SeekTableFields, SEEK_TABLE_CAP};
use crate::sv8_stereo_frame::{StereoFrame, Sv8StereoFrameDecode};
use crate::sv8_stream;
use crate::sv8_stream::{StreamMemory, Sv8StreamDecoder};
use vstd::arithmetic::power2::*;
use vstd::prelude::*;

verus! {

/// An index of the audio packets of a stream in memory.
#[derive(Debug, Clone, PartialEq, Eq)]
pub struct Sv8SeekIndex {
    /// Where the indexed audio packets start, in bytes from the start of the buffer.
    pub positions: Vec<u64>,
    /// Audio packets from one entry to the next.
    pub packets_per_entry: u64,
    /// Most frames in an audio packet.
    pub frames_per_packet: u64,
}

/// An index, as the contracts speak of it.
#[verifier::ext_equal]
pub struct SeekIndex {
    pub positions: Seq<u64>,
    pub packets_per_entry: nat,
    pub frames_per_packet: nat,
}

impl View for Sv8SeekIndex {
    type V = SeekIndex;

    open spec fn view(&self) -> SeekIndex {
        SeekIndex {
            positions: self.positions@,
            packets_per_entry: self.packets_per_entry as nat,
            frames_per_packet: self.frames_per_packet as nat,
        }
    }
}

// ---------------------------------------------------------------------------
// Thinning
// ---------------------------------------------------------------------------

/// Entries that a stream of `samples` samples needs, with one every `2^power` frames.
pub open spec fn needed(samples: nat, power: nat) -> nat {
    2 + samples / (1152 * pow2(power))
}

/// How often, from `d` on, the distance of the entries has to double for no more than
/// `ceiling` of them to be needed.
pub open spec fn doublings(samples: nat, power: nat, ceiling: nat, d: nat) -> nat
    decreases 64 - d,
{
    if d >= 64 || needed(samples, power + d) <= ceiling {
        d
    } else {
        doublings(samples, power, ceiling, d + 1)
    }
}

/// Every `stride`-th of the entries.
pub open spec fn strided(entries: Seq<u64>, stride: nat) -> Seq<u64> {
    Seq::new((entries.len() + stride - 1) as nat / stride, |i: int| entries[i * stride])
}

/// The index that a seek table makes. Where the stream header is known, entries that its
/// sample count does not need are dropped, and entries are left out until no more than
/// `ceiling` are needed.
pub open spec fn index_of(
    table: SeekTable,
    header: Option<StreamHeaderFields>,
    ceiling: nat,
) -> SeekIndex {
    match header {
        None => SeekIndex {
            positions: table.entries,
            packets_per_entry: pow2(table.seek_pwr_delta as nat),
            frames_per_packet: 0,
        },
        Some(h) => {
            let power = (2 * h.block_power + table.seek_pwr_delta) as nat;
            let most = if ceiling < 2 {
                2
            } else {
                ceiling
            };
            let d = doublings(h.sample_count as nat, power, most, 0);
            let justified = needed(h.sample_count as nat, power + d) * pow2(d);
            let kept = if table.entries.len() > justified {
                table.entries.take(justified as int)
            } else {
                table.entries
            };
            SeekIndex {
                positions: strided(kept, pow2(d)),
                packets_per_entry: pow2(table.seek_pwr_delta as nat) * pow2(d),
                frames_per_packet: h.packet_frames(),
            }
        },
    }
}

/// Doubling stops before the distance leaves 64 bits.
proof fn lemma_doublings(samples: nat, power: nat, ceiling: nat, d: nat)
    requires
        samples < 0x8000_0000_0000_0000,
        ceiling >= 2,
        power + d <= 53,
    ensures
        d <= doublings(samples, power, ceiling, d),
        power + doublings(samples, power, ceiling, d) <= 53,
        needed(samples, power + doublings(samples, power, ceiling, d)) <= ceiling,
    decreases 53 - power - d,
{
    lemma2_to64();
    lemma2_to64_rest();
    if needed(samples, power + d) > ceiling {
        if power + d == 53 {
            vstd::arithmetic::div_mod::lemma_basic_div(
                samples as int,
                (1152 * pow2(53)) as int,
            );
        } else {
            lemma_doublings(samples, power, ceiling, d + 1);
        }
    }
}

/// Every `stride`-th of the entries.
fn take_strided(entries: &Vec<u64>, len: usize, stride: u64) -> (out: Vec<u64>)
    requires
        len <= entries@.len(),
        stride > 0,
    ensures
        out@ == strided(entries@.take(len as int), stride as nat),
{
    let mut out: Vec<u64> = Vec::new();
    let ghost kept = entries@.take(len as int);
    let ghost k = stride as int;
    let mut i: u128 = 0;
    assert(0 * k == 0);
    while i < len as u128
        invariant
            len <= entries@.len(),
            stride > 0,
            k == stride,
            kept == entries@.take(len as int),
            i == out@.len() * k,
            i < len + k,
            forall|j: int| 0 <= j < out@.len() ==> #[trigger] out@[j] == kept[j * k],
        decreases len + stride - i,
    {
        out.push(entries[i as usize]);
        i = i + stride as u128;
        proof {
            let n = out@.len() as int;
            assert(n * k == (n - 1) * k + k) by (nonlinear_arith);
        }
    }
    proof {
        let n = out@.len() as int;
        vstd::arithmetic::div_mod::lemma_fundamental_div_mod_converse(
            len + k - 1,
            k,
            n,
            len + k - 1 - n * k,
        );
        vstd::arithmetic::mul::lemma_mul_is_commutative(k, n);
        assert(out@ =~= strided(kept, stride as nat));
    }
    out
}

/// Builds the index that a seek table makes.
fn thin_table(
    table: &SeekTableFields,
    header: &Option<StreamHeaderFields>,
    ceiling: u64,
) -> (index: Sv8SeekIndex)
    requires
        table.seek_pwr_delta <= 15,
        *header matches Some(h) ==> h.wf(),
    ensures
        index@ == index_of(table@, *header, ceiling as nat),
{
    let delta: u8 = table.seek_pwr_delta;
    let len: usize = table.entries.len();
    proof {
        lemma2_to64();
        lemma2_to64_rest();
        lemma_pow2_strictly_increases(delta as nat, 16);
        vstd::bits::lemma_u64_shl_is_mul(1, delta as u64);
    }
    let step: u64 = 1u64 << delta as u64;
    match header {
        None => {
            let positions: Vec<u64> = take_strided(&table.entries, len, 1);
            proof {
                assert(table.entries@.take(len as int) =~= table.entries@);
                assert(positions@ =~= table.entries@);
            }
            Sv8SeekIndex { positions, packets_per_entry: step, frames_per_packet: 0 }
        },
        Some(h) => {
            let samples: u64 = h.sample_count;
            let most: u64 = if ceiling < 2 { 2 } else { ceiling };
            let power: u64 = 2 * h.block_power as u64 + delta as u64;
            let ghost whole = doublings(samples as nat, power as nat, most as nat, 0);
            proof {
                lemma_doublings(samples as nat, power as nat, most as nat, 0);
                lemma_pow2_strictly_increases(power as nat, 30);
                vstd::bits::lemma_u64_shl_is_mul(1152, power);
            }
            let mut span: u64 = 1152u64 << power;
            let mut d: u64 = 0;
            let mut stride: u64 = 1;
            assert(span == 1152 * pow2(power as nat));
            while 2 + (samples / span) as u128 > most as u128
                invariant
                    samples < 0x8000_0000_0000_0000,
                    most >= 2,
                    power + d <= 53,
                    delta <= power,
                    span == 1152 * pow2((power + d) as nat),
                    span > 0,
                    stride == pow2(d as nat),
                    whole == doublings(samples as nat, power as nat, most as nat, 0),
                    whole == doublings(samples as nat, power as nat, most as nat, d as nat),
                    power + whole <= 53,
                decreases 53 - power - d,
            {
                proof {
                    lemma_doublings(samples as nat, power as nat, most as nat, d as nat);
                    assert(whole != d);
                    lemma_pow2_unfold((power + d + 1) as nat);
                    lemma_pow2_unfold((d + 1) as nat);
                    lemma2_to64();
                    lemma2_to64_rest();
                    if power + d + 1 < 53 {
                        lemma_pow2_strictly_increases((power + d + 1) as nat, 53);
                    }
                    if d + 1 < 53 {
                        lemma_pow2_strictly_increases((d + 1) as nat, 53);
                    }
                }
                span = 2 * span;
                stride = 2 * stride;
                d = d + 1;
            }
            let most_needed: u128 = 2 + (samples / span) as u128;
            proof {
                lemma2_to64();
                lemma2_to64_rest();
                if d < 53 {
                    lemma_pow2_strictly_increases(d as nat, 53);
                }
                lemma_pow2_pos(d as nat);
                lemma_pow2_adds(delta as nat, d as nat);
                if delta + d < 53 {
                    lemma_pow2_strictly_increases((delta + d) as nat, 53);
                }
                assert(most_needed * stride <= 0x1_0000_0000_0000_0001 * 0x20_0000_0000_0000)
                    by (nonlinear_arith)
                    requires
                        most_needed <= 0x1_0000_0000_0000_0001,
                        stride <= 0x20_0000_0000_0000,
                ;
            }
            let justified: u128 = most_needed * stride as u128;
            let kept: usize = if len as u128 > justified { justified as usize } else { len };
            assert(table.entries@.take(len as int) =~= table.entries@);
            let positions: Vec<u64> = take_strided(&table.entries, kept, stride);
            Sv8SeekIndex {
                positions,
                packets_per_entry: step * stride,
                frames_per_packet: h.frames_per_audio_packet(),
            }
        },
    }
}

// ---------------------------------------------------------------------------
// The packets before the audio
// ---------------------------------------------------------------------------

/// What stands before the audio of a stream.
#[verifier::ext_equal]
pub struct Prefix {
    pub header: Option<StreamHeaderFields>,
    /// Where the seek-offset packet starts, behind the magic, and its offset.
    pub offset: Option<(nat, u64)>,
}

/// The walk over the packets of `data`, which starts `at` bytes behind the magic, up to
/// the seek-offset packet, the audio or the stream end.
pub open spec fn prefix_of(
    data: Seq<u8>,
    at: nat,
    header: Option<StreamHeaderFields>,
) -> Result<Prefix>
    decreases data.len(),
{
    proof {
        framing::lemma_packet_extent(data);
    }
    match framing::packet_at(data) {
        Err(e) => Err(e),
        Ok(None) => Ok(Prefix { header, offset: None }),
        Ok(Some(p)) => {
            let rest = data.skip(p.extent() as int);
            match p.key {
                PacketKey::StreamHeader => match stream_headers::header_of(p.payload) {
                    Err(e) => Err(e),
                    Ok(h) => prefix_of(rest, at + p.extent(), Some(h)),
                },
                PacketKey::SeekTableOffset => match framing::varint_at(p.payload) {
                    Err(e) => Err(e),
                    Ok((v, n)) => Ok(Prefix { header, offset: Some((at, v)) }),
                },
                PacketKey::AudioPacket => Ok(Prefix { header, offset: None }),
                PacketKey::StreamEnd => Ok(Prefix { header, offset: None }),
                _ => prefix_of(rest, at + p.extent(), header),
            }
        },
    }
}

/// Outcome of reading the seek table that stands `offset` bytes behind the byte `at`.
pub open spec fn table_at(body: Seq<u8>, at: nat, offset: u64) -> Result<SeekTable> {
    let start = at + offset;
    if start >= body.len() {
        Err(Error::SeekTableCorrupt("SO offset outside the buffer"))
    } else {
        match framing::packet_at(body.skip(start as int)) {
            Err(e) => Err(e),
            Ok(None) => Err(Error::SeekTableCorrupt("SO offset points at no packet")),
            Ok(Some(p)) => if p.key != PacketKey::SeekTable {
                Err(Error::SeekTableCorrupt("SO offset points at a non-ST packet"))
            } else {
                match sv8_seek::table_of(p.payload) {
                    Ok(t) => Ok(t),
                    Err(Error::SeekTableCorrupt(text)) => Err(Error::SeekTableCorrupt(text)),
                    Err(_) => Err(Error::SeekTableCorrupt("seek table does not parse")),
                }
            },
        }
    }
}

/// A table that was read has a delta of four bits.
pub proof fn lemma_table_at(body: Seq<u8>, at: nat, offset: u64)
    ensures
        table_at(body, at, offset) matches Ok(t) ==> t.seek_pwr_delta <= 15,
{
    if table_at(body, at, offset) is Ok {
        let p = framing::packet_at(body.skip(at + offset))->Ok_0->0;
        sv8_seek::lemma_table_delta(p.payload);
    }
}

/// The stream starts with the magic.
pub open spec fn is_stream(input: Seq<u8>) -> bool {
    input.len() >= 4 && input.take(4) == SV8_MAGIC@
}

/// Outcome of building the index of a stream from its own seek table.
pub open spec fn stored_index(input: Seq<u8>, ceiling: nat) -> Result<Option<SeekIndex>> {
    if !is_stream(input) {
        Err(Error::InvalidMagic)
    } else {
        match prefix_of(input.skip(4), 0, None) {
            Err(e) => Err(e),
            Ok(p) => match p.offset {
                None => Ok(None),
                Some((at, v)) => match table_at(input.skip(4), at, v) {
                    Err(e) => Err(e),
                    Ok(t) => Ok(Some(index_of(t, p.header, ceiling))),
                },
            },
        }
    }
}

/// What the packets before the audio say.
struct PrefixFields {
    header: Option<StreamHeaderFields>,
    offset: Option<(usize, u64)>,
}

/// Walks over the packets before the audio.
fn read_prefix(input: &[u8]) -> (r: Result<PrefixFields>)
    requires
        input@.len() >= 4,
    ensures
        match (prefix_of(input@.skip(4), 0, None), r) {
            (Ok(m), Ok(p)) => {
                &&& p.header == m.header
                &&& p.header matches Some(h) ==> h.wf()
                &&& match (m.offset, p.offset) {
                    (None, None) => true,
                    (Some((a, v)), Some((b, w))) => a == b && v == w && b <= input@.len() - 4,
                    _ => false,
                }
            },
            (Err(e), Err(f)) => e == f,
            _ => false,
        },
{
    let mut stream: PacketStream<'_> = PacketStream::starting_at(input, 4);
    let ghost whole = prefix_of(input@.skip(4), 0, None);
    let total: usize = input.len() - 4;
    let mut header: Option<StreamHeaderFields> = None;
    let mut at: usize = 0;
    loop
        invariant
            total == input@.len() - 4,
            at + stream@.len() == total,
            header matches Some(h) ==> h.wf(),
            whole == prefix_of(input@.skip(4), 0, None),
            whole == prefix_of(stream@, at as nat, header),
        decreases stream@.len(),
    {
        let packet: Packet<'_> = match stream.next_packet() {
            Ok(Some(p)) => p,
            Ok(None) => {
                return Ok(PrefixFields { header, offset: None });
            },
            Err(e) => {
                return Err(e);
            },
        };
        match packet.key {
            PacketKey::StreamHeader => {
                let fields: StreamHeaderFields = StreamHeaderFields::parse(packet.payload)?;
                header = Some(fields);
            },
            PacketKey::SeekTableOffset => {
                let so: SeekOffsetFields = SeekOffsetFields::parse(packet.payload)?;
                return Ok(PrefixFields { header, offset: Some((at, so.st_offset)) });
            },
            PacketKey::AudioPacket => {
                return Ok(PrefixFields { header, offset: None });
            },
            PacketKey::StreamEnd => {
                return Ok(PrefixFields { header, offset: None });
            },
            _ => {},
        }
        at = total - stream.remaining();
    }
}

/// The positions of the audio packets of `data`, which starts `at` bytes into the buffer,
/// behind `done`; and the frames per packet.
pub open spec fn positions_of(
    data: Seq<u8>,
    at: nat,
    done: Seq<u64>,
    frames_per_packet: nat,
) -> Result<SeekIndex>
    decreases data.len(),
{
    proof {
        framing::lemma_packet_extent(data);
    }
    let end = SeekIndex { positions: done, packets_per_entry: 1, frames_per_packet };
    match framing::packet_at(data) {
        Err(e) => Err(e),
        Ok(None) => Ok(end),
        Ok(Some(p)) => {
            let rest = data.skip(p.extent() as int);
            let next = at + p.extent();
            match p.key {
                PacketKey::StreamHeader => match stream_headers::header_of(p.payload) {
                    Err(e) => Err(e),
                    Ok(h) => positions_of(rest, next, done, h.packet_frames()),
                },
                PacketKey::AudioPacket => positions_of(
                    rest,
                    next,
                    done.push(at as u64),
                    frames_per_packet,
                ),
                PacketKey::StreamEnd => Ok(end),
                _ => positions_of(rest, next, done, frames_per_packet),
            }
        },
    }
}

/// Outcome of building the index of a stream by walking over all its packets.
pub open spec fn walked_index(input: Seq<u8>) -> Result<SeekIndex> {
    if !is_stream(input) {
        Err(Error::InvalidMagic)
    } else {
        positions_of(input.skip(4), 4, Seq::empty(), 0)
    }
}

impl Sv8SeekIndex {
    /// Frames from one entry to the next.
    #[must_use]
    pub fn frames_per_entry(&self) -> (n: u64)
        requires
            self.packets_per_entry * self.frames_per_packet <= u64::MAX,
        ensures
            n == self.packets_per_entry * self.frames_per_packet,
    {
        self.packets_per_entry * self.frames_per_packet
    }

    /// The last entry at or before `frame`, and the frame that it starts at; an empty index
    /// has none.
    #[must_use]
    pub fn entry_for_frame(&self, frame: u64) -> (r: Option<(usize, u64)>)
        requires
            self.positions@.len() > 0 ==> self.packets_per_entry * self.frames_per_packet
                <= u64::MAX,
        ensures
            match r {
                None => self.positions@.len() == 0,
                Some((i, first)) => {
                    let product = self.packets_per_entry * self.frames_per_packet;
                    let fpe = if product < 1 {
                        1
                    } else {
                        product
                    };
                    &&& i < self.positions@.len()
                    &&& i == frame as int / fpe || (i == self.positions@.len() - 1 && i
                        < frame as int / fpe)
                    &&& first == i * fpe
                    &&& first <= frame
                },
            },
    {
        let len: usize = self.positions.len();
        if len == 0 {
            return None;
        }
        let product: u64 = self.frames_per_entry();
        let fpe: u64 = if product < 1 { 1 } else { product };
        let q: u64 = frame / fpe;
        let i: usize = if q < len as u64 { q as usize } else { len - 1 };
        proof {
            vstd::arithmetic::div_mod::lemma_fundamental_div_mod(frame as int, fpe as int);
            assert(i * fpe <= frame) by (nonlinear_arith)
                requires
                    i <= q,
                    frame == fpe * q + frame as int % fpe as int,
                    frame as int % fpe as int >= 0,
                    fpe > 0,
            ;
        }
        Some((i, i as u64 * fpe))
    }

    /// Builds the index of a stream from its own seek table, if it has one before its
    /// audio.
    pub fn from_seek_packets(input: &[u8]) -> (r: Result<Option<Self>>)
        ensures
            match (stored_index(input@, SEEK_TABLE_CAP as nat), r) {
                (Ok(None), Ok(None)) => true,
                (Ok(Some(m)), Ok(Some(i))) => i@ == m,
                (Err(e), Err(f)) => e == f,
                _ => false,
            },
    {
        Self::from_seek_packets_with_ceiling(input, SEEK_TABLE_CAP)
    }

    /// Builds the index of a stream from its own seek table, if it has one before its
    /// audio. Entries are left out until no more than `ceiling` are needed.
    pub fn from_seek_packets_with_ceiling(input: &[u8], ceiling: u64) -> (r: Result<Option<Self>>)
        ensures
            match (stored_index(input@, ceiling as nat), r) {
                (Ok(None), Ok(None)) => true,
                (Ok(Some(m)), Ok(Some(i))) => i@ == m,
                (Err(e), Err(f)) => e == f,
                _ => false,
            },
    {
        let start: usize = parse_sv8_magic(input)?;
        let prefix: PrefixFields = read_prefix(input)?;
        let (at, offset): (usize, u64) = match prefix.offset {
            None => {
                return Ok(None);
            },
            Some(o) => o,
        };
        let room: usize = input.len() - start - at;
        if offset >= room as u64 {
            return Err(Error::SeekTableCorrupt("SO offset outside the buffer"));
        }
        let st: usize = start + at + offset as usize;
        let mut stream: PacketStream<'_> = PacketStream::starting_at(input, st);
        assert(input@.skip(st as int) =~= input@.skip(4).skip(at + offset));
        let packet: Packet<'_> = match stream.next_packet() {
            Ok(Some(p)) => p,
            Ok(None) => {
                return Err(Error::SeekTableCorrupt("SO offset points at no packet"));
            },
            Err(e) => {
                return Err(e);
            },
        };
        if packet.key != PacketKey::SeekTable {
            return Err(Error::SeekTableCorrupt("SO offset points at a non-ST packet"));
        }
        let table: SeekTableFields = match SeekTableFields::parse(packet.payload) {
            Ok(t) => t,
            Err(Error::SeekTableCorrupt(text)) => {
                return Err(Error::SeekTableCorrupt(text));
            },
            Err(_) => {
                return Err(Error::SeekTableCorrupt("seek table does not parse"));
            },
        };
        Ok(Some(thin_table(&table, &prefix.header, ceiling)))
    }

    /// Builds the index of a stream by walking over all its packets.
    pub fn from_packet_walk(input: &[u8]) -> (r: Result<Self>)
        ensures
            match (walked_index(input@), r) {
                (Ok(m), Ok(i)) => i@ == m,
                (Err(e), Err(f)) => e == f,
                _ => false,
            },
    {
        let start: usize = parse_sv8_magic(input)?;
        let mut stream: PacketStream<'_> = PacketStream::starting_at(input, start);
        let ghost whole = walked_index(input@);
        let total: usize = input.len();
        let mut frames_per_packet: u64 = 0;
        let mut positions: Vec<u64> = Vec::new();
        let mut at: usize = start;
        loop
            invariant_except_break
                whole == positions_of(stream@, at as nat, positions@, frames_per_packet as nat),
            invariant
                whole == walked_index(input@),
                total == input@.len(),
                at + stream@.len() == total,
            ensures
                whole == Ok::<SeekIndex, Error>(
                    SeekIndex {
                        positions: positions@,
                        packets_per_entry: 1,
                        frames_per_packet: frames_per_packet as nat,
                    },
                ),
            decreases stream@.len(),
        {
            let packet: Packet<'_> = match stream.next_packet() {
                Ok(Some(p)) => p,
                Ok(None) => {
                    break ;
                },
                Err(e) => {
                    return Err(e);
                },
            };
            match packet.key {
                PacketKey::StreamHeader => {
                    let fields: StreamHeaderFields = StreamHeaderFields::parse(packet.payload)?;
                    frames_per_packet = fields.frames_per_audio_packet();
                },
                PacketKey::AudioPacket => {
                    positions.push(at as u64);
                },
                PacketKey::StreamEnd => {
                    at = total - stream.remaining();
                    break ;
                },
                _ => {},
            }
            at = total - stream.remaining();
        }
        Ok(Sv8SeekIndex { positions, packets_per_entry: 1, frames_per_packet })
    }
}

// ---------------------------------------------------------------------------
// Decoding from an entry on
// ---------------------------------------------------------------------------

/// What decoding from an entry on yields.
#[derive(Debug, Clone, PartialEq, Eq)]
pub struct Sv8SeekDecode {
    /// The number of the first decoded frame in the stream.
    pub first_frame: u64,
    /// The frames, in stream order.
    pub frames: Vec<Sv8StereoFrameDecode>,
}

/// The stream header before the audio of `data`.
pub open spec fn first_header(data: Seq<u8>) -> Result<Option<StreamHeaderFields>>
    decreases data.len(),
{
    proof {
        framing::lemma_packet_extent(data);
    }
    match framing::packet_at(data) {
        Err(e) => Err(e),
        Ok(None) => Ok(None),
        Ok(Some(p)) => match p.key {
            PacketKey::StreamHeader => match stream_headers::header_of(p.payload) {
                Err(e) => Err(e),
                Ok(h) => Ok(Some(h)),
            },
            PacketKey::AudioPacket => Ok(None),
            PacketKey::StreamEnd => Ok(None),
            _ => first_header(data.skip(p.extent() as int)),
        },
    }
}

/// The frames of the audio packets of `data`, behind `done`, while `remaining` frames are
/// asked for. The first packet has to be an audio packet.
pub open spec fn frames_from(
    tables: Sv8TableSet,
    data: Seq<u8>,
    per_packet: nat,
    first: bool,
    memory: StreamMemory,
    remaining: nat,
    done: Seq<StereoFrame>,
) -> Result<Seq<StereoFrame>>
    decreases data.len(),
{
    proof {
        framing::lemma_packet_extent(data);
    }
    match framing::packet_at(data) {
        Err(e) => Err(e),
        Ok(None) => Ok(done),
        Ok(Some(p)) => {
            let rest = data.skip(p.extent() as int);
            match p.key {
                PacketKey::AudioPacket => {
                    let n = if remaining < per_packet {
                        remaining
                    } else {
                        per_packet
                    };
                    if n == 0 {
                        frames_from(tables, rest, per_packet, false, memory, remaining, done)
                    } else {
                        let run = memory.reading(tables, p.payload, n);
                        match run.result {
                            Err(e) => Err(e),
                            Ok(_) => frames_from(
                                tables,
                                rest,
                                per_packet,
                                false,
                                memory.after(run),
                                (remaining - n) as nat,
                                done + run.frames,
                            ),
                        }
                    }
                },
                PacketKey::StreamEnd => if first {
                    Err(Error::SeekTableCorrupt("seek entry is not an AP packet"))
                } else {
                    Ok(done)
                },
                _ => if first {
                    Err(Error::SeekTableCorrupt("seek entry is not an AP packet"))
                } else {
                    frames_from(tables, rest, per_packet, false, memory, remaining, done)
                },
            }
        },
    }
}

/// Outcome of decoding a stream from an entry of its index on.
pub open spec fn decode_from(
    tables: Sv8TableSet,
    input: Seq<u8>,
    index: SeekIndex,
    entry: nat,
) -> Result<(nat, Seq<StereoFrame>)> {
    if !is_stream(input) {
        Err(Error::InvalidMagic)
    } else if entry >= index.positions.len() {
        Err(Error::SeekTableCorrupt("seek entry out of range"))
    } else {
        let first = entry * (index.packets_per_entry * index.frames_per_packet);
        match first_header(input.skip(4)) {
            Err(e) => Err(e),
            Ok(None) => Err(Error::NotImplemented),
            Ok(Some(h)) => match sv8_stream::header_fault(h) {
                Some(e) => Err(e),
                None => {
                    let start = index.positions[entry as int];
                    let total = crate::sv8_decode::frames_for(h.sample_count as nat);
                    if start >= input.len() {
                        Err(Error::SeekTableCorrupt("seek entry outside the buffer"))
                    } else {
                        match frames_from(
                            tables,
                            input.skip(start as int),
                            h.packet_frames(),
                            true,
                            StreamMemory::fresh(h),
                            if total > first {
                                (total - first) as nat
                            } else {
                                0
                            },
                            Seq::empty(),
                        ) {
                            Err(e) => Err(e),
                            Ok(frames) => Ok((first, frames)),
                        }
                    }
                },
            },
        }
    }
}

/// Reads the stream header before the audio.
pub fn read_first_header(input: &[u8]) -> (r: Result<Option<StreamHeaderFields>>)
    requires
        input@.len() >= 4,
    ensures
        r == first_header(input@.skip(4)),
        r matches Ok(Some(h)) ==> h.wf(),
{
    let mut stream: PacketStream<'_> = PacketStream::starting_at(input, 4);
    let ghost whole = first_header(input@.skip(4));
    loop
        invariant
            whole == first_header(input@.skip(4)),
            whole == first_header(stream@),
        decreases stream@.len(),
    {
        let packet: Packet<'_> = match stream.next_packet() {
            Ok(Some(p)) => p,
            Ok(None) => {
                return Ok(None);
            },
            Err(e) => {
                return Err(e);
            },
        };
        match packet.key {
            PacketKey::StreamHeader => {
                let fields: StreamHeaderFields = StreamHeaderFields::parse(packet.payload)?;
                return Ok(Some(fields));
            },
            PacketKey::AudioPacket => {
                return Ok(None);
            },
            PacketKey::StreamEnd => {
                return Ok(None);
            },
            _ => {},
        }
    }
}

/// Decodes a stream from an entry of its index on, to the last frame that its sample count
/// asks for. An entry that does not lead to an audio packet is refused.
pub fn decode_sv8_from_entry(
    tables: &Sv8TableSet,
    input: &[u8],
    index: &Sv8SeekIndex,
    entry: usize,
) -> (r: Result<Sv8SeekDecode>)
    requires
        entry < index.positions@.len() ==> entry * (index.packets_per_entry
            * index.frames_per_packet) <= u64::MAX,
        entry < index.positions@.len() ==> index.packets_per_entry * index.frames_per_packet
            <= u64::MAX,
    ensures
        match (decode_from(*tables, input@, index@, entry as nat), r) {
            (Ok((first, frames)), Ok(d)) => d.first_frame == first && sv8_stream::models(d.frames@)
                == frames,
            (Err(e), Err(f)) => e == f,
            _ => false,
        },
{
    let magic: usize = parse_sv8_magic(input)?;
    if entry >= index.positions.len() {
        return Err(Error::SeekTableCorrupt("seek entry out of range"));
    }
    let at: u64 = index.positions[entry];
    let first_frame: u64 = entry as u64 * index.frames_per_entry();
    let header: StreamHeaderFields = match read_first_header(input)? {
        Some(h) => h,
        None => {
            return Err(Error::NotImplemented);
        },
    };
    let mut decoder: Sv8StreamDecoder = Sv8StreamDecoder::from_header(&header)?;
    let samples: u64 = header.sample_count;
    let total: u64 = samples / 1152 + if samples % 1152 > 0 { 1 } else { 0 };
    let mut remaining: u64 = if total > first_frame { total - first_frame } else { 0 };
    let per_packet: u64 = header.frames_per_audio_packet();
    if at >= input.len() as u64 {
        return Err(Error::SeekTableCorrupt("seek entry outside the buffer"));
    }
    let mut stream: PacketStream<'_> = PacketStream::starting_at(input, at as usize);
    let mut first: bool = true;
    let mut frames: Vec<Sv8StereoFrameDecode> = Vec::new();
    assert(sv8_stream::models(frames@) =~= Seq::<StereoFrame>::empty());
    let ghost whole = frames_from(
        *tables,
        stream@,
        per_packet as nat,
        true,
        decoder@,
        remaining as nat,
        Seq::empty(),
    );
    let ghost outcome = decode_from(*tables, input@, index@, entry as nat);
    loop
        invariant_except_break
            whole == frames_from(
                *tables,
                stream@,
                per_packet as nat,
                first,
                decoder@,
                remaining as nat,
                sv8_stream::models(frames@),
            ),
        invariant
            outcome == decode_from(*tables, input@, index@, entry as nat),
            outcome == match whole {
                Err(e) => Err::<(nat, Seq<StereoFrame>), Error>(e),
                Ok(frames) => Ok((first_frame as nat, frames)),
            },
            decoder@.frames_decoded + remaining <= 0x4000_0000_0000_0000,
        ensures
            whole == Ok::<Seq<StereoFrame>, Error>(sv8_stream::models(frames@)),
        decreases stream@.len(),
    {
        let packet: Packet<'_> = match stream.next_packet() {
            Ok(Some(p)) => p,
            Ok(None) => {
                break ;
            },
            Err(e) => {
                return Err(e);
            },
        };
        match packet.key {
            PacketKey::AudioPacket => {
                first = false;
                let n: u64 = if remaining < per_packet { remaining } else { per_packet };
                if n > 0 {
                    let mut more: Vec<Sv8StereoFrameDecode> = match decoder.decode_audio_packet(
                        tables,
                        packet.payload,
                        n,
                    ) {
                        Ok(v) => v,
                        Err(e) => {
                            return Err(e);
                        },
                    };
                    let ghost before = frames@;
                    let ghost added = more@;
                    frames.append(&mut more);
                    assert(sv8_stream::models(frames@) =~= sv8_stream::models(before)
                        + sv8_stream::models(added));
                    remaining = remaining - n;
                }
            },
            PacketKey::StreamEnd => {
                if first {
                    return Err(Error::SeekTableCorrupt("seek entry is not an AP packet"));
                }
                break ;
            },
            _ => {
                if first {
                    return Err(Error::SeekTableCorrupt("seek entry is not an AP packet"));
                }
            },
        }
    }
    Ok(Sv8SeekDecode { first_frame, frames })
}

} // verus!
