//! The byte layer of a stream: the magic, variable-length integers and packets.
//!
//! A variable-length integer is a string of bytes that carry seven bits each, the
//! highest first; all but the last have their high bit set. A packet is a two-byte key,
//! its size as such an integer, and a payload; the size counts all three.

use crate::error::{Error, Result};
use vstd::arithmetic::power::*;
use vstd::prelude::*;

verus! {

/// What a stream starts with.
pub const SV8_MAGIC: [u8; 4] = [0x4d, 0x50, 0x43, 0x4b];

/// Most bytes of a size or a header field.
pub const VARINT_MAX_BYTES: usize = 9;

// ---------------------------------------------------------------------------
// Variable-length integers
// ---------------------------------------------------------------------------

/// The bytes of `v` that another byte follows.
pub open spec fn lead(v: nat) -> Seq<u8>
    decreases v,
{
    if v == 0 {
        Seq::empty()
    } else {
        lead(v / 128).push((128 + v % 128) as u8)
    }
}

/// The bytes of the integer `v`.
pub open spec fn varint(v: nat) -> Seq<u8> {
    lead(v / 128).push((v % 128) as u8)
}

/// Outcome of reading an integer of at most `limit` bytes, with the bytes before `i` read
/// to `acc`: the integer, and where it ends.
pub open spec fn read_varint(data: Seq<u8>, i: int, acc: nat, limit: int) -> Result<(u64, usize)>
    decreases limit - i,
{
    if i >= limit {
        Err(Error::VarintTooLong)
    } else if i >= data.len() {
        Err(Error::UnexpectedEof)
    } else if data[i] < 128 {
        Ok(((acc * 128 + data[i]) as u64, (i + 1) as usize))
    } else {
        read_varint(data, i + 1, acc * 128 + (data[i] - 128) as nat, limit)
    }
}

/// Outcome of parsing an integer at the start of `data`.
pub open spec fn varint_at(data: Seq<u8>) -> Result<(u64, usize)> {
    read_varint(data, 0, 0, 9)
}

/// Reads an integer at the start of `data`: the integer, and how many bytes it takes. One
/// of more than nine bytes is refused.
pub fn parse_varint(data: &[u8]) -> (r: Result<(u64, usize)>)
    ensures
        r == varint_at(data@),
        r is Ok ==> r->Ok_0.1 <= data@.len() && 1 <= r->Ok_0.1 <= 9 && r->Ok_0.0
            < 0x8000_0000_0000_0000,
{
    let mut value: u64 = 0;
    let mut i: usize = 0;
    let ghost mut bound: nat = 1;
    assert(pow(128, 0) == 1) by {
        reveal(pow);
    }
    while i < VARINT_MAX_BYTES
        invariant
            i <= 9,
            i <= data@.len(),
            value < bound,
            bound == pow(128, i as nat),
            varint_at(data@) == read_varint(data@, i as int, value as nat, 9),
        decreases 9 - i,
    {
        if i >= data.len() {
            return Err(Error::UnexpectedEof);
        }
        let byte: u8 = data[i];
        proof {
            lemma_groups(i as nat);
            assert(pow(128, (i + 1) as nat) == 128 * pow(128, i as nat)) by {
                reveal(pow);
            }
        }
        if byte < 128 {
            return Ok((value * 128 + byte as u64, i + 1));
        }
        value = value * 128 + (byte - 128) as u64;
        i = i + 1;
        proof {
            bound = 128 * bound;
        }
    }
    Err(Error::VarintTooLong)
}

/// Eight groups and one more stay below 2^63.
proof fn lemma_groups(i: nat)
    requires
        i <= 8,
    ensures
        128 * pow(128, i) <= 0x8000_0000_0000_0000,
    decreases 8 - i,
{
    reveal(pow);
    if i < 8 {
        lemma_groups(i + 1);
        assert(pow(128, i + 1) == 128 * pow(128, i));
        lemma_pow_positive(128, i);
    } else {
        reveal_with_fuel(pow, 9);
    }
}

/// Integers of `n` groups need at most `n` bytes, and larger ones need more.
pub proof fn lemma_lead_len(v: nat, n: nat)
    ensures
        v < pow(128, n) ==> lead(v).len() <= n,
        v >= pow(128, n) ==> lead(v).len() > n,
    decreases n,
{
    reveal(pow);
    if n == 0 {
    } else {
        let m = (n - 1) as nat;
        assert(pow(128, n) == 128 * pow(128, m));
        lemma_pow_positive(128, m);
        if v > 0 {
            lemma_lead_len(v / 128, m);
        }
    }
}

/// Reading goes through the leading bytes of an integer.
proof fn lemma_lead_reads(data: Seq<u8>, v: nat, from: int, acc: nat, limit: int)
    requires
        0 <= from,
        from + lead(v).len() <= limit,
        from + lead(v).len() <= data.len(),
        data.subrange(from, from + lead(v).len()) == lead(v),
    ensures
        read_varint(data, from, acc, limit) == read_varint(
            data,
            from + lead(v).len(),
            acc * pow(128, lead(v).len()) as nat + v,
            limit,
        ),
    decreases v,
{
    reveal(pow);
    if v > 0 {
        let high = v / 128;
        let k = lead(high).len();
        let part = lead(v);
        assert(part.len() == k + 1);
        assert(data.subrange(from, from + k) =~= part.take(k as int)) by {
            assert(part =~= data.subrange(from, from + part.len()));
        }
        assert(part.take(k as int) =~= lead(high));
        lemma_lead_reads(data, high, from, acc, limit);
        let last = data[from + k];
        assert(last == part[k as int]) by {
            assert(data.subrange(from, from + part.len())[k as int] == last);
        }
        assert(last == 128 + v % 128);
        let so_far = acc * pow(128, k) as nat + high;
        lemma_pow_positive(128, k);
        assert(so_far * 128 + (last - 128) == acc * pow(128, k + 1) + v) by {
            assert(pow(128, k + 1) == 128 * pow(128, k));
            assert((acc * pow(128, k) + high) * 128 == acc * (128 * pow(128, k)) + high * 128)
                by (nonlinear_arith);
        }
        assert(read_varint(data, from + k, so_far, limit) == read_varint(
            data,
            from + k + 1,
            (so_far * 128 + (last - 128)) as nat,
            limit,
        ));
    } else {
        assert(acc * pow(128, 0) == acc) by {
            assert(pow(128, 0) == 1);
        }
    }
}

/// A written integer parses back, whatever follows it.
pub proof fn law_varint_reads_back(v: nat, rest: Seq<u8>)
    requires
        v < 0x8000_0000_0000_0000,
    ensures
        varint_at(varint(v) + rest) == Ok::<(u64, usize), Error>(
            (v as u64, varint(v).len() as usize),
        ),
        1 <= varint(v).len() <= 9,
{
    let data = varint(v) + rest;
    let high = v / 128;
    let k = lead(high).len();
    reveal_with_fuel(pow, 9);
    lemma_lead_len(high, 8);
    assert(data.subrange(0, k as int) =~= lead(high));
    lemma_lead_reads(data, high, 0, 0, 9);
    assert(data[k as int] == v % 128);
}

// ---------------------------------------------------------------------------
// Packets
// ---------------------------------------------------------------------------

/// What a packet holds.
#[derive(Debug, Clone, Copy, PartialEq, Eq, Structural)]
pub enum PacketKey {
    /// `SH`
    StreamHeader,
    /// `RG`
    ReplayGain,
    /// `EI`
    EncoderInfo,
    /// `SO`
    SeekTableOffset,
    /// `AP`
    AudioPacket,
    /// `ST`
    SeekTable,
    /// `SE`
    StreamEnd,
    /// Any other key.
    Unknown(u8, u8),
}

impl PacketKey {
    /// What the two bytes of a key stand for.
    pub open spec fn of(a: u8, b: u8) -> PacketKey {
        if a == 0x53 && b == 0x48 {
            PacketKey::StreamHeader
        } else if a == 0x52 && b == 0x47 {
            PacketKey::ReplayGain
        } else if a == 0x45 && b == 0x49 {
            PacketKey::EncoderInfo
        } else if a == 0x53 && b == 0x4f {
            PacketKey::SeekTableOffset
        } else if a == 0x41 && b == 0x50 {
            PacketKey::AudioPacket
        } else if a == 0x53 && b == 0x54 {
            PacketKey::SeekTable
        } else if a == 0x53 && b == 0x45 {
            PacketKey::StreamEnd
        } else {
            PacketKey::Unknown(a, b)
        }
    }

    /// What the two bytes of a key stand for.
    pub fn from_bytes(a: u8, b: u8) -> (k: PacketKey)
        ensures
            k == PacketKey::of(a, b),
    {
        if a == 0x53 && b == 0x48 {
            PacketKey::StreamHeader
        } else if a == 0x52 && b == 0x47 {
            PacketKey::ReplayGain
        } else if a == 0x45 && b == 0x49 {
            PacketKey::EncoderInfo
        } else if a == 0x53 && b == 0x4f {
            PacketKey::SeekTableOffset
        } else if a == 0x41 && b == 0x50 {
            PacketKey::AudioPacket
        } else if a == 0x53 && b == 0x54 {
            PacketKey::SeekTable
        } else if a == 0x53 && b == 0x45 {
            PacketKey::StreamEnd
        } else {
            PacketKey::Unknown(a, b)
        }
    }
}

/// A packet in a buffer.
#[derive(Debug, Clone, Copy, PartialEq, Eq)]
pub struct Packet<'a> {
    /// What the packet holds.
    pub key: PacketKey,
    /// Bytes before the payload.
    pub header_len: usize,
    /// The payload.
    pub payload: &'a [u8],
}

/// A packet, as the contracts speak of it.
#[verifier::ext_equal]
pub struct PacketModel {
    pub key: PacketKey,
    pub header_len: nat,
    pub payload: Seq<u8>,
}

impl PacketModel {
    /// The bytes that the packet takes.
    pub open spec fn extent(self) -> nat {
        self.header_len + self.payload.len()
    }
}

impl<'a> View for Packet<'a> {
    type V = PacketModel;

    open spec fn view(&self) -> PacketModel {
        PacketModel {
            key: self.key,
            header_len: self.header_len as nat,
            payload: self.payload@,
        }
    }
}

/// Outcome of reading the packet at the start of `data`; there is none in an empty one. A
/// size that does not even count the header is refused.
#[verifier::opaque]
pub open spec fn packet_at(data: Seq<u8>) -> Result<Option<PacketModel>> {
    if data.len() == 0 {
        Ok(None)
    } else if data.len() < 2 {
        Err(Error::UnexpectedEof)
    } else {
        match varint_at(data.skip(2)) {
            Err(e) => Err(e),
            Ok((size, n)) => if size < n + 2 {
                Err(Error::HeaderFieldOutOfRange("packet size"))
            } else if size > data.len() {
                Err(Error::UnexpectedEof)
            } else {
                Ok(
                    Some(
                        PacketModel {
                            key: PacketKey::of(data[0], data[1]),
                            header_len: (n + 2) as nat,
                            payload: data.subrange(n + 2, size as int),
                        },
                    ),
                )
            },
        }
    }
}

/// A packet takes some of the bytes that it was read from.
pub proof fn lemma_packet_extent(data: Seq<u8>)
    ensures
        packet_at(data) matches Ok(Some(p)) ==> 0 < p.extent() <= data.len(),
        packet_at(data) == Ok::<Option<PacketModel>, Error>(None) ==> data.len() == 0,
{
    reveal(packet_at);
}

/// A walk over the packets of a buffer.
pub struct PacketStream<'a> {
    data: &'a [u8],
    pos: usize,
}

impl<'a> View for PacketStream<'a> {
    type V = Seq<u8>;

    /// The bytes that the walk has not passed.
    closed spec fn view(&self) -> Seq<u8> {
        self.data@.skip(self.pos as int)
    }
}

impl<'a> PacketStream<'a> {
    #[verifier::type_invariant]
    spec fn inv(self) -> bool {
        self.pos <= self.data@.len()
    }

    /// A walk over all of `data`.
    pub fn new(data: &'a [u8]) -> (s: Self)
        ensures
            s@ == data@,
    {
        let s: PacketStream<'a> = PacketStream { data, pos: 0 };
        assert(s@ =~= data@);
        s
    }

    /// A walk over `data` from the byte `start` on.
    pub fn starting_at(data: &'a [u8], start: usize) -> (s: Self)
        requires
            start <= data@.len(),
        ensures
            s@ == data@.skip(start as int),
    {
        PacketStream { data, pos: start }
    }

    /// How many bytes the walk has not passed.
    pub fn remaining(&self) -> (n: usize)
        ensures
            n == self@.len(),
    {
        proof {
            use_type_invariant(self);
        }
        self.data.len() - self.pos
    }

    /// The next packet, if there is one. After a failure the walk stands where it stood.
    pub fn next_packet(&mut self) -> (r: Result<Option<Packet<'a>>>)
        ensures
            match (packet_at(old(self)@), r) {
                (Ok(None), Ok(None)) => final(self)@ == old(self)@,
                (Ok(Some(m)), Ok(Some(p))) => p@ == m && final(self)@ == old(self)@.skip(
                    m.extent() as int,
                ) && 3 <= m.extent() <= old(self)@.len(),
                (Err(e), Err(f)) => e == f && final(self)@ == old(self)@,
                _ => false,
            },
    {
        proof {
            use_type_invariant(&*self);
            reveal(packet_at);
        }
        let ghost rest = self@;
        let left: usize = self.data.len() - self.pos;
        if left == 0 {
            return Ok(None);
        }
        if left < 2 {
            return Err(Error::UnexpectedEof);
        }
        let a: u8 = self.data[self.pos];
        let b: u8 = self.data[self.pos + 1];
        let field: &'a [u8] = vstd::slice::slice_subrange(
            self.data,
            self.pos + 2,
            self.data.len(),
        );
        assert(field@ =~= rest.skip(2));
        let (size, n): (u64, usize) = match parse_varint(field) {
            Ok(v) => v,
            Err(e) => {
                return Err(e);
            },
        };
        if size < n as u64 + 2 {
            return Err(Error::HeaderFieldOutOfRange("packet size"));
        }
        if size > left as u64 {
            return Err(Error::UnexpectedEof);
        }
        let end: usize = self.pos + size as usize;
        let payload: &'a [u8] = vstd::slice::slice_subrange(self.data, self.pos + n + 2, end);
        assert(payload@ =~= rest.subrange(n + 2, size as int));
        self.pos = end;
        assert(self@ =~= rest.skip(size as int));
        Ok(Some(Packet { key: PacketKey::from_bytes(a, b), header_len: n + 2, payload }))
    }
}

/// Checks that a stream starts with the magic, and returns where its packets start.
pub fn parse_sv8_magic(input: &[u8]) -> (r: Result<usize>)
    ensures
        match r {
            Ok(n) => n == 4 && input@.len() >= 4 && input@.take(4) == SV8_MAGIC@,
            Err(e) => e == Error::InvalidMagic && !(input@.len() >= 4 && input@.take(4)
                == SV8_MAGIC@),
        },
{
    let magic: [u8; 4] = SV8_MAGIC;
    if input.len() < 4 || input[0] != magic[0] || input[1] != magic[1] || input[2] != magic[2]
        || input[3] != magic[3] {
        proof {
            if input@.len() >= 4 && input@.take(4) == SV8_MAGIC@ {
                assert(input@.take(4)[0] == SV8_MAGIC@[0]);
                assert(input@.take(4)[1] == SV8_MAGIC@[1]);
                assert(input@.take(4)[2] == SV8_MAGIC@[2]);
                assert(input@.take(4)[3] == SV8_MAGIC@[3]);
            }
        }
        return Err(Error::InvalidMagic);
    }
    assert(input@.take(4) =~= SV8_MAGIC@);
    Ok(4)
}

} // verus!
