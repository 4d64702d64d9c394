//! The seek layer: where the audio packets of a stream start.
//!
//! A seek-offset packet before the audio says how far behind it the seek table stands.
//! The table lists where every so many audio packets start: the first two positions
//! outright, each later one as the difference to where the two before it lead.

use crate::bit_reader;
use crate::bit_reader::Sv7BitReader;
use crate::bit_writer;
use crate::bit_writer::Sv7BitWriter;
use crate::bits;
use crate::coding;
use crate::coding::{Emit, Parsed};
use crate::error::{Error, Result};
use crate::framing;
use crate::framing::parse_varint;
use crate::packets::write_varint;
use vstd::arithmetic::power::*;
use vstd::arithmetic::power2::*;
use vstd::prelude::*;

verus! {

/// Bytes of the payload of a seek-offset packet.
pub const SO_PAYLOAD_LEN: usize = 5;

/// Raw bits in the code of a position.
pub const SEEK_GOLOMB_K: u8 = 12;

/// Most positions that an index keeps, unless told otherwise.
pub const SEEK_TABLE_CAP: u64 = 65536;

/// Positions are below this.
pub const SEEK_ENTRY_BOUND: u64 = 0x100_0000_0000;

/// Most clear bits at the start of the code of a position: enough for every second
/// difference of rising positions of 35 bits.
pub const SEEK_RUN_BOUND: u64 = 0x100_0000;

// ---------------------------------------------------------------------------
// The seek offset
// ---------------------------------------------------------------------------

/// The field of a seek-offset packet.
#[derive(Debug, Clone, Copy, PartialEq, Eq)]
pub struct SeekOffsetFields {
    /// Bytes from the start of the seek-offset packet to that of the seek table.
    pub st_offset: u64,
}

/// `s` filled up with zero bytes to `n` bytes.
pub open spec fn filled(s: Seq<u8>, n: nat) -> Seq<u8> {
    s + Seq::new((n - s.len()) as nat, |i: int| 0u8)
}

impl SeekOffsetFields {
    /// Reads the payload of a seek-offset packet; what follows the offset is ignored.
    pub fn parse(payload: &[u8]) -> (r: Result<Self>)
        ensures
            match (framing::varint_at(payload@), r) {
                (Ok((v, n)), Ok(f)) => f.st_offset == v,
                (Err(e), Err(f)) => e == f,
                _ => false,
            },
    {
        let (st_offset, _len): (u64, usize) = parse_varint(payload)?;
        Ok(SeekOffsetFields { st_offset })
    }

    /// Composes the payload of a seek-offset packet. An offset of more than 35 bits is
    /// refused.
    pub fn payload(&self) -> (r: Result<[u8; SO_PAYLOAD_LEN]>)
        ensures
            match r {
                Ok(p) => self.st_offset < 0x8_0000_0000 && p@ == filled(
                    framing::varint(self.st_offset as nat),
                    5,
                ),
                Err(e) => self.st_offset >= 0x8_0000_0000 && e == Error::HeaderFieldOutOfRange(
                    "SO st_offset",
                ),
            },
    {
        if self.st_offset >= 0x8_0000_0000 {
            return Err(Error::HeaderFieldOutOfRange("SO st_offset"));
        }
        let mut code: Vec<u8> = Vec::new();
        write_varint(&mut code, self.st_offset);
        proof {
            lemma_offset_len(self.st_offset);
        }
        let mut out: [u8; SO_PAYLOAD_LEN] = [0;5];
        let mut i: usize = 0;
        while i < code.len()
            invariant
                i <= code@.len() <= 5,
                forall|j: int| 0 <= j < i ==> out@[j] == code@[j],
                forall|j: int| i <= j < 5 ==> out@[j] == 0,
            decreases code@.len() - i,
        {
            out[i] = code[i];
            i = i + 1;
        }
        assert(out@ =~= filled(code@, 5));
        Ok(out)
    }
}

/// An offset of 35 bits takes at most five bytes.
pub proof fn lemma_offset_len(v: u64)
    requires
        v < 0x8_0000_0000,
    ensures
        framing::varint(v as nat).len() <= 5,
{
    reveal_with_fuel(pow, 5);
    framing::lemma_lead_len(v as nat / 128, 4);
}

/// A composed seek offset parses back.
pub proof fn law_offset_reads_back(v: u64)
    requires
        v < 0x8_0000_0000,
    ensures
        framing::varint_at(filled(framing::varint(v as nat), 5)) is Ok,
        framing::varint_at(filled(framing::varint(v as nat), 5))->Ok_0.0 == v,
{
    let code = framing::varint(v as nat);
    framing::law_varint_reads_back(
        v as nat,
        Seq::new((5 - code.len()) as nat, |i: int| 0u8),
    );
}

// ---------------------------------------------------------------------------
// Integers at any bit
// ---------------------------------------------------------------------------

/// Outcome of reading a variable-length integer at any bit, with `k` bytes read to `acc`.
/// Bits past the 64th are dropped.
pub open spec fn read_bit_varint_from(bits: Seq<bool>, pos: nat, k: nat, acc: nat) -> Parsed<u64>
    decreases 10 - k,
{
    if k >= 10 {
        (Err(Error::VarintTooLong), pos)
    } else {
        match bit_reader::read_field(bits, pos, 8) {
            (Err(e), p) => (Err(e), p),
            (Ok(b), p) => {
                let v = (acc * 128 + b as nat % 128) % 0x1_0000_0000_0000_0000;
                if b < 128 {
                    (Ok(v as u64), p)
                } else {
                    read_bit_varint_from(bits, p, k + 1, v)
                }
            },
        }
    }
}

/// Outcome of reading a variable-length integer at any bit.
pub open spec fn parse_bit_varint(bits: Seq<bool>, pos: nat) -> Parsed<u64> {
    read_bit_varint_from(bits, pos, 0, 0)
}

/// Reads a variable-length integer of at most ten bytes, at any bit.
pub fn read_bit_varint(reader: &mut Sv7BitReader<'_>) -> (r: Result<u64>)
    ensures
        final(reader)@.bits == old(reader)@.bits,
        (r, final(reader)@.pos) == parse_bit_varint(old(reader)@.bits, old(reader)@.pos),
{
    let ghost bits = reader@.bits;
    let ghost whole = parse_bit_varint(bits, reader@.pos);
    let mut value: u64 = 0;
    let mut k: u32 = 0;
    while k < 10
        invariant
            k <= 10,
            reader@.bits == bits,
            bits == old(reader)@.bits,
            whole == parse_bit_varint(old(reader)@.bits, old(reader)@.pos),
            whole == read_bit_varint_from(bits, reader@.pos, k as nat, value as nat),
        decreases 10 - k,
    {
        let ghost here = reader@.pos;
        let byte: u32 = reader.read_bits(8)?;
        proof {
            bits::lemma_value_bound(bits.subrange(here as int, here + 8int));
            lemma2_to64();
        }
        let wide: u128 = value as u128 * 128 + (byte % 128) as u128;
        value = (wide % 0x1_0000_0000_0000_0000) as u64;
        if byte < 128 {
            return Ok(value);
        }
        k = k + 1;
    }
    Err(Error::VarintTooLong)
}

/// Writes a variable-length integer at any bit.
pub fn write_bit_varint(w: &mut Sv7BitWriter, value: u64)
    ensures
        final(w)@ == old(w)@ + bits::of_bytes(framing::varint(value as nat)),
{
    let ghost start = w@;
    let mut code: Vec<u8> = Vec::new();
    write_varint(&mut code, value);
    assert(code@ =~= framing::varint(value as nat));
    let mut i: usize = 0;
    assert(code@.take(0) =~= Seq::<u8>::empty());
    assert(bits::of_bytes(code@.take(0)) =~= Seq::<bool>::empty());
    assert(w@ =~= start + Seq::<bool>::empty());
    while i < code.len()
        invariant
            i <= code@.len(),
            w@ == start + bits::of_bytes(code@.take(i as int)),
        decreases code@.len() - i,
    {
        w.write_bits(code[i] as u32, 8);
        proof {
            bits::lemma_of_bytes_push(code@.take(i as int), code@[i as int]);
            assert(code@.take(i + 1) =~= code@.take(i as int).push(code@[i as int]));
            assert(w@ =~= start + bits::of_bytes(code@.take(i + 1)));
        }
        i = i + 1;
    }
    assert(code@.take(i as int) =~= code@);
}

/// Reading goes through the leading bytes of an integer.
proof fn lemma_bit_lead(bits: Seq<bool>, pos: nat, v: nat)
    requires
        v < 0x1_0000_0000_0000_0000,
        framing::lead(v).len() <= 10,
        bits::at(bits, pos, bits::of_bytes(framing::lead(v))),
    ensures
        read_bit_varint_from(bits, pos, 0, 0) == read_bit_varint_from(
            bits,
            pos + 8 * framing::lead(v).len(),
            framing::lead(v).len(),
            v,
        ),
    decreases v,
{
    if v > 0 {
        let high = v / 128;
        let b = (128 + v % 128) as u8;
        bits::lemma_of_bytes_push(framing::lead(high), b);
        bits::lemma_at_concat(
            bits,
            pos,
            bits::of_bytes(framing::lead(high)),
            bits::field(b as nat, 8),
        );
        lemma_bit_lead(bits, pos, high);
        lemma2_to64();
        bits::lemma_field_len(b as nat, 8);
        bits::lemma_field_at(bits, pos + 8 * framing::lead(high).len(), b as nat, 8);
        assert(high * 128 + b as nat % 128 == v);
    }
}

/// An integer written at any bit reads back, and the reader stands behind it.
pub proof fn law_bit_varint_reads_back(bits: Seq<bool>, pos: nat, v: u64)
    requires
        bits::at(bits, pos, bits::of_bytes(framing::varint(v as nat))),
    ensures
        parse_bit_varint(bits, pos) == (
            Ok::<u64, Error>(v),
            pos + bits::of_bytes(framing::varint(v as nat)).len(),
        ),
{
    let high = v as nat / 128;
    let b = (v as nat % 128) as u8;
    reveal_with_fuel(pow, 10);
    framing::lemma_lead_len(high, 9);
    bits::lemma_of_bytes_push(framing::lead(high), b);
    bits::lemma_at_concat(
        bits,
        pos,
        bits::of_bytes(framing::lead(high)),
        bits::field(b as nat, 8),
    );
    lemma_bit_lead(bits, pos, high);
    lemma2_to64();
    bits::lemma_field_len(b as nat, 8);
    bits::lemma_field_at(bits, pos + 8 * framing::lead(high).len(), b as nat, 8);
}

// ---------------------------------------------------------------------------
// The seek table
// ---------------------------------------------------------------------------

/// The fields of a seek table.
#[derive(Debug, Clone, PartialEq, Eq)]
pub struct SeekTableFields {
    /// Binary logarithm of the audio packets per entry.
    pub seek_pwr_delta: u8,
    /// Where the audio packets start, in bytes from the start of the stream.
    pub entries: Vec<u64>,
}

/// A seek table, as the contracts speak of it.
#[verifier::ext_equal]
pub struct SeekTable {
    pub seek_pwr_delta: u8,
    pub entries: Seq<u64>,
}

impl View for SeekTableFields {
    type V = SeekTable;

    open spec fn view(&self) -> SeekTable {
        SeekTable { seek_pwr_delta: self.seek_pwr_delta, entries: self.entries@ }
    }
}

/// Outcome of reading a run of clear bits that a set bit ends, `l` of them read.
pub open spec fn parse_run(bits: Seq<bool>, pos: nat, l: nat) -> Parsed<nat>
    decreases SEEK_RUN_BOUND + 1 - l,
{
    match bit_reader::read_field(bits, pos, 1) {
        (Err(e), p) => (Err(e), p),
        (Ok(b), p) => if b != 0 {
            (Ok(l), p)
        } else if l + 1 > SEEK_RUN_BOUND {
            (Err(Error::SeekTableCorrupt("Golomb zero-run overflow")), p)
        } else {
            parse_run(bits, p, l + 1)
        },
    }
}

/// The difference that a code stands for; the lowest bit is its sign.
pub open spec fn signed_of(code: int) -> int {
    if code % 2 == 1 {
        -(code / 2)
    } else {
        code / 2
    }
}

/// The code of a difference.
pub open spec fn code_of(d: int) -> int {
    if d < 0 {
        -2 * d + 1
    } else {
        2 * d
    }
}

/// Outcome of reading a difference.
pub open spec fn parse_difference(bits: Seq<bool>, pos: nat) -> Parsed<int> {
    match parse_run(bits, pos, 0) {
        (Err(e), p) => (Err(e), p),
        (Ok(l), p) => match bit_reader::read_field(bits, p, 12) {
            (Err(e), q) => (Err(e), q),
            (Ok(raw), q) => (Ok(signed_of(l * 4096 + raw)), q),
        },
    }
}

/// Where the two entries before the one at `i` lead.
pub open spec fn expected(entries: Seq<u64>, i: int) -> int {
    2 * entries[i - 1] - entries[i - 2]
}

/// Outcome of taking over an entry.
pub open spec fn bounded(v: int) -> Result<u64> {
    if v < 0 {
        Err(Error::SeekTableCorrupt("entry position went negative"))
    } else if v >= SEEK_ENTRY_BOUND {
        Err(Error::SeekTableCorrupt("entry position out of bounds"))
    } else {
        Ok(v as u64)
    }
}

/// The steps that read the entries.
pub open spec fn entry_step(bits: Seq<bool>) -> spec_fn(Seq<u64>, nat) -> Parsed<u64> {
    |done: Seq<u64>, pos: nat|
        if done.len() < 2 {
            match parse_bit_varint(bits, pos) {
                (Err(e), p) => (Err(e), p),
                (Ok(v), p) => (bounded(v as int), p),
            }
        } else {
            match parse_difference(bits, pos) {
                (Err(e), p) => (Err(e), p),
                (Ok(d), p) => (bounded(d + expected(done, done.len() as int)), p),
            }
        }
}

/// Most entries that a payload of `len` bytes can hold.
pub open spec fn most_entries(len: nat) -> nat {
    2 + 8 * len / 13
}

/// Outcome of reading the payload of a seek table.
#[verifier::opaque]
pub open spec fn table_of(payload: Seq<u8>) -> Result<SeekTable> {
    let bits = bits::of_bytes(payload);
    match parse_bit_varint(bits, 0) {
        (Err(e), p) => Err(e),
        (Ok(n), p) => if n > most_entries(payload.len()) {
            Err(Error::SeekTableCorrupt("n_entries exceeds payload bits"))
        } else {
            match bit_reader::read_field(bits, p, 4) {
                (Err(e), q) => Err(e),
                (Ok(delta), q) => {
                    let run = coding::sweep(entry_step(bits), n as nat, Seq::empty(), q);
                    match run.result {
                        Err(e) => Err(e),
                        Ok(_) => Ok(
                            SeekTable { seek_pwr_delta: delta as u8, entries: run.done },
                        ),
                    }
                },
            }
        },
    }
}

/// The code of a difference: a clear bit for each 4096, a set bit and twelve bits.
pub open spec fn difference_code(d: int) -> Seq<bool> {
    bits::zeros((code_of(d) / 4096) as nat).push(true) + bits::field(
        (code_of(d) % 4096) as nat,
        12,
    )
}

/// The steps that write the entries.
pub open spec fn entry_emit(entries: Seq<u64>) -> spec_fn(int) -> Emit {
    |i: int|
        if i < 2 {
            Emit::of(bits::of_bytes(framing::varint(entries[i] as nat)))
        } else {
            let d = entries[i] - expected(entries, i);
            if code_of(d) / 4096 > SEEK_RUN_BOUND {
                Emit::fail(Error::SeekTableCorrupt("residual exceeds Golomb bound"))
            } else {
                Emit::of(difference_code(d))
            }
        }
}

/// What a seek table is written as.
pub open spec fn emit_table(t: SeekTable) -> Emit {
    if t.seek_pwr_delta > 15 {
        Emit::fail(Error::SeekTableCorrupt("seek_pwr_delta exceeds 4 bits"))
    } else if exists|i: int|
        0 <= i < t.entries.len() && #[trigger] t.entries[i] >= SEEK_ENTRY_BOUND {
        Emit::fail(Error::SeekTableCorrupt("entry position out of bounds"))
    } else {
        coding::emit_each(entry_emit(t.entries), 0, t.entries.len() as int).after(
            bits::of_bytes(framing::varint(t.entries.len())) + bits::field(
                t.seek_pwr_delta as nat,
                4,
            ),
        )
    }
}

/// The entries do not fall, and have up to 35 bits.
pub open spec fn rising(entries: Seq<u64>) -> bool {
    &&& forall|i: int| 0 <= i < entries.len() ==> #[trigger] entries[i] < 0x8_0000_0000
    &&& forall|i: int, j: int|
        0 <= i <= j < entries.len() ==> #[trigger] entries[i] <= #[trigger] entries[j]
}

/// Rising entries can be written.
proof fn lemma_rising_emits(entries: Seq<u64>, i: int)
    requires
        rising(entries),
        0 <= i <= entries.len(),
    ensures
        coding::emit_each(entry_emit(entries), i, entries.len() as int).result is Ok,
    decreases entries.len() - i,
{
    if i < entries.len() {
        lemma_rising_emits(entries, i + 1);
        if i >= 2 {
            assert(entries[i - 2] <= entries[i - 1] <= entries[i] < 0x8_0000_0000);
        }
        assert(entry_emit(entries)(i).result is Ok);
    }
}

/// A table of rising entries can be written.
pub proof fn lemma_rising_writes(t: SeekTable)
    requires
        t.seek_pwr_delta <= 15,
        rising(t.entries),
    ensures
        emit_table(t).result is Ok,
{
    lemma_rising_emits(t.entries, 0);
}

/// Reads a run of clear bits that a set bit ends.
fn read_run(reader: &mut Sv7BitReader<'_>) -> (r: Result<u64>)
    ensures
        final(reader)@.bits == old(reader)@.bits,
        match (parse_run(old(reader)@.bits, old(reader)@.pos, 0), r) {
            ((Ok(l), p), Ok(v)) => v == l && final(reader)@.pos == p && v <= SEEK_RUN_BOUND,
            ((Err(e), p), Err(f)) => e == f && final(reader)@.pos == p,
            _ => false,
        },
{
    let ghost bits = reader@.bits;
    let ghost whole = parse_run(bits, reader@.pos, 0);
    let mut l: u64 = 0;
    loop
        invariant
            l <= SEEK_RUN_BOUND,
            reader@.bits == bits,
            bits == old(reader)@.bits,
            whole == parse_run(old(reader)@.bits, old(reader)@.pos, 0),
            whole == parse_run(bits, reader@.pos, l as nat),
        decreases SEEK_RUN_BOUND + 1 - l,
    {
        let bit: u32 = reader.read_bits(1)?;
        if bit != 0 {
            return Ok(l);
        }
        if l + 1 > SEEK_RUN_BOUND {
            return Err(Error::SeekTableCorrupt("Golomb zero-run overflow"));
        }
        l = l + 1;
    }
}

/// Reads a difference.
fn read_difference(reader: &mut Sv7BitReader<'_>) -> (r: Result<i64>)
    ensures
        final(reader)@.bits == old(reader)@.bits,
        match (parse_difference(old(reader)@.bits, old(reader)@.pos), r) {
            ((Ok(d), p), Ok(v)) => v == d && final(reader)@.pos == p && -0x10_0000_0000
                <= v <= 0x10_0000_0000,
            ((Err(e), p), Err(f)) => e == f && final(reader)@.pos == p,
            _ => false,
        },
{
    let l: u64 = read_run(reader)?;
    let ghost here = reader@;
    let raw: u32 = reader.read_bits(SEEK_GOLOMB_K)?;
    proof {
        bits::lemma_value_bound(here.bits.subrange(here.pos as int, here.pos + 12int));
        lemma2_to64();
    }
    let code: i64 = l as i64 * 4096 + raw as i64;
    if code % 2 == 1 {
        Ok(-(code / 2))
    } else {
        Ok(code / 2)
    }
}

impl SeekTableFields {
    /// Reads the payload of a seek table. One that promises more entries than its bits
    /// can hold is refused, as is one whose entries leave `0..2^40`.
    pub fn parse(payload: &[u8]) -> (r: Result<Self>)
        ensures
            match (table_of(payload@), r) {
                (Ok(m), Ok(t)) => t@ == m && m.seek_pwr_delta <= 15 && forall|i: int|
                    0 <= i < m.entries.len() ==> #[trigger] m.entries[i] < SEEK_ENTRY_BOUND,
                (Err(e), Err(f)) => e == f,
                _ => false,
            },
    {
        proof {
            reveal(table_of);
        }
        let ghost bits = bits::of_bytes(payload@);
        let mut reader: Sv7BitReader<'_> = Sv7BitReader::new(payload);
        let n: u64 = read_bit_varint(&mut reader)?;
        let most: u128 = 2 + payload.len() as u128 * 8 / 13;
        if n as u128 > most {
            return Err(Error::SeekTableCorrupt("n_entries exceeds payload bits"));
        }
        let ghost here = reader@;
        let delta: u32 = reader.read_bits(4)?;
        proof {
            bits::lemma_value_bound(bits.subrange(here.pos as int, here.pos + 4int));
            lemma2_to64();
        }
        let ghost step = entry_step(bits);
        let ghost whole = coding::sweep(step, n as nat, Seq::empty(), reader@.pos);
        let mut entries: Vec<u64> = Vec::new();
        while (entries.len() as u64) < n
            invariant
                reader@.bits == bits,
                bits == bits::of_bytes(payload@),
                step == entry_step(bits),
                n <= most_entries(payload@.len()),
                delta <= 15,
                table_of(payload@) == match whole.result {
                    Err(e) => Err(e),
                    Ok(_) => Ok(SeekTable { seek_pwr_delta: delta as u8, entries: whole.done }),
                },
                entries@.len() <= n,
                whole == coding::sweep(step, n as nat, entries@, reader@.pos),
                forall|i: int| 0 <= i < entries@.len() ==> #[trigger] entries@[i] < SEEK_ENTRY_BOUND,
            decreases n - entries@.len(),
        {
            let ghost at = reader@.pos;
            let len: usize = entries.len();
            let v: i64 = if len < 2 {
                let e: u64 = read_bit_varint(&mut reader)?;
                if e >= SEEK_ENTRY_BOUND {
                    return Err(Error::SeekTableCorrupt("entry position out of bounds"));
                }
                e as i64
            } else {
                let d: i64 = read_difference(&mut reader)?;
                let last: i64 = entries[len - 1] as i64;
                let before: i64 = entries[len - 2] as i64;
                d + 2 * last - before
            };
            if v < 0 {
                return Err(Error::SeekTableCorrupt("entry position went negative"));
            }
            if v as u64 >= SEEK_ENTRY_BOUND {
                return Err(Error::SeekTableCorrupt("entry position out of bounds"));
            }
            assert(step(entries@, at) == (Ok::<u64, Error>(v as u64), reader@.pos));
            entries.push(v as u64);
        }
        Ok(SeekTableFields { seek_pwr_delta: delta as u8, entries })
    }

    /// Composes the payload of a seek table. A table outside the bounds of its code is
    /// refused; one of rising entries of 35 bits never is.
    pub fn payload(&self) -> (r: Result<Vec<u8>>)
        ensures
            match r {
                Ok(p) => emit_table(self@).result is Ok && bits::of_bytes(p@) == emit_table(
                    self@,
                ).code + bit_writer::padding(emit_table(self@).code.len()),
                Err(e) => emit_table(self@).result == Err::<(), Error>(e),
            },
            self.seek_pwr_delta <= 15 && rising(self.entries@) ==> r is Ok,
    {
        proof {
            if self.seek_pwr_delta <= 15 && rising(self.entries@) {
                lemma_rising_writes(self@);
            }
        }
        if self.seek_pwr_delta > 15 {
            return Err(Error::SeekTableCorrupt("seek_pwr_delta exceeds 4 bits"));
        }
        let len: usize = self.entries.len();
        let ghost entries = self.entries@;
        let mut i: usize = 0;
        while i < len
            invariant
                i <= len == self.entries@.len(),
                self.seek_pwr_delta <= 15,
                forall|j: int| 0 <= j < i ==> #[trigger] self.entries@[j] < SEEK_ENTRY_BOUND,
            decreases len - i,
        {
            if self.entries[i] >= SEEK_ENTRY_BOUND {
                assert(self@.entries[i as int] >= SEEK_ENTRY_BOUND);
                return Err(Error::SeekTableCorrupt("entry position out of bounds"));
            }
            i = i + 1;
        }
        let mut w: Sv7BitWriter = Sv7BitWriter::new();
        write_bit_varint(&mut w, len as u64);
        w.write_bits(self.seek_pwr_delta as u32, 4);
        let ghost head = bits::of_bytes(framing::varint(len as nat)) + bits::field(
            self.seek_pwr_delta as nat,
            4,
        );
        assert(w@ =~= head);
        let ghost step = entry_emit(entries);
        let ghost whole = emit_table(self@);
        let ghost mut done: Seq<bool> = head;
        let mut k: usize = 0;
        while k < len
            invariant
                k <= len == self.entries@.len(),
                entries == self.entries@,
                forall|j: int| 0 <= j < len ==> #[trigger] self.entries@[j] < SEEK_ENTRY_BOUND,
                step == entry_emit(entries),
                whole == emit_table(self@),
                whole == coding::emit_each(step, k as int, len as int).after(done),
                w@ == done,
            decreases len - k,
        {
            proof {
                coding::lemma_emit_one(step, k as int, len as int, done);
            }
            let e: u64 = self.entries[k];
            if k < 2 {
                write_bit_varint(&mut w, e);
            } else {
                let last: u64 = self.entries[k - 1];
                let before: u64 = self.entries[k - 2];
                assert(entries[k - 1] < SEEK_ENTRY_BOUND && entries[k - 2] < SEEK_ENTRY_BOUND
                    && entries[k as int] < SEEK_ENTRY_BOUND);
                let d: i64 = e as i64 - (2 * last as i64 - before as i64);
                let code: u64 = if d < 0 { 2 * (-d) as u64 + 1 } else { 2 * d as u64 };
                let l: u64 = code / 4096;
                if l > SEEK_RUN_BOUND {
                    return Err(Error::SeekTableCorrupt("residual exceeds Golomb bound"));
                }
                let mut z: u64 = 0;
                assert(w@ =~= done + bits::zeros(0));
                while z < l
                    invariant
                        z <= l,
                        w@ == done + bits::zeros(z as nat),
                    decreases l - z,
                {
                    w.write_bits(0, 1);
                    proof {
                        bits::lemma_field_zero(1);
                        assert(w@ =~= done + bits::zeros((z + 1) as nat));
                    }
                    z = z + 1;
                }
                w.write_bits(1, 1);
                w.write_bits((code % 4096) as u32, SEEK_GOLOMB_K);
                proof {
                    reveal_with_fuel(bits::field, 2);
                    assert(bits::field(1, 1) =~= seq![true]);
                    assert(w@ =~= done + difference_code(d as int));
                }
            }
            proof {
                done = done + step(k as int).code;
            }
            k = k + 1;
        }
        assert(whole.code =~= done);
        Ok(w.finish())
    }

    /// Binary logarithm of the frames per entry, given that of the frames per packet.
    #[must_use]
    pub fn seek_pwr(&self, effective_block_pwr: u8) -> (p: u8)
        requires
            effective_block_pwr + self.seek_pwr_delta <= 255,
        ensures
            p == effective_block_pwr + self.seek_pwr_delta,
    {
        effective_block_pwr + self.seek_pwr_delta
    }
}

/// A written run of clear bits reads back.
proof fn lemma_run_reads_back(bits: Seq<bool>, pos: nat, k: nat, l: nat)
    requires
        k <= l <= SEEK_RUN_BOUND,
        bits::at(bits, pos, bits::zeros((l - k) as nat).push(true)),
    ensures
        parse_run(bits, pos, k) == (Ok::<nat, Error>(l), (pos + (l - k) + 1) as nat),
    decreases l - k,
{
    let code = bits::zeros((l - k) as nat).push(true);
    assert(bits[pos as int] == code[0]) by {
        assert(bits.subrange(pos as int, (pos + code.len()) as int)[0] == bits[pos as int]);
    }
    bits::lemma_bit_at(bits, pos, true);
    if k < l {
        let rest = bits::zeros((l - k - 1) as nat).push(true);
        assert(code =~= seq![false] + rest);
        bits::lemma_at_concat(bits, pos, seq![false], rest);
        lemma_run_reads_back(bits, pos + 1, k + 1, l);
    }
}

/// A written difference reads back.
proof fn lemma_difference_reads_back(bits: Seq<bool>, pos: nat, d: int)
    requires
        code_of(d) / 4096 <= SEEK_RUN_BOUND,
        bits::at(bits, pos, difference_code(d)),
    ensures
        parse_difference(bits, pos) == (
            Ok::<int, Error>(d),
            (pos + difference_code(d).len()) as nat,
        ),
        difference_code(d).len() >= 13,
{
    let l = (code_of(d) / 4096) as nat;
    let raw = (code_of(d) % 4096) as nat;
    let run = bits::zeros(l).push(true);
    bits::lemma_field_len(raw, 12);
    lemma2_to64();
    bits::lemma_at_concat(bits, pos, run, bits::field(raw, 12));
    lemma_run_reads_back(bits, pos, 0, l);
    bits::lemma_field_at(bits, pos + run.len(), raw, 12);
    assert(l * 4096 + raw == code_of(d));
}

/// Every entry but the first two takes thirteen bits and more.
proof fn lemma_entries_len(entries: Seq<u64>, i: int)
    requires
        0 <= i <= entries.len(),
        coding::emit_each(entry_emit(entries), i, entries.len() as int).result is Ok,
    ensures
        coding::emit_each(entry_emit(entries), i, entries.len() as int).code.len() >= 13 * (
        entries.len() - if i < 2 {
            2
        } else {
            i
        }),
    decreases entries.len() - i,
{
    let step = entry_emit(entries);
    if i < entries.len() {
        lemma_entries_len(entries, i + 1);
        if i >= 2 {
            let d = entries[i] - expected(entries, i);
            bits::lemma_field_len((code_of(d) % 4096) as nat, 12);
            assert(step(i).code.len() >= 13);
        }
    }
}

/// A parsed table has a delta of four bits.
pub proof fn lemma_table_delta(payload: Seq<u8>)
    requires
        table_of(payload) is Ok,
    ensures
        table_of(payload)->Ok_0.seek_pwr_delta <= 15,
{
    reveal(table_of);
    let bits = bits::of_bytes(payload);
    let p = parse_bit_varint(bits, 0).1;
    bits::lemma_value_bound(bits.subrange(p as int, p + 4int));
    lemma2_to64();
}

/// A composed seek table parses back.
pub proof fn law_table_reads_back(payload: Seq<u8>, t: SeekTable)
    requires
        t.entries.len() <= u64::MAX,
        emit_table(t).result is Ok,
        bits::of_bytes(payload) == emit_table(t).code + bit_writer::padding(
            emit_table(t).code.len(),
        ),
    ensures
        table_of(payload) == Ok::<SeekTable, Error>(t),
{
    reveal(table_of);
    let bits = bits::of_bytes(payload);
    let count = bits::of_bytes(framing::varint(t.entries.len()));
    let nibble = bits::field(t.seek_pwr_delta as nat, 4);
    let emit = entry_emit(t.entries);
    let n = t.entries.len() as int;
    let body = coding::emit_each(emit, 0, n);
    let code = emit_table(t).code;
    assert(code == count + nibble + body.code);
    assert(bits.subrange(0, code.len() as int) =~= code);
    bits::lemma_at_concat(bits, 0, count + nibble, body.code);
    bits::lemma_at_concat(bits, 0, count, nibble);
    law_bit_varint_reads_back(bits, 0, t.entries.len() as u64);
    bits::lemma_field_len(t.seek_pwr_delta as nat, 4);
    lemma2_to64();
    bits::lemma_field_at(bits, count.len(), t.seek_pwr_delta as nat, 4);
    lemma_entries_len(t.entries, 0);
    assert(n <= most_entries(payload.len()));
    let parse = entry_step(bits);
    let items = t.entries;
    assert forall|j: int, p: nat|
        0 <= j < items.len() && emit(j).result is Ok && bits::at(
            bits,
            p,
            emit(j).code,
        ) implies #[trigger] parse(items.take(j), p) == (
        Ok::<u64, Error>(items[j]),
        (p + emit(j).code.len()) as nat,
    ) by {
        assert(items[j] < SEEK_ENTRY_BOUND);
        if j < 2 {
            law_bit_varint_reads_back(bits, p, items[j]);
        } else {
            let d = items[j] - expected(items, j);
            assert(expected(items.take(j), j) == expected(items, j));
            lemma_difference_reads_back(bits, p, d);
        }
    }
    assert(items.take(0) =~= Seq::<u64>::empty());
    coding::lemma_sweep_reads_at(bits, parse, emit, items, 0, (count + nibble).len());
}

} // verus!
