//! Scalefactors of the older stream format.
//!
//! A band and channel has three. A method says which of them are coded; each coded one is
//! a difference to the one before it, or follows an escape outright.

use crate::bit_reader;
use crate::bit_reader::Sv7BitReader;
use crate::bits;
use crate::coding::Parsed;
use crate::error::{Error, Result};
use crate::sv7_huffman;
use crate::sv7_huffman::{decode, Sv7HuffmanEntry};
use crate::sv8_dscf_loop;
use crate::sv8_dscf_loop::SCF_GRANULES_PER_BAND;
use vstd::arithmetic::power2::*;
use vstd::prelude::*;

verus! {

/// The value that announces a scalefactor outright.
pub const DSCF_ESCAPE_SYMBOL: i8 = 8;

/// Bits of such a scalefactor.
pub const DSCF_ESCAPE_RAW_BITS: u8 = 6;

/// Scalefactors above this are out of range.
pub const SCF_CLAMP_THRESHOLD: i32 = 1024;

// ---------------------------------------------------------------------------
// Codes
// ---------------------------------------------------------------------------

/// A row of a code.
pub open spec fn row(code: u16, length: u8, value: int) -> Sv7HuffmanEntry {
    Sv7HuffmanEntry { code, length, value: value as i8 }
}

/// The code of the methods.
pub open spec fn method_rows() -> Seq<Sv7HuffmanEntry> {
    seq![row(0x8000, 1, 1), row(0x6000, 3, 2), row(0x4000, 3, 0), row(0x0000, 2, 3)]
}

/// The code of the differences.
pub open spec fn difference_rows() -> Seq<Sv7HuffmanEntry> {
    seq![
        row(0xf800, 5, 5),
        row(0xf000, 5, -4),
        row(0xe000, 4, 3),
        row(0xd000, 4, -3),
        row(0xc000, 4, 8),
        row(0xa000, 3, 1),
        row(0x9000, 4, 0),
        row(0x8800, 5, -5),
        row(0x8400, 6, 7),
        row(0x8000, 6, -7),
        row(0x6000, 3, -1),
        row(0x4000, 3, 2),
        row(0x3000, 4, 4),
        row(0x2800, 5, 6),
        row(0x2000, 5, -6),
        row(0x0000, 3, -2),
    ]
}

/// A row of a code.
fn entry(code: u16, length: u8, value: i8) -> (e: Sv7HuffmanEntry)
    ensures
        e == row(code, length, value as int),
{
    Sv7HuffmanEntry { code, length, value }
}

/// The code of the methods.
pub fn sv7_scfi_table() -> (t: [Sv7HuffmanEntry; 4])
    ensures
        t@ == method_rows(),
{
    let t: [Sv7HuffmanEntry; 4] = [
        entry(0x8000, 1, 1),
        entry(0x6000, 3, 2),
        entry(0x4000, 3, 0),
        entry(0x0000, 2, 3),
    ];
    assert(t@ =~= method_rows());
    t
}

/// The code of the differences.
pub fn sv7_dscf_table() -> (t: [Sv7HuffmanEntry; 16])
    ensures
        t@ == difference_rows(),
{
    let t: [Sv7HuffmanEntry; 16] = [
        entry(0xf800, 5, 5),
        entry(0xf000, 5, -4),
        entry(0xe000, 4, 3),
        entry(0xd000, 4, -3),
        entry(0xc000, 4, 8),
        entry(0xa000, 3, 1),
        entry(0x9000, 4, 0),
        entry(0x8800, 5, -5),
        entry(0x8400, 6, 7),
        entry(0x8000, 6, -7),
        entry(0x6000, 3, -1),
        entry(0x4000, 3, 2),
        entry(0x3000, 4, 4),
        entry(0x2800, 5, 6),
        entry(0x2000, 5, -6),
        entry(0x0000, 3, -2),
    ];
    assert(t@ =~= difference_rows());
    t
}

/// Both tables are codes.
pub proof fn lemma_codes_orderly()
    ensures
        sv7_huffman::orderly(method_rows()),
        sv7_huffman::orderly(difference_rows()),
{
    lemma2_to64();
    let m = method_rows();
    let d = difference_rows();
    lemma_aligned(m[0], 1);
    lemma_aligned(m[1], 3);
    lemma_aligned(m[2], 2);
    lemma_aligned(m[3], 0);
    lemma_aligned(d[0], 31);
    lemma_aligned(d[1], 30);
    lemma_aligned(d[2], 14);
    lemma_aligned(d[3], 13);
    lemma_aligned(d[4], 12);
    lemma_aligned(d[5], 5);
    lemma_aligned(d[6], 9);
    lemma_aligned(d[7], 17);
    lemma_aligned(d[8], 33);
    lemma_aligned(d[9], 32);
    lemma_aligned(d[10], 3);
    lemma_aligned(d[11], 2);
    lemma_aligned(d[12], 3);
    lemma_aligned(d[13], 5);
    lemma_aligned(d[14], 4);
    lemma_aligned(d[15], 0);
}

/// A code word is left-justified where it is a multiple of its step.
proof fn lemma_aligned(e: Sv7HuffmanEntry, k: nat)
    requires
        e.is_code(),
        e.code == k * e.step(),
    ensures
        e.code as nat % e.step() == 0,
{
    lemma_pow2_pos((16 - e.length) as nat);
    vstd::arithmetic::div_mod::lemma_mod_multiples_basic(k as int, e.step() as int);
}

// ---------------------------------------------------------------------------
// Decoding
// ---------------------------------------------------------------------------

/// The scalefactors of a band and channel.
#[derive(Debug, Clone, Copy, PartialEq, Eq)]
pub struct Sv7BandScf {
    /// The method.
    pub scfi: u8,
    /// The scalefactors.
    pub indices: [i32; SCF_GRANULES_PER_BAND],
    /// One of the scalefactors is out of range.
    pub clamped: bool,
}

impl Sv7BandScf {
    /// The last of the scalefactors.
    pub fn last_index(&self) -> (s: i32)
        ensures
            s == self.indices[2],
    {
        self.indices[2]
    }
}

/// Outcome of decoding a method.
pub open spec fn parse_method(bits: Seq<bool>, pos: nat) -> Parsed<u8> {
    match sv7_huffman::parse(method_rows(), bits, pos) {
        (Err(e), p) => (Err(e), p),
        (Ok(v), p) => (Ok(v as u8), p),
    }
}

/// A sum that stays within 32 bits.
pub open spec fn saturated(v: int) -> i32 {
    if v > i32::MAX {
        i32::MAX
    } else if v < i32::MIN {
        i32::MIN
    } else {
        v as i32
    }
}

/// Outcome of decoding a scalefactor that follows `reference`.
pub open spec fn parse_index(bits: Seq<bool>, pos: nat, reference: i32) -> Parsed<i32> {
    match sv7_huffman::parse(difference_rows(), bits, pos) {
        (Err(e), p) => (Err(e), p),
        (Ok(d), p) => if d == DSCF_ESCAPE_SYMBOL {
            match bit_reader::read_field(bits, p, 6) {
                (Err(e), q) => (Err(e), q),
                (Ok(raw), q) => (Ok(raw as i32), q),
            }
        } else {
            (Ok(saturated(reference + d)), p)
        },
    }
}

/// Outcome of decoding a scalefactor, or repeating `reference`.
pub open spec fn parse_later(
    bits: Seq<bool>,
    pos: nat,
    coded: bool,
    reference: i32,
) -> Parsed<i32> {
    if coded {
        parse_index(bits, pos, reference)
    } else {
        (Ok(reference), pos)
    }
}

/// A scalefactor is out of range.
pub open spec fn out_of_range(s: [i32; 3]) -> bool {
    s[0] > SCF_CLAMP_THRESHOLD || s[1] > SCF_CLAMP_THRESHOLD || s[2] > SCF_CLAMP_THRESHOLD
}

/// Outcome of decoding the scalefactors of a band and channel, given their method.
pub open spec fn parse_scalefactors(
    bits: Seq<bool>,
    pos: nat,
    scfi: u8,
    reference: i32,
) -> Parsed<Sv7BandScf> {
    if scfi > 3 {
        (Err(Error::InvalidScfCodingMethod(scfi as i8)), pos)
    } else {
        match parse_index(bits, pos, reference) {
            (Err(e), p) => (Err(e), p),
            (Ok(a), p) => match parse_later(bits, p, sv8_dscf_loop::is_coded(scfi as int, 1), a) {
                (Err(e), q) => (Err(e), q),
                (Ok(b), q) => match parse_later(
                    bits,
                    q,
                    sv8_dscf_loop::is_coded(scfi as int, 2),
                    b,
                ) {
                    (Err(e), s) => (Err(e), s),
                    (Ok(c), s) => (
                        Ok(
                            Sv7BandScf {
                                scfi,
                                indices: [a, b, c],
                                clamped: out_of_range([a, b, c]),
                            },
                        ),
                        s,
                    ),
                },
            },
        }
    }
}

/// Outcome of decoding the method and the scalefactors of a band and channel.
pub open spec fn parse_band(bits: Seq<bool>, pos: nat, reference: i32) -> Parsed<Sv7BandScf> {
    match parse_method(bits, pos) {
        (Err(e), p) => (Err(e), p),
        (Ok(scfi), p) => parse_scalefactors(bits, p, scfi, reference),
    }
}

/// A decoded value is one of the rows'.
proof fn lemma_method_range(peek: int, from: int)
    requires
        0 <= from,
    ensures
        match sv7_huffman::matching(method_rows(), from, peek) {
            Some(r) => 0 <= r < 4 && 0 <= method_rows()[r].value <= 3,
            None => true,
        },
    decreases 4 - from,
{
    if from < 4 && !(method_rows()[from].is_code() && method_rows()[from].code <= peek) {
        lemma_method_range(peek, from + 1);
    }
}

/// Decodes a method.
pub fn decode_sv7_scfi(reader: &mut Sv7BitReader<'_>) -> (r: Result<u8>)
    ensures
        final(reader)@.bits == old(reader)@.bits,
        (r, final(reader)@.pos) == parse_method(old(reader)@.bits, old(reader)@.pos),
        r is Ok ==> r->Ok_0 <= 3,
{
    let table: [Sv7HuffmanEntry; 4] = sv7_scfi_table();
    proof {
        lemma_method_range(bits::field_at(reader@.bits, reader@.pos, 16) as int, 0);
    }
    let v: i8 = decode(reader, &table)?;
    Ok(v as u8)
}

/// Decodes a scalefactor that follows `reference`.
fn read_scf_index(reader: &mut Sv7BitReader<'_>, reference: i32) -> (r: Result<i32>)
    ensures
        final(reader)@.bits == old(reader)@.bits,
        (r, final(reader)@.pos) == parse_index(old(reader)@.bits, old(reader)@.pos, reference),
{
    let table: [Sv7HuffmanEntry; 16] = sv7_dscf_table();
    let d: i8 = decode(reader, &table)?;
    if d == DSCF_ESCAPE_SYMBOL {
        let ghost here = reader@;
        let raw: u32 = reader.read_bits(DSCF_ESCAPE_RAW_BITS)?;
        proof {
            bits::lemma_value_bound(here.bits.subrange(here.pos as int, here.pos + 6int));
            lemma2_to64();
        }
        Ok(raw as i32)
    } else {
        Ok(saturating_sum(reference, d))
    }
}

/// A sum that stays within 32 bits.
fn saturating_sum(a: i32, d: i8) -> (s: i32)
    ensures
        s == saturated(a + d),
{
    let sum: i64 = a as i64 + d as i64;
    if sum > i32::MAX as i64 {
        i32::MAX
    } else if sum < i32::MIN as i64 {
        i32::MIN
    } else {
        sum as i32
    }
}

/// Decodes the scalefactors of a band and channel, given their method. Methods above 3 are
/// refused.
pub fn decode_sv7_band_dscf(reader: &mut Sv7BitReader<'_>, scfi: u8, reference: i32) -> (r: Result<
    Sv7BandScf,
>)
    ensures
        final(reader)@.bits == old(reader)@.bits,
        (r, final(reader)@.pos) == parse_scalefactors(
            old(reader)@.bits,
            old(reader)@.pos,
            scfi,
            reference,
        ),
{
    if scfi > 3 {
        return Err(Error::InvalidScfCodingMethod(scfi as i8));
    }
    let scf0: i32 = read_scf_index(reader, reference)?;
    let scf1: i32 = if scfi == 0 || scfi == 1 {
        read_scf_index(reader, scf0)?
    } else {
        scf0
    };
    let scf2: i32 = if scfi == 0 || scfi == 2 {
        read_scf_index(reader, scf1)?
    } else {
        scf1
    };
    let clamped: bool = scf0 > SCF_CLAMP_THRESHOLD || scf1 > SCF_CLAMP_THRESHOLD || scf2
        > SCF_CLAMP_THRESHOLD;
    Ok(Sv7BandScf { scfi, indices: [scf0, scf1, scf2], clamped })
}

/// Decodes the method and the scalefactors of a band and channel. The first scalefactor
/// follows `prev_band_scf2`.
pub fn decode_sv7_band_scf(reader: &mut Sv7BitReader<'_>, prev_band_scf2: i32) -> (r: Result<
    Sv7BandScf,
>)
    ensures
        final(reader)@.bits == old(reader)@.bits,
        (r, final(reader)@.pos) == parse_band(
            old(reader)@.bits,
            old(reader)@.pos,
            prev_band_scf2,
        ),
{
    let scfi: u8 = decode_sv7_scfi(reader)?;
    decode_sv7_band_dscf(reader, scfi, prev_band_scf2)
}

/// How many scalefactors a method codes; methods above 3 code none.
pub fn dscf_reads_for_scfi(scfi: u8) -> (n: Option<usize>)
    ensures
        n == if scfi > 3 {
            None
        } else {
            Some(
                (1 + (if sv8_dscf_loop::is_coded(scfi as int, 1) {
                    1int
                } else {
                    0int
                }) + (if sv8_dscf_loop::is_coded(scfi as int, 2) {
                    1int
                } else {
                    0int
                })) as usize,
            )
        },
{
    match scfi {
        0 => Some(3),
        1 | 2 => Some(2),
        3 => Some(1),
        _ => None,
    }
}

} // verus!
