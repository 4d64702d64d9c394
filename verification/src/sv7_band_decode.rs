//! Levels of a band and channel of the older stream format.
//!
//! Small band types code several levels in one symbol, middle ones a symbol per level, each
//! from one of two codes; large ones write their levels out.

use crate::bit_reader;
use crate::bit_reader::Sv7BitReader;
use crate::bits;
use crate::cns::{CnsPrng, SAMPLES_PER_BAND};
use crate::coding;
use crate::coding::Parsed;
use crate::error::{Error, Result};
use crate::sv7_huffman;
use crate::sv7_huffman::{decode, is_orderly, Sv7HuffmanEntry};
use crate::sv8_band_decode;
use vstd::arithmetic::power2::*;
use vstd::prelude::*;

verus! {

/// The codes of a stream: that of the band types, and two for each of the band types 1 to 7.
#[derive(Debug, Clone, Copy)]
pub struct Sv7TableSet {
    pub hdr: &'static [Sv7HuffmanEntry],
    pub q1: [&'static [Sv7HuffmanEntry]; 2],
    pub q2: [&'static [Sv7HuffmanEntry]; 2],
    pub q3: [&'static [Sv7HuffmanEntry]; 2],
    pub q4: [&'static [Sv7HuffmanEntry]; 2],
    pub q5: [&'static [Sv7HuffmanEntry]; 2],
    pub q6: [&'static [Sv7HuffmanEntry]; 2],
    pub q7: [&'static [Sv7HuffmanEntry]; 2],
}

impl Sv7TableSet {
    /// The code of a band type's levels.
    pub open spec fn code(self, band_type: int, ctx: int) -> Seq<Sv7HuffmanEntry> {
        if band_type == 1 {
            self.q1[ctx]@
        } else if band_type == 2 {
            self.q2[ctx]@
        } else if band_type == 3 {
            self.q3[ctx]@
        } else if band_type == 4 {
            self.q4[ctx]@
        } else if band_type == 5 {
            self.q5[ctx]@
        } else if band_type == 6 {
            self.q6[ctx]@
        } else {
            self.q7[ctx]@
        }
    }

    /// Every table is a code.
    pub open spec fn orderly(self) -> bool {
        &&& sv7_huffman::orderly(self.hdr@)
        &&& forall|band_type: int, ctx: int|
            1 <= band_type <= 7 && 0 <= ctx <= 1 ==> sv7_huffman::orderly(
                #[trigger] self.code(band_type, ctx),
            )
    }

    /// Every table is a code.
    #[must_use]
    pub fn is_orderly(&self) -> (b: bool)
        ensures
            b == self.orderly(),
    {
        if !is_orderly(self.hdr) {
            return false;
        }
        let mut band_type: i8 = 1;
        while band_type <= 7
            invariant
                1 <= band_type <= 8,
                forall|t: int, c: int|
                    1 <= t < band_type && 0 <= c <= 1 ==> sv7_huffman::orderly(
                        #[trigger] self.code(t, c),
                    ),
            decreases 8 - band_type,
        {
            if !is_orderly(self.rows(band_type, 0)) {
                assert(!sv7_huffman::orderly(self.code(band_type as int, 0)));
                return false;
            }
            if !is_orderly(self.rows(band_type, 1)) {
                assert(!sv7_huffman::orderly(self.code(band_type as int, 1)));
                return false;
            }
            band_type = band_type + 1;
        }
        true
    }

    /// The code of a band type's levels.
    pub fn rows(&self, band_type: i8, ctx: usize) -> (t: &'static [Sv7HuffmanEntry])
        requires
            1 <= band_type <= 7,
            ctx < 2,
        ensures
            t@ == self.code(band_type as int, ctx as int),
    {
        match band_type {
            1 => self.q1[ctx],
            2 => self.q2[ctx],
            3 => self.q3[ctx],
            4 => self.q4[ctx],
            5 => self.q5[ctx],
            6 => self.q6[ctx],
            _ => self.q7[ctx],
        }
    }
}

/// A band type has two codes, of which a bit picks one.
pub open spec fn has_selector(band_type: int) -> bool {
    1 <= band_type <= 7
}

/// A band type has two codes, of which a bit picks one.
#[must_use]
pub fn band_type_uses_context_selector(band_type: i8) -> (b: bool)
    ensures
        b == has_selector(band_type as int),
{
    1 <= band_type && band_type <= 7
}

/// How the levels of a band type are coded.
#[derive(Debug, Clone, Copy, PartialEq, Eq, Structural)]
pub enum BandDecodeCase {
    /// Noise.
    Cns,
    /// Nothing.
    Empty,
    /// Three levels per symbol.
    Grouped3,
    /// Two levels per symbol.
    Grouped2,
    /// One level per symbol.
    HuffmanPerSample,
    /// Levels that are written out.
    PcmEscape,
    /// No such band type.
    OutOfRange,
}

/// How the levels of a band type are coded.
#[must_use]
pub fn band_type_case(band_type: i8) -> (c: BandDecodeCase)
    ensures
        c == if band_type == -1 {
            BandDecodeCase::Cns
        } else if band_type == 0 {
            BandDecodeCase::Empty
        } else if band_type == 1 {
            BandDecodeCase::Grouped3
        } else if band_type == 2 {
            BandDecodeCase::Grouped2
        } else if 3 <= band_type <= 7 {
            BandDecodeCase::HuffmanPerSample
        } else if 8 <= band_type <= 17 {
            BandDecodeCase::PcmEscape
        } else {
            BandDecodeCase::OutOfRange
        },
{
    match band_type {
        -1 => BandDecodeCase::Cns,
        0 => BandDecodeCase::Empty,
        1 => BandDecodeCase::Grouped3,
        2 => BandDecodeCase::Grouped2,
        _ => if 3 <= band_type && band_type <= 7 {
            BandDecodeCase::HuffmanPerSample
        } else if 8 <= band_type && band_type <= 17 {
            BandDecodeCase::PcmEscape
        } else {
            BandDecodeCase::OutOfRange
        },
    }
}

/// Levels that a symbol of a band type holds.
pub open spec fn group_size(band_type: int) -> int {
    if band_type == 1 {
        3
    } else if band_type == 2 {
        2
    } else {
        1
    }
}

/// Symbols of a band.
pub open spec fn symbol_count(band_type: int) -> nat {
    if band_type == 1 {
        12
    } else if band_type == 2 {
        18
    } else {
        36
    }
}

/// A symbol holds levels of the band type.
pub open spec fn is_symbol(band_type: int, v: int) -> bool {
    if band_type == 1 {
        0 <= v <= 26
    } else if band_type == 2 {
        0 <= v <= 24
    } else {
        true
    }
}

/// Level `k` of a symbol.
pub open spec fn symbol_level(band_type: int, v: int, k: int) -> int {
    if band_type == 1 {
        (if k == 0 {
            v % 3
        } else if k == 1 {
            v / 3 % 3
        } else {
            v / 9
        }) - 1
    } else if band_type == 2 {
        (if k == 0 {
            v % 5
        } else {
            v / 5
        }) - 2
    } else {
        v
    }
}

/// The levels of a band, from its symbols.
pub open spec fn levels_of(band_type: int, symbols: Seq<i8>) -> Seq<i32> {
    Seq::new(
        36,
        |j: int|
            symbol_level(
                band_type,
                symbols[j / group_size(band_type)] as int,
                j % group_size(band_type),
            ) as i32,
    )
}

/// Outcome of decoding a symbol.
pub open spec fn parse_symbol(
    rows: Seq<Sv7HuffmanEntry>,
    bits: Seq<bool>,
    pos: nat,
    band_type: int,
) -> Parsed<i8> {
    match sv7_huffman::parse(rows, bits, pos) {
        (Err(e), p) => (Err(e), p),
        (Ok(v), p) => if is_symbol(band_type, v as int) {
            (Ok(v), p)
        } else {
            (Err(Error::GroupedSymbolOutOfRange(v)), p)
        },
    }
}

/// The steps that decode the symbols of a band.
pub open spec fn symbol_step(
    rows: Seq<Sv7HuffmanEntry>,
    bits: Seq<bool>,
    band_type: int,
) -> spec_fn(Seq<i8>, nat) -> Parsed<i8> {
    |done: Seq<i8>, pos: nat| parse_symbol(rows, bits, pos, band_type)
}

/// Outcome of reading a level that is written out. It counts from the lowest level up.
pub open spec fn parse_plain(bits: Seq<bool>, pos: nat, band_type: int) -> Parsed<i32> {
    match bit_reader::read_field(bits, pos, (band_type - 1) as nat) {
        (Err(e), p) => (Err(e), p),
        (Ok(v), p) => (Ok(v as i32), p),
    }
}

/// The steps that read levels that are written out.
pub open spec fn plain_step(bits: Seq<bool>, band_type: int) -> spec_fn(Seq<i32>, nat) -> Parsed<
    i32,
> {
    |done: Seq<i32>, pos: nat| parse_plain(bits, pos, band_type)
}

/// Outcome of decoding the levels of a band and channel.
pub open spec fn parse_levels(
    tables: Sv7TableSet,
    bits: Seq<bool>,
    pos: nat,
    band_type: i8,
    ctx: int,
    noise: CnsPrng,
) -> Parsed<Seq<i32>> {
    if band_type == 0 {
        (Ok(sv8_band_decode::silence()), pos)
    } else if band_type == -1 {
        (Ok(noise.noise()), pos)
    } else if has_selector(band_type as int) {
        match coding::sweep(
            symbol_step(tables.code(band_type as int, ctx), bits, band_type as int),
            symbol_count(band_type as int),
            Seq::empty(),
            pos,
        ).parsed() {
            (Err(e), p) => (Err(e), p),
            (Ok(s), p) => (Ok(levels_of(band_type as int, s)), p),
        }
    } else if 8 <= band_type <= 17 {
        coding::sweep(plain_step(bits, band_type as int), 36, Seq::empty(), pos).parsed()
    } else {
        (Err(Error::UnsupportedBandType(band_type)), pos)
    }
}

/// The noise generator behind a band and channel.
pub open spec fn noise_behind(noise: CnsPrng, band_type: i8) -> CnsPrng {
    if band_type == -1 {
        noise.steps(36)
    } else {
        noise
    }
}

/// Outcome of decoding the selector and the levels of a band and channel.
pub open spec fn parse_channel(
    tables: Sv7TableSet,
    bits: Seq<bool>,
    pos: nat,
    band_type: i8,
    noise: CnsPrng,
) -> Parsed<Seq<i32>> {
    if has_selector(band_type as int) {
        match bit_reader::read_field(bits, pos, 1) {
            (Err(e), p) => (Err(e), p),
            (Ok(ctx), p) => parse_levels(tables, bits, p, band_type, ctx as int, noise),
        }
    } else {
        parse_levels(tables, bits, pos, band_type, 0, noise)
    }
}

/// Decodes the symbols of a band.
fn decode_symbols(rows: &[Sv7HuffmanEntry], reader: &mut Sv7BitReader<'_>, band_type: i8) -> (r:
    Result<Vec<i8>>)
    requires
        has_selector(band_type as int),
    ensures
        final(reader)@.bits == old(reader)@.bits,
        ({
            let whole = coding::sweep(
                symbol_step(rows@, old(reader)@.bits, band_type as int),
                symbol_count(band_type as int),
                Seq::empty(),
                old(reader)@.pos,
            );
            &&& final(reader)@.pos == whole.pos
            &&& match (whole.result, r) {
                (Ok(_), Ok(v)) => v@ == whole.done && v@.len() == symbol_count(band_type as int)
                    && forall|i: int|
                    0 <= i < v@.len() ==> is_symbol(band_type as int, #[trigger] v@[i] as int),
                (Err(e), Err(f)) => e == f,
                _ => false,
            }
        }),
{
    let ghost bits = reader@.bits;
    let ghost step = symbol_step(rows@, bits, band_type as int);
    let ghost whole = coding::sweep(
        step,
        symbol_count(band_type as int),
        Seq::empty(),
        reader@.pos,
    );
    let n: usize = match band_type {
        1 => 12,
        2 => 18,
        _ => 36,
    };
    let highest: i8 = match band_type {
        1 => 26,
        _ => 24,
    };
    let mut out: Vec<i8> = Vec::new();
    while out.len() < n
        invariant
            n == symbol_count(band_type as int),
            highest == if band_type == 1 {
                26int
            } else {
                24int
            },
            has_selector(band_type as int),
            out@.len() <= n,
            reader@.bits == bits,
            bits == old(reader)@.bits,
            step == symbol_step(rows@, bits, band_type as int),
            whole == coding::sweep(
                symbol_step(rows@, old(reader)@.bits, band_type as int),
                symbol_count(band_type as int),
                Seq::empty(),
                old(reader)@.pos,
            ),
            whole == coding::sweep(step, n as nat, out@, reader@.pos),
            forall|i: int|
                0 <= i < out@.len() ==> is_symbol(band_type as int, #[trigger] out@[i] as int),
        decreases n - out@.len(),
    {
        let ghost here = reader@.pos;
        let v: i8 = decode(reader, rows)?;
        if band_type <= 2 && (v < 0 || v > highest) {
            return Err(Error::GroupedSymbolOutOfRange(v));
        }
        assert(step(out@, here) == (Ok::<i8, Error>(v), reader@.pos));
        out.push(v);
    }
    Ok(out)
}

/// Level `k` of a symbol.
fn level_of(band_type: i8, v: i8, k: usize) -> (l: i32)
    requires
        has_selector(band_type as int),
        is_symbol(band_type as int, v as int),
        k < group_size(band_type as int),
    ensures
        l == symbol_level(band_type as int, v as int, k as int),
{
    let v: i32 = v as i32;
    if band_type == 1 {
        (if k == 0 {
            v % 3
        } else if k == 1 {
            v / 3 % 3
        } else {
            v / 9
        }) - 1
    } else if band_type == 2 {
        (if k == 0 {
            v % 5
        } else {
            v / 5
        }) - 2
    } else {
        v
    }
}

/// Decodes the levels of a band and channel; `ctx` picks one of the two codes that small
/// band types have. Noise comes from the generator, and an unknown band type is refused.
pub fn decode_sv7_band(
    tables: &Sv7TableSet,
    reader: &mut Sv7BitReader<'_>,
    band_type: i8,
    cns: &mut CnsPrng,
    ctx: usize,
) -> (r: Result<[i32; SAMPLES_PER_BAND]>)
    requires
        ctx < 2,
    ensures
        final(reader)@.bits == old(reader)@.bits,
        *final(cns) == noise_behind(*old(cns), band_type),
        match (
            parse_levels(
                *tables,
                old(reader)@.bits,
                old(reader)@.pos,
                band_type,
                ctx as int,
                *old(cns),
            ),
            r,
        ) {
            ((Ok(s), p), Ok(v)) => v@ == s && final(reader)@.pos == p,
            ((Err(e), p), Err(f)) => e == f && final(reader)@.pos == p,
            _ => false,
        },
{
    let mut out: [i32; SAMPLES_PER_BAND] = [0;36];
    match band_type_case(band_type) {
        BandDecodeCase::Empty => {
            assert(out@ =~= sv8_band_decode::silence());
            Ok(out)
        },
        BandDecodeCase::Cns => {
            cns.fill_samples(&mut out);
            Ok(out)
        },
        BandDecodeCase::OutOfRange => Err(Error::UnsupportedBandType(band_type)),
        BandDecodeCase::PcmEscape => decode_plain(reader, band_type),
        _ => {
            let symbols: Vec<i8> = decode_symbols(
                tables.rows(band_type, ctx),
                reader,
                band_type,
            )?;
            Ok(spread_symbols(&symbols, band_type))
        },
    }
}

/// The levels of a band, from its symbols.
fn spread_symbols(symbols: &Vec<i8>, band_type: i8) -> (out: [i32; SAMPLES_PER_BAND])
    requires
        has_selector(band_type as int),
        symbols@.len() == symbol_count(band_type as int),
        forall|i: int|
            0 <= i < symbols@.len() ==> is_symbol(band_type as int, #[trigger] symbols@[i] as int),
    ensures
        out@ == levels_of(band_type as int, symbols@),
{
    let mut out: [i32; SAMPLES_PER_BAND] = [0;36];
    let size: usize = match band_type {
        1 => 3,
        2 => 2,
        _ => 1,
    };
    let mut j: usize = 0;
    while j < SAMPLES_PER_BAND
        invariant
            j <= SAMPLES_PER_BAND,
            has_selector(band_type as int),
            size == group_size(band_type as int),
            symbols@.len() == symbol_count(band_type as int),
            forall|i: int|
                0 <= i < symbols@.len() ==> is_symbol(
                    band_type as int,
                    #[trigger] symbols@[i] as int,
                ),
            forall|i: int|
                0 <= i < j ==> #[trigger] out@[i] == levels_of(band_type as int, symbols@)[i],
        decreases SAMPLES_PER_BAND - j,
    {
        assert(0 <= j / size < symbol_count(band_type as int)) by {
            assert(size == 1 || size == 2 || size == 3);
        }
        out[j] = level_of(band_type, symbols[j / size], j % size);
        j = j + 1;
    }
    assert(out@ =~= levels_of(band_type as int, symbols@));
    out
}

/// Reads levels that are written out.
fn decode_plain(reader: &mut Sv7BitReader<'_>, band_type: i8) -> (r: Result<
    [i32; SAMPLES_PER_BAND],
>)
    requires
        8 <= band_type <= 17,
    ensures
        final(reader)@.bits == old(reader)@.bits,
        match (
            coding::sweep(
                plain_step(old(reader)@.bits, band_type as int),
                36,
                Seq::empty(),
                old(reader)@.pos,
            ).parsed(),
            r,
        ) {
            ((Ok(s), p), Ok(v)) => v@ == s && final(reader)@.pos == p,
            ((Err(e), p), Err(f)) => e == f && final(reader)@.pos == p,
            _ => false,
        },
{
    let ghost bits = reader@.bits;
    let ghost step = plain_step(bits, band_type as int);
    let ghost whole = coding::sweep(step, 36, Seq::empty(), reader@.pos);
    let width: u8 = (band_type - 1) as u8;
    let mut out: [i32; SAMPLES_PER_BAND] = [0;36];
    let mut j: usize = 0;
    assert(out@.take(0) =~= Seq::<i32>::empty());
    while j < SAMPLES_PER_BAND
        invariant
            j <= SAMPLES_PER_BAND,
            8 <= band_type <= 17,
            width == band_type - 1,
            reader@.bits == bits,
            bits == old(reader)@.bits,
            step == plain_step(bits, band_type as int),
            whole == coding::sweep(
                plain_step(old(reader)@.bits, band_type as int),
                36,
                Seq::empty(),
                old(reader)@.pos,
            ),
            whole == coding::sweep(step, 36, out@.take(j as int), reader@.pos),
        decreases SAMPLES_PER_BAND - j,
    {
        let ghost here = reader@.pos;
        let ghost done = out@.take(j as int);
        assert(done.len() == j);
        assert(step(done, here) == parse_plain(bits, here, band_type as int));
        let v: u32 = reader.read_bits(width)?;
        proof {
            bits::lemma_value_bound(bits.subrange(here as int, here + width as int));
            lemma_pow2_bounds(band_type as int);
        }
        out[j] = v as i32;
        assert(out@.take(j + 1) =~= done.push(out@[j as int]));
        j = j + 1;
    }
    assert(out@.take(36) =~= out@);
    Ok(out)
}

/// The powers of two of the large band types are small.
pub proof fn lemma_pow2_bounds(band_type: int)
    requires
        8 <= band_type <= 17,
    ensures
        128 <= pow2((band_type - 1) as nat) <= 65536,
{
    lemma2_to64();
    if band_type > 8 {
        lemma_pow2_strictly_increases(7, (band_type - 1) as nat);
    }
    if band_type < 17 {
        lemma_pow2_strictly_increases((band_type - 1) as nat, 16);
    }
}

/// Decodes the selector and the levels of a band and channel.
pub fn decode_sv7_channel(
    tables: &Sv7TableSet,
    reader: &mut Sv7BitReader<'_>,
    band_type: i8,
    cns: &mut CnsPrng,
) -> (r: Result<[i32; SAMPLES_PER_BAND]>)
    ensures
        final(reader)@.bits == old(reader)@.bits,
        r is Ok ==> *final(cns) == noise_behind(*old(cns), band_type),
        r is Err ==> *final(cns) == *old(cns),
        match (
            parse_channel(
                *tables,
                old(reader)@.bits,
                old(reader)@.pos,
                band_type,
                *old(cns),
            ),
            r,
        ) {
            ((Ok(s), p), Ok(v)) => v@ == s && final(reader)@.pos == p,
            ((Err(e), p), Err(f)) => e == f && final(reader)@.pos == p,
            _ => false,
        },
{
    let ghost here = reader@;
    let ctx: usize = if band_type_uses_context_selector(band_type) {
        let bit: u32 = reader.read_bits(1)?;
        proof {
            bits::lemma_value_bound(here.bits.subrange(here.pos as int, here.pos + 1int));
            lemma2_to64();
        }
        bit as usize
    } else {
        0
    };
    decode_sv7_band(tables, reader, band_type, cns, ctx)
}

} // verus!
