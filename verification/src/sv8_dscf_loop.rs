//! Scalefactor differences, and the scalefactors that they add up to.

use crate::bit_reader;
use crate::bit_reader::Sv7BitReader;
use crate::bits;
use crate::coding;
use crate::coding::Parsed;
use crate::error::{Error, Result};
use crate::sv8_huffman::{table_for_role, Sv8TableRole, Sv8TableSet};
use vstd::arithmetic::power2::*;
use vstd::prelude::*;

verus! {

/// A symbol of the difference code, not yet a difference.
#[derive(Debug, Clone, Copy, PartialEq, Eq, Structural)]
pub struct RawDscfVlc(pub i8);

impl RawDscfVlc {
    /// Wraps a symbol.
    pub fn from_raw(value: i8) -> (v: Self)
        ensures
            v == RawDscfVlc(value),
    {
        RawDscfVlc(value)
    }

    /// The symbol.
    pub fn as_i8(self) -> (v: i8)
        ensures
            v == self.0,
    {
        self.0
    }
}

/// What a context outside `0..=1` is reported with: no band type and no symbol.
pub const CONTEXT_FAULT_SENTINEL: i8 = -128;

/// Scalefactors per band and channel, one for each third of a frame.
pub const SCF_GRANULES_PER_BAND: usize = 3;

/// The symbol that announces a difference of 64 and more, before a frame's first
/// scalefactor of a band.
pub const DSCF2_ESCAPE_SYMBOL: i8 = 64;

/// The symbol that announces a difference of 64 and more, before a later scalefactor.
pub const DSCF1_ESCAPE_SYMBOL: i8 = 31;

/// Raw bits behind an announcing symbol.
pub const DSCF_ESCAPE_RAW_BITS: u8 = 6;

/// Bits of a scalefactor that is coded outright.
pub const DSCF_NEWBLOCK_ABS_BITS: u8 = 7;

// ---------------------------------------------------------------------------
// Differences in contexts that the caller picks
// ---------------------------------------------------------------------------

/// The step that decodes a symbol in a given context.
pub open spec fn delta_step(tables: Sv8TableSet, bits: Seq<bool>) -> spec_fn(
    u8,
    nat,
) -> Parsed<RawDscfVlc> {
    |ctx: u8, pos: nat|
        if ctx < 2 {
            match tables.table(Sv8TableRole::Dscf, ctx as int).parse(bits, pos) {
                (Ok(s), p) => (Ok(RawDscfVlc(s)), p),
                (Err(e), p) => (Err(e), p),
            }
        } else {
            (Err(Error::UnsupportedBandType(CONTEXT_FAULT_SENTINEL)), pos)
        }
}

/// How many symbols the first `b` bands have together.
pub open spec fn total(counts: Seq<u8>, b: int) -> nat
    decreases b,
{
    if b <= 0 {
        0
    } else {
        total(counts, b - 1) + counts[b - 1] as nat
    }
}

/// The symbols of all bands in a row, in contexts picked by the caller's rule.
pub open spec fn ruled_deltas<F: Fn(RawDscfVlc) -> u8>(
    tables: Sv8TableSet,
    bits: Seq<bool>,
    pos: nat,
    n: nat,
    rule: F,
    initial: u8,
    values: Seq<RawDscfVlc>,
    ctxs: Seq<u8>,
    stops: Seq<nat>,
    end: Parsed<()>,
) -> bool {
    &&& coding::chosen_by(rule, initial, ctxs, values)
    &&& coding::walked(delta_step(tables, bits), ctxs, stops, values, n, end)
    &&& stops[0] == pos
}

/// `bands` holds `values` band by band, `counts[b]` of them for band `b`.
pub open spec fn dealt(
    bands: Seq<Vec<RawDscfVlc>>,
    counts: Seq<u8>,
    values: Seq<RawDscfVlc>,
) -> bool {
    &&& bands.len() <= counts.len()
    &&& total(counts, bands.len() as int) <= values.len()
    &&& forall|b: int|
        0 <= b < bands.len() ==> (#[trigger] bands[b])@ == values.subrange(
            total(counts, b) as int,
            total(counts, b + 1) as int,
        )
}

pub proof fn lemma_total_grows(counts: Seq<u8>, a: int, b: int)
    requires
        0 <= a <= b,
    ensures
        total(counts, a) <= total(counts, b),
    decreases b - a,
{
    if a < b {
        lemma_total_grows(counts, a, b - 1);
    }
}

/// What was dealt stays dealt when values are added.
proof fn lemma_dealt_push(
    bands: Seq<Vec<RawDscfVlc>>,
    counts: Seq<u8>,
    values: Seq<RawDscfVlc>,
    v: RawDscfVlc,
)
    requires
        dealt(bands, counts, values),
    ensures
        dealt(bands, counts, values.push(v)),
{
    assert forall|b: int| 0 <= b < bands.len() implies (#[trigger] bands[b])@ == values.push(
        v,
    ).subrange(total(counts, b) as int, total(counts, b + 1) as int) by {
        lemma_total_grows(counts, b, b + 1);
        lemma_total_grows(counts, b + 1, bands.len() as int);
        assert(values.push(v).subrange(total(counts, b) as int, total(counts, b + 1) as int)
            =~= values.subrange(total(counts, b) as int, total(counts, b + 1) as int));
    }
}

/// Decodes `deltas_per_band[b]` symbols for each band `b`. The first of all is read in
/// the context `initial_ctx`, each later one in the context that the rule picks for
/// the symbol before it, across bands; a context other than `0` and `1` is refused.
pub fn decode_dscf_deltas<F: Fn(RawDscfVlc) -> u8>(
    tables: &Sv8TableSet,
    reader: &mut Sv7BitReader<'_>,
    deltas_per_band: &[u8],
    initial_ctx: u8,
    ctx_for_prev_dscf: F,
) -> (r: Result<Vec<Vec<RawDscfVlc>>>)
    requires
        forall|v: RawDscfVlc| call_requires(ctx_for_prev_dscf, (v,)),
    ensures
        final(reader)@.bits == old(reader)@.bits,
        exists|values: Seq<RawDscfVlc>, ctxs: Seq<u8>, stops: Seq<nat>, end: Parsed<()>|
            {
                &&& #[trigger] ruled_deltas(
                    *tables,
                    old(reader)@.bits,
                    old(reader)@.pos,
                    total(deltas_per_band@, deltas_per_band@.len() as int),
                    ctx_for_prev_dscf,
                    initial_ctx,
                    values,
                    ctxs,
                    stops,
                    end,
                )
                &&& final(reader)@.pos == end.1
                &&& match (r, end.0) {
                    (Ok(v), Ok(_)) => v@.len() == deltas_per_band@.len() && dealt(
                        v@,
                        deltas_per_band@,
                        values,
                    ),
                    (Err(e), Err(f)) => e == f,
                    _ => false,
                }
            },
{
    let ghost bits = reader@.bits;
    let ghost pos = reader@.pos;
    let ghost counts = deltas_per_band@;
    let ghost n = total(counts, counts.len() as int);
    let ghost step = delta_step(*tables, bits);
    let mut out: Vec<Vec<RawDscfVlc>> = Vec::new();
    let ghost mut values: Seq<RawDscfVlc> = Seq::empty();
    let ghost mut ctxs: Seq<u8> = seq![initial_ctx];
    let ghost mut stops: Seq<nat> = seq![reader@.pos];
    let mut ctx: u8 = initial_ctx;
    let mut b: usize = 0;
    while b < deltas_per_band.len()
        invariant
            b <= counts.len(),
            counts == deltas_per_band@,
            n == total(counts, counts.len() as int),
            forall|v: RawDscfVlc| call_requires(ctx_for_prev_dscf, (v,)),
            reader@.bits == bits,
            bits == old(reader)@.bits,
            pos == old(reader)@.pos,
            step == delta_step(*tables, bits),
            out@.len() == b,
            values.len() == total(counts, b as int),
            dealt(out@, counts, values),
            coding::chosen_by(ctx_for_prev_dscf, initial_ctx, ctxs, values),
            ctxs.last() == ctx,
            stops.len() == values.len() + 1,
            stops[0] == pos,
            stops.last() == reader@.pos,
            forall|j: int|
                0 <= j < values.len() ==> step(ctxs[j], stops[j]) == (
                    Ok::<RawDscfVlc, Error>(#[trigger] values[j]),
                    stops[j + 1],
                ),
        decreases counts.len() - b,
    {
        let count: u8 = deltas_per_band[b];
        let mut band: Vec<RawDscfVlc> = Vec::new();
        let mut i: u8 = 0;
        while i < count
            invariant
                i <= count,
                b < counts.len(),
                count == counts[b as int],
                counts == deltas_per_band@,
                n == total(counts, counts.len() as int),
                forall|v: RawDscfVlc| call_requires(ctx_for_prev_dscf, (v,)),
                reader@.bits == bits,
                bits == old(reader)@.bits,
                pos == old(reader)@.pos,
                step == delta_step(*tables, bits),
                out@.len() == b,
                values.len() == total(counts, b as int) + i,
                dealt(out@, counts, values),
                band@ == values.subrange(total(counts, b as int) as int, values.len() as int),
                coding::chosen_by(ctx_for_prev_dscf, initial_ctx, ctxs, values),
                ctxs.last() == ctx,
                stops.len() == values.len() + 1,
                stops[0] == pos,
                stops.last() == reader@.pos,
                forall|j: int|
                    0 <= j < values.len() ==> step(ctxs[j], stops[j]) == (
                        Ok::<RawDscfVlc, Error>(#[trigger] values[j]),
                        stops[j + 1],
                    ),
            decreases count - i,
        {
            let ghost before = reader@.pos;
            proof {
                lemma_total_grows(counts, b + 1, counts.len() as int);
            }
            let decoded: Result<i8> = match table_for_role(tables, Sv8TableRole::Dscf, ctx) {
                Some(table) => table.decode(reader),
                None => Err(Error::UnsupportedBandType(CONTEXT_FAULT_SENTINEL)),
            };
            let raw: RawDscfVlc = match decoded {
                Ok(s) => RawDscfVlc::from_raw(s),
                Err(e) => {
                    assert(step(ctx, before) == (Err::<RawDscfVlc, Error>(e), reader@.pos));
                    assert(ruled_deltas(
                        *tables,
                        bits,
                        pos,
                        n,
                        ctx_for_prev_dscf,
                        initial_ctx,
                        values,
                        ctxs,
                        stops,
                        (Err(e), reader@.pos),
                    ));
                    return Err(e);
                },
            };
            assert(step(ctx, before) == (Ok::<RawDscfVlc, Error>(raw), reader@.pos));
            band.push(raw);
            ctx = ctx_for_prev_dscf(raw);
            proof {
                let longer = values.push(raw);
                let more_ctxs = ctxs.push(ctx);
                let more_stops = stops.push(reader@.pos);
                assert forall|j: int| 0 <= j < longer.len() implies step(
                    more_ctxs[j],
                    more_stops[j],
                ) == (Ok::<RawDscfVlc, Error>(#[trigger] longer[j]), more_stops[j + 1]) by {
                    if j < values.len() {
                        assert(longer[j] == values[j]);
                    }
                }
                assert forall|j: int| 0 <= j < longer.len() implies call_ensures(
                    ctx_for_prev_dscf,
                    (#[trigger] longer[j],),
                    more_ctxs[j + 1],
                ) by {
                    if j < values.len() {
                        assert(longer[j] == values[j]);
                    }
                }
                lemma_dealt_push(out@, counts, values, raw);
                let from = total(counts, b as int) as int;
                assert(band@ =~= longer.subrange(from, longer.len() as int));
                values = longer;
                ctxs = more_ctxs;
                stops = more_stops;
            }
            i = i + 1;
        }
        let ghost dealt_bands = out@;
        out.push(band);
        proof {
            assert forall|c: int| 0 <= c < out@.len() implies (#[trigger] out@[c])@
                == values.subrange(total(counts, c) as int, total(counts, c + 1) as int) by {
                if c < b {
                    assert(out@[c] == dealt_bands[c]);
                }
            }
        }
        b = b + 1;
    }
    assert(ruled_deltas(
        *tables,
        bits,
        pos,
        n,
        ctx_for_prev_dscf,
        initial_ctx,
        values,
        ctxs,
        stops,
        (Ok(()), reader@.pos),
    ));
    Ok(out)
}

// ---------------------------------------------------------------------------
// Scalefactors
// ---------------------------------------------------------------------------

/// The scalefactor `delta` steps on from `prev`, on a ring of 128 from -6 up.
pub open spec fn fold(prev: int, delta: int) -> int {
    (prev - 25 + delta) % 128 - 6
}

/// The method codes scalefactor `g`; else it repeats the one before.
pub open spec fn is_coded(scfi: int, g: int) -> bool {
    if g == 0 {
        true
    } else if g == 1 {
        scfi == 0 || scfi == 1
    } else {
        scfi == 0 || scfi == 2
    }
}

/// Outcome of decoding the difference before a frame's first scalefactor of a band.
pub open spec fn parse_first_delta(tables: Sv8TableSet, bits: Seq<bool>, pos: nat) -> Parsed<i32> {
    match tables.dscf[1].parse(bits, pos) {
        (Ok(s), p) => if s == DSCF2_ESCAPE_SYMBOL {
            match bit_reader::read_field(bits, p, 6) {
                (Ok(raw), q) => (Ok((64 + raw) as i32), q),
                (Err(e), q) => (Err(e), q),
            }
        } else {
            (Ok(s as i32), p)
        },
        (Err(e), p) => (Err(e), p),
    }
}

/// Outcome of decoding the difference before a later scalefactor.
pub open spec fn parse_later_delta(tables: Sv8TableSet, bits: Seq<bool>, pos: nat) -> Parsed<i32> {
    match tables.dscf[0].parse(bits, pos) {
        (Ok(s), p) => if s == DSCF1_ESCAPE_SYMBOL {
            match bit_reader::read_field(bits, p, 6) {
                (Ok(raw), q) => (Ok((64 + raw) as i32), q),
                (Err(e), q) => (Err(e), q),
            }
        } else {
            (Ok(s as i32), p)
        },
        (Err(e), p) => (Err(e), p),
    }
}

/// Outcome of decoding the first scalefactor: outright in a new block, else from `prev`.
pub open spec fn parse_first(
    tables: Sv8TableSet,
    bits: Seq<bool>,
    pos: nat,
    new_block: bool,
    prev: int,
) -> Parsed<i32> {
    if new_block {
        match bit_reader::read_field(bits, pos, 7) {
            (Ok(raw), p) => (Ok((raw - 6) as i32), p),
            (Err(e), p) => (Err(e), p),
        }
    } else {
        match parse_first_delta(tables, bits, pos) {
            (Ok(d), p) => (Ok(fold(prev, d as int) as i32), p),
            (Err(e), p) => (Err(e), p),
        }
    }
}

/// Outcome of decoding a later scalefactor, or repeating `prev`.
pub open spec fn parse_later(
    tables: Sv8TableSet,
    bits: Seq<bool>,
    pos: nat,
    coded: bool,
    prev: i32,
) -> Parsed<i32> {
    if coded {
        match parse_later_delta(tables, bits, pos) {
            (Ok(d), p) => (Ok(fold(prev as int, d as int) as i32), p),
            (Err(e), p) => (Err(e), p),
        }
    } else {
        (Ok(prev), pos)
    }
}

/// Outcome of decoding the three scalefactors of a band and channel.
pub open spec fn parse_band_scf(
    tables: Sv8TableSet,
    bits: Seq<bool>,
    pos: nat,
    scfi: u8,
    new_block: bool,
    prev: int,
) -> Parsed<[i32; 3]> {
    if scfi > 3 {
        (Err(Error::InvalidScfCodingMethod(scfi as i8)), pos)
    } else {
        match parse_first(tables, bits, pos, new_block, prev) {
            (Err(e), p) => (Err(e), p),
            (Ok(a), p) => match parse_later(tables, bits, p, is_coded(scfi as int, 1), a) {
                (Err(e), q) => (Err(e), q),
                (Ok(b), q) => match parse_later(tables, bits, q, is_coded(scfi as int, 2), b) {
                    (Err(e), s) => (Err(e), s),
                    (Ok(c), s) => (Ok([a, b, c]), s),
                },
            },
        }
    }
}

/// The scalefactor `delta` steps on from `prev`.
pub fn dscf_fold(prev: i32, delta: i32) -> (s: i32)
    ensures
        s == fold(prev as int, delta as int),
        -6 <= s <= 121,
{
    let sum: i64 = prev as i64 - 25 + delta as i64;
    let lifted: u64 = (sum + 0x2_0000_0000) as u64;
    (lifted % 128) as i32 - 6
}

/// Reads the raw bits behind an announcing symbol.
fn read_escape(reader: &mut Sv7BitReader<'_>) -> (r: Result<i32>)
    ensures
        final(reader)@.bits == old(reader)@.bits,
        match bit_reader::read_field(old(reader)@.bits, old(reader)@.pos, 6) {
            (Ok(raw), q) => r == Ok::<i32, Error>((64 + raw) as i32) && final(reader)@.pos == q
                && raw < 64,
            (Err(e), q) => r == Err::<i32, Error>(e) && final(reader)@.pos == q,
        },
{
    let ghost here = reader@;
    let raw: u32 = reader.read_bits(DSCF_ESCAPE_RAW_BITS)?;
    proof {
        bits::lemma_value_bound(here.bits.subrange(here.pos as int, here.pos + 6int));
        lemma2_to64();
    }
    Ok(64 + raw as i32)
}

/// Decodes the difference before a frame's first scalefactor of a band.
fn read_dscf0_delta(tables: &Sv8TableSet, reader: &mut Sv7BitReader<'_>) -> (r: Result<i32>)
    ensures
        final(reader)@.bits == old(reader)@.bits,
        (r, final(reader)@.pos) == parse_first_delta(
            *tables,
            old(reader)@.bits,
            old(reader)@.pos,
        ),
{
    let symbol: i8 = tables.dscf[1].decode(reader)?;
    if symbol == DSCF2_ESCAPE_SYMBOL {
        read_escape(reader)
    } else {
        Ok(symbol as i32)
    }
}

/// Decodes the difference before a later scalefactor.
fn read_dscf_later_delta(tables: &Sv8TableSet, reader: &mut Sv7BitReader<'_>) -> (r: Result<i32>)
    ensures
        final(reader)@.bits == old(reader)@.bits,
        (r, final(reader)@.pos) == parse_later_delta(
            *tables,
            old(reader)@.bits,
            old(reader)@.pos,
        ),
{
    let symbol: i8 = tables.dscf[0].decode(reader)?;
    if symbol == DSCF1_ESCAPE_SYMBOL {
        read_escape(reader)
    } else {
        Ok(symbol as i32)
    }
}

/// Which of the three scalefactors the method `scfi` codes. Methods above 3 are refused.
pub fn scfi_coded_granules(scfi: u8) -> (r: Result<[bool; SCF_GRANULES_PER_BAND]>)
    ensures
        match r {
            Ok(c) => scfi <= 3 && forall|g: int|
                0 <= g < 3 ==> #[trigger] c@[g] == is_coded(scfi as int, g),
            Err(e) => scfi > 3 && e == Error::InvalidScfCodingMethod(scfi as i8),
        },
{
    match scfi {
        0 => Ok([true, true, true]),
        1 => Ok([true, true, false]),
        2 => Ok([true, false, true]),
        3 => Ok([true, false, false]),
        _ => Err(Error::InvalidScfCodingMethod(scfi as i8)),
    }
}

/// Decodes the three scalefactors of a band and channel. `prev_scf2` is the last
/// scalefactor that the channel had in the band; a new block does not need it.
pub fn decode_sv8_band_scf(
    tables: &Sv8TableSet,
    reader: &mut Sv7BitReader<'_>,
    scfi: u8,
    new_block: bool,
    prev_scf2: i32,
) -> (r: Result<[i32; SCF_GRANULES_PER_BAND]>)
    ensures
        final(reader)@.bits == old(reader)@.bits,
        (r, final(reader)@.pos) == parse_band_scf(
            *tables,
            old(reader)@.bits,
            old(reader)@.pos,
            scfi,
            new_block,
            prev_scf2 as int,
        ),
        r is Ok ==> forall|g: int| 0 <= g < 3 ==> -6 <= #[trigger] r->Ok_0@[g] <= 121,
{
    let coded: [bool; SCF_GRANULES_PER_BAND] = scfi_coded_granules(scfi)?;
    assert(coded@[1] == is_coded(scfi as int, 1) && coded@[2] == is_coded(scfi as int, 2));
    let scf0: i32 = if new_block {
        let ghost here = reader@;
        let raw: u32 = reader.read_bits(DSCF_NEWBLOCK_ABS_BITS)?;
        proof {
            bits::lemma_value_bound(here.bits.subrange(here.pos as int, here.pos + 7int));
            lemma2_to64();
        }
        raw as i32 - 6
    } else {
        let delta: i32 = read_dscf0_delta(tables, reader)?;
        dscf_fold(prev_scf2, delta)
    };
    let scf1: i32 = if coded[1] {
        let delta: i32 = read_dscf_later_delta(tables, reader)?;
        dscf_fold(scf0, delta)
    } else {
        scf0
    };
    let scf2: i32 = if coded[2] {
        let delta: i32 = read_dscf_later_delta(tables, reader)?;
        dscf_fold(scf1, delta)
    } else {
        scf1
    };
    Ok([scf0, scf1, scf2])
}

} // verus!
