//! The head of a frame body: the used-band count, the band types and the mid/side
//! flags.

use crate::bit_reader::Sv7BitReader;
use crate::coding;
use crate::coding::{Parsed, Swept};
use crate::combinadic;
use crate::error::{Error, Result};
use crate::phased;
use crate::sv8_context;
use crate::sv8_huffman::{table_for_role, Sv8CanonicalTable, Sv8TableRole, Sv8TableSet};
use vstd::prelude::*;

verus! {

/// Most bands that a frame can code.
pub const SV8_MAX_USED_SUBBANDS: u8 = 32;

/// What a context outside `0..=1` is reported with: no band type and no symbol.
pub const CONTEXT_FAULT_SENTINEL: i8 = -128;

/// A symbol of the resolution code, not yet a band type.
#[derive(Debug, Clone, Copy, PartialEq, Eq, Structural)]
pub struct RawResVlc(pub i8);

impl RawResVlc {
    /// Wraps a symbol.
    pub fn from_raw(value: i8) -> (v: Self)
        ensures
            v == RawResVlc(value),
    {
        RawResVlc(value)
    }

    /// The symbol.
    pub fn as_i8(self) -> (v: i8)
        ensures
            v == self.0,
    {
        self.0
    }

    /// True where the symbol is not zero.
    pub fn is_nonzero(self) -> (b: bool)
        ensures
            b == (self.0 != 0),
    {
        self.0 != 0
    }
}

// ---------------------------------------------------------------------------
// The used-band count
// ---------------------------------------------------------------------------

/// Outcome of decoding a used-band count outright.
pub open spec fn parse_count(tables: Sv8TableSet, bits: Seq<bool>, pos: nat) -> Parsed<u8> {
    match tables.bands.parse(bits, pos) {
        (Ok(s), p) => if 0 <= s <= 32 {
            (Ok(s as u8), p)
        } else {
            (Err(Error::MaxBandOutOfRange(sv8_context::magnitude(s as int) as u8)), p)
        },
        (Err(e), p) => (Err(e), p),
    }
}

/// Decodes a used-band count outright. A symbol outside `0..=32` is refused.
pub fn decode_used_subbands(tables: &Sv8TableSet, reader: &mut Sv7BitReader<'_>) -> (r: Result<u8>)
    ensures
        final(reader)@.bits == old(reader)@.bits,
        (r, final(reader)@.pos) == parse_count(*tables, old(reader)@.bits, old(reader)@.pos),
{
    let symbol: i8 = tables.bands.decode(reader)?;
    if symbol < 0 {
        return Err(Error::MaxBandOutOfRange((-(symbol as i16)) as u8));
    }
    if symbol as u8 > SV8_MAX_USED_SUBBANDS {
        return Err(Error::MaxBandOutOfRange(symbol as u8));
    }
    Ok(symbol as u8)
}

/// Decodes a value out of a space of `max`.
pub fn decode_log_code(reader: &mut Sv7BitReader<'_>, max: u32) -> (r: Result<u32>)
    requires
        max <= 0x8000_0000,
    ensures
        final(reader)@.bits == old(reader)@.bits,
        (r, final(reader)@.pos) == phased::parse(old(reader)@.bits, old(reader)@.pos, max as nat),
{
    phased::read_value(reader, max)
}

/// Outcome of decoding the used-band count of a key frame, in a stream whose highest
/// band is `max_band`.
pub open spec fn parse_key_count(bits: Seq<bool>, pos: nat, max_band: u8) -> Parsed<u8> {
    match phased::parse(bits, pos, (max_band + 2) as nat) {
        (Ok(v), p) => (Ok(v as u8), p),
        (Err(e), p) => (Err(e), p),
    }
}

/// Decodes the used-band count of a key frame: a value out of the space
/// `0..=max_band + 1`.
pub fn decode_keyframe_max_used_band(reader: &mut Sv7BitReader<'_>, max_band: u8) -> (r: Result<u8>)
    ensures
        final(reader)@.bits == old(reader)@.bits,
        (r, final(reader)@.pos) == parse_key_count(
            old(reader)@.bits,
            old(reader)@.pos,
            max_band,
        ),
        r is Ok && max_band < 255 ==> r->Ok_0 <= max_band + 1,
{
    let ghost start = reader@;
    let value: u32 = decode_log_code(reader, max_band as u32 + 2)?;
    proof {
        phased::lemma_writes_back(start.bits, start.pos, (max_band + 2) as nat);
    }
    Ok(value as u8)
}

/// The count that a frame's symbol makes of the count before it, on a ring of 33.
pub open spec fn next_count(last: int, symbol: int) -> int {
    if last + symbol > 32 {
        last + symbol - 33
    } else {
        last + symbol
    }
}

/// Outcome of decoding the used-band count of a frame that follows one with `last`.
pub open spec fn parse_next_count(
    tables: Sv8TableSet,
    bits: Seq<bool>,
    pos: nat,
    last: u8,
) -> Parsed<u8> {
    match tables.bands.parse(bits, pos) {
        (Ok(s), p) => {
            let v = next_count(last as int, s as int);
            if 0 <= v <= 32 {
                (Ok(v as u8), p)
            } else {
                (Err(Error::MaxBandOutOfRange(sv8_context::magnitude(v) as u8)), p)
            }
        },
        (Err(e), p) => (Err(e), p),
    }
}

/// Decodes the used-band count of a frame that follows one with `last_max_band`. A
/// count that stays outside `0..=32` is refused.
pub fn decode_nonkey_max_used_band(
    tables: &Sv8TableSet,
    reader: &mut Sv7BitReader<'_>,
    last_max_band: u8,
) -> (r: Result<u8>)
    ensures
        final(reader)@.bits == old(reader)@.bits,
        (r, final(reader)@.pos) == parse_next_count(
            *tables,
            old(reader)@.bits,
            old(reader)@.pos,
            last_max_band,
        ),
        r is Ok ==> r->Ok_0 <= 32,
{
    let delta: i8 = tables.bands.decode(reader)?;
    let mut value: i32 = last_max_band as i32 + delta as i32;
    if value > 32 {
        value = value - 33;
    }
    if value < 0 {
        return Err(Error::MaxBandOutOfRange((-value) as u8));
    }
    if value > 32 {
        return Err(Error::MaxBandOutOfRange(value as u8));
    }
    Ok(value as u8)
}

// ---------------------------------------------------------------------------
// Mid/side flags
// ---------------------------------------------------------------------------

/// Outcome of decoding the mid/side flags of `n` bands, the lowest band first.
pub open spec fn parse_ms_flags(bits: Seq<bool>, pos: nat, n: nat) -> Parsed<Seq<bool>> {
    if n == 0 {
        (Ok(Seq::empty()), pos)
    } else {
        match phased::parse(bits, pos, n + 1) {
            (Ok(cnt), p) => combinadic::parse_set(bits, p, cnt as nat, n),
            (Err(e), p) => (Err(e), p),
        }
    }
}

/// Decodes the mid/side flags of `tot` bands: how many are set, then which. The first
/// flag is the lowest band's.
pub fn decode_sv8_ms_flags(reader: &mut Sv7BitReader<'_>, tot: u8) -> (r: Result<Vec<bool>>)
    requires
        tot <= 32,
    ensures
        final(reader)@.bits == old(reader)@.bits,
        match (parse_ms_flags(old(reader)@.bits, old(reader)@.pos, tot as nat), r) {
            ((Ok(s), p), Ok(v)) => v@ == s && s.len() == tot && final(reader)@.pos == p,
            ((Err(e), p), Err(f)) => e == f && final(reader)@.pos == p,
            _ => false,
        },
{
    if tot == 0 {
        return Ok(Vec::new());
    }
    let ghost start = reader@;
    let cnt: u32 = decode_log_code(reader, tot as u32 + 1)?;
    proof {
        phased::lemma_writes_back(start.bits, start.pos, (tot + 1) as nat);
    }
    combinadic::decode_set(reader, cnt, tot as u32)
}

// ---------------------------------------------------------------------------
// Band types
// ---------------------------------------------------------------------------

/// The step that decodes a symbol in a given context.
pub open spec fn symbol_step(tables: Sv8TableSet, bits: Seq<bool>) -> spec_fn(
    u8,
    nat,
) -> Parsed<RawResVlc> {
    |ctx: u8, pos: nat|
        if ctx < 2 {
            match tables.table(Sv8TableRole::Res, ctx as int).parse(bits, pos) {
                (Ok(s), p) => (Ok(RawResVlc(s)), p),
                (Err(e), p) => (Err(e), p),
            }
        } else {
            (Err(Error::UnsupportedBandType(CONTEXT_FAULT_SENTINEL)), pos)
        }
}

/// The symbols of up to `n` bands, in contexts picked by the caller's rule.
pub open spec fn ruled_symbols<F: Fn(RawResVlc) -> u8>(
    tables: Sv8TableSet,
    bits: Seq<bool>,
    pos: nat,
    n: nat,
    rule: F,
    initial: u8,
    values: Seq<RawResVlc>,
    ctxs: Seq<u8>,
    stops: Seq<nat>,
    end: Parsed<()>,
) -> bool {
    &&& coding::chosen_by(rule, initial, ctxs, values)
    &&& coding::walked(symbol_step(tables, bits), ctxs, stops, values, n, end)
    &&& stops[0] == pos
}

/// Decodes the symbols of `nbands` bands, the lowest band first. The first is read in
/// the context `initial_ctx`, each later one in the context that the rule picks for
/// the symbol before it; a context other than `0` and `1` is refused.
pub fn decode_band_resolutions<F: Fn(RawResVlc) -> u8>(
    tables: &Sv8TableSet,
    reader: &mut Sv7BitReader<'_>,
    nbands: u8,
    initial_ctx: u8,
    ctx_for_prev_res: F,
) -> (r: Result<Vec<RawResVlc>>)
    requires
        forall|v: RawResVlc| call_requires(ctx_for_prev_res, (v,)),
    ensures
        final(reader)@.bits == old(reader)@.bits,
        exists|values: Seq<RawResVlc>, ctxs: Seq<u8>, stops: Seq<nat>, end: Parsed<()>|
            {
                &&& #[trigger] ruled_symbols(
                    *tables,
                    old(reader)@.bits,
                    old(reader)@.pos,
                    nbands as nat,
                    ctx_for_prev_res,
                    initial_ctx,
                    values,
                    ctxs,
                    stops,
                    end,
                )
                &&& final(reader)@.pos == end.1
                &&& match (r, end.0) {
                    (Ok(v), Ok(_)) => v@ == values,
                    (Err(e), Err(f)) => e == f,
                    _ => false,
                }
            },
{
    let ghost bits = reader@.bits;
    let ghost pos = reader@.pos;
    let ghost step = symbol_step(*tables, bits);
    let mut out: Vec<RawResVlc> = Vec::new();
    let ghost mut ctxs: Seq<u8> = seq![initial_ctx];
    let ghost mut stops: Seq<nat> = seq![reader@.pos];
    let mut ctx: u8 = initial_ctx;
    let mut i: u8 = 0;
    while i < nbands
        invariant
            i <= nbands,
            forall|v: RawResVlc| call_requires(ctx_for_prev_res, (v,)),
            reader@.bits == bits,
            bits == old(reader)@.bits,
            pos == old(reader)@.pos,
            step == symbol_step(*tables, bits),
            out@.len() == i,
            coding::chosen_by(ctx_for_prev_res, initial_ctx, ctxs, out@),
            ctxs.last() == ctx,
            stops.len() == i + 1,
            stops[0] == pos,
            stops.last() == reader@.pos,
            forall|j: int|
                0 <= j < i ==> step(ctxs[j], stops[j]) == (
                    Ok::<RawResVlc, Error>(#[trigger] out@[j]),
                    stops[j + 1],
                ),
        decreases nbands - i,
    {
        let ghost before = reader@.pos;
        let decoded: Result<i8> = match table_for_role(tables, Sv8TableRole::Res, ctx) {
            Some(table) => table.decode(reader),
            None => Err(Error::UnsupportedBandType(CONTEXT_FAULT_SENTINEL)),
        };
        let raw: RawResVlc = match decoded {
            Ok(s) => RawResVlc::from_raw(s),
            Err(e) => {
                assert(step(ctx, before) == (Err::<RawResVlc, Error>(e), reader@.pos));
                assert(ruled_symbols(
                    *tables,
                    bits,
                    pos,
                    nbands as nat,
                    ctx_for_prev_res,
                    initial_ctx,
                    out@,
                    ctxs,
                    stops,
                    (Err(e), reader@.pos),
                ));
                return Err(e);
            },
        };
        assert(step(ctx, before) == (Ok::<RawResVlc, Error>(raw), reader@.pos));
        let ghost shorter = out@;
        out.push(raw);
        ctx = ctx_for_prev_res(raw);
        proof {
            let more_ctxs = ctxs.push(ctx);
            let more_stops = stops.push(reader@.pos);
            assert forall|j: int| 0 <= j < out@.len() implies step(more_ctxs[j], more_stops[j])
                == (Ok::<RawResVlc, Error>(#[trigger] out@[j]), more_stops[j + 1]) by {
                if j < i {
                    assert(out@[j] == shorter[j]);
                }
            }
            assert forall|j: int| 0 <= j < out@.len() implies call_ensures(
                ctx_for_prev_res,
                (#[trigger] out@[j],),
                more_ctxs[j + 1],
            ) by {
                if j < i {
                    assert(out@[j] == shorter[j]);
                }
            }
            ctxs = more_ctxs;
            stops = more_stops;
        }
        i = i + 1;
    }
    assert(ruled_symbols(
        *tables,
        bits,
        pos,
        nbands as nat,
        ctx_for_prev_res,
        initial_ctx,
        out@,
        ctxs,
        stops,
        (Ok(()), reader@.pos),
    ));
    Ok(out)
}

/// A sum of band types, taken back to the ring of 17 that ends at 15.
pub open spec fn on_ring(v: int) -> i8 {
    if v > 15 {
        (v - 17) as i8
    } else {
        v as i8
    }
}

/// The context under a band of type `above`; the top band has no band above.
pub open spec fn context_under(above: Option<i8>) -> int {
    match above {
        Some(a) => if a > 2 {
            1
        } else {
            0
        },
        None => 0,
    }
}

/// Outcome of decoding the type of a band under one of type `above`.
pub open spec fn parse_type(
    tables: Sv8TableSet,
    bits: Seq<bool>,
    pos: nat,
    above: Option<i8>,
) -> Parsed<i8> {
    match tables.res[context_under(above)].parse(bits, pos) {
        (Ok(s), p) => match above {
            Some(a) => (Ok(on_ring(s + a)), p),
            None => (Ok(on_ring(s as int)), p),
        },
        (Err(e), p) => (Err(e), p),
    }
}

/// The type of the band decoded last.
pub open spec fn band_above(done: Seq<i8>) -> Option<i8> {
    if done.len() == 0 {
        None
    } else {
        Some(done.last())
    }
}

/// The types of the two channels' bands decoded last.
pub open spec fn pair_above(done: Seq<[i8; 2]>, ch: int) -> Option<i8> {
    if done.len() == 0 {
        None
    } else {
        Some(done.last()[ch])
    }
}

/// The steps that decode the types of one channel, from the top band down.
pub open spec fn type_step(tables: Sv8TableSet, bits: Seq<bool>) -> spec_fn(
    Seq<i8>,
    nat,
) -> Parsed<i8> {
    |done: Seq<i8>, pos: nat| parse_type(tables, bits, pos, band_above(done))
}

/// Outcome of decoding the types of a band's two channels, the left one first.
pub open spec fn parse_type_pair(
    tables: Sv8TableSet,
    bits: Seq<bool>,
    pos: nat,
    left: Option<i8>,
    right: Option<i8>,
) -> Parsed<[i8; 2]> {
    match parse_type(tables, bits, pos, left) {
        (Ok(l), p) => match parse_type(tables, bits, p, right) {
            (Ok(r), q) => (Ok([l, r]), q),
            (Err(e), q) => (Err(e), q),
        },
        (Err(e), p) => (Err(e), p),
    }
}

/// The steps that decode the types of two channels, from the top band down.
pub open spec fn type_pair_step(tables: Sv8TableSet, bits: Seq<bool>) -> spec_fn(
    Seq<[i8; 2]>,
    nat,
) -> Parsed<[i8; 2]> {
    |done: Seq<[i8; 2]>, pos: nat|
        parse_type_pair(tables, bits, pos, pair_above(done, 0), pair_above(done, 1))
}

/// The types of `n` bands of one channel, from the top band down.
pub open spec fn types_down(tables: Sv8TableSet, bits: Seq<bool>, pos: nat, n: nat) -> Swept<i8> {
    coding::sweep(type_step(tables, bits), n, Seq::empty(), pos)
}

/// The types of `n` bands of two channels, from the top band down.
pub open spec fn type_pairs_down(tables: Sv8TableSet, bits: Seq<bool>, pos: nat, n: nat) -> Swept<
    [i8; 2],
> {
    coding::sweep(type_pair_step(tables, bits), n, Seq::empty(), pos)
}

/// Outcome of decoding the types of `n` bands of one channel, the lowest band first.
pub open spec fn parse_types(tables: Sv8TableSet, bits: Seq<bool>, pos: nat, n: nat) -> Parsed<
    Seq<i8>,
> {
    match types_down(tables, bits, pos, n).parsed() {
        (Ok(s), p) => (Ok(s.reverse()), p),
        (Err(e), p) => (Err(e), p),
    }
}

/// Outcome of decoding the types of `n` bands of two channels, the lowest band first.
pub open spec fn parse_type_pairs(
    tables: Sv8TableSet,
    bits: Seq<bool>,
    pos: nat,
    n: nat,
) -> Parsed<Seq<[i8; 2]>> {
    match type_pairs_down(tables, bits, pos, n).parsed() {
        (Ok(s), p) => (Ok(s.reverse()), p),
        (Err(e), p) => (Err(e), p),
    }
}

/// A sum of band types, taken back to the ring of 17 that ends at 15.
pub fn wrap_res(v: i32) -> (t: i8)
    ensures
        t == on_ring(v as int),
{
    if v > 15 {
        (v - 17) as i8
    } else {
        v as i8
    }
}

/// The context under a band of type `above`.
pub fn res_ctx_for_above(above: i8) -> (c: u8)
    ensures
        c == context_under(Some(above)),
{
    if above > 2 {
        1
    } else {
        0
    }
}

/// Decodes the type of a band under one of type `above`.
fn decode_type(
    tables: &Sv8TableSet,
    reader: &mut Sv7BitReader<'_>,
    above: Option<i8>,
) -> (r: Result<i8>)
    ensures
        final(reader)@.bits == old(reader)@.bits,
        (r, final(reader)@.pos) == parse_type(
            *tables,
            old(reader)@.bits,
            old(reader)@.pos,
            above,
        ),
{
    let ctx: u8 = match above {
        Some(a) => res_ctx_for_above(a),
        None => 0,
    };
    let table: &Sv8CanonicalTable = &tables.res[ctx as usize];
    let raw: i32 = table.decode(reader)? as i32;
    Ok(
        match above {
            Some(a) => wrap_res(raw + a as i32),
            None => wrap_res(raw),
        },
    )
}

/// A sequence in reverse order.
fn reversed<A: Copy>(v: &Vec<A>) -> (out: Vec<A>)
    ensures
        out@ == v@.reverse(),
{
    let mut out: Vec<A> = Vec::new();
    let mut i: usize = v.len();
    while i > 0
        invariant
            i <= v@.len(),
            out@.len() == v@.len() - i,
            forall|j: int| 0 <= j < out@.len() ==> out@[j] == v@[v@.len() - 1 - j],
        decreases i,
    {
        i = i - 1;
        out.push(v[i]);
    }
    assert(out@ =~= v@.reverse());
    out
}

/// Decodes the types of `nbands` bands of one channel, from the top band down: each is
/// added to the type above it. The result starts with the lowest band.
pub fn decode_band_resolutions_grounded(
    tables: &Sv8TableSet,
    reader: &mut Sv7BitReader<'_>,
    nbands: u8,
) -> (r: Result<Vec<i8>>)
    ensures
        final(reader)@.bits == old(reader)@.bits,
        match (parse_types(*tables, old(reader)@.bits, old(reader)@.pos, nbands as nat), r) {
            ((Ok(s), p), Ok(v)) => v@ == s && s.len() == nbands && final(reader)@.pos == p,
            ((Err(e), p), Err(f)) => e == f && final(reader)@.pos == p,
            _ => false,
        },
{
    let ghost bits = reader@.bits;
    let ghost step = type_step(*tables, bits);
    let ghost whole = types_down(*tables, bits, reader@.pos, nbands as nat);
    let mut down: Vec<i8> = Vec::new();
    let mut above: Option<i8> = None;
    let mut i: u8 = 0;
    while i < nbands
        invariant
            i <= nbands,
            down@.len() == i,
            above == band_above(down@),
            reader@.bits == bits,
            bits == old(reader)@.bits,
            step == type_step(*tables, bits),
            whole == types_down(*tables, old(reader)@.bits, old(reader)@.pos, nbands as nat),
            whole == coding::sweep(step, nbands as nat, down@, reader@.pos),
        decreases nbands - i,
    {
        let t: i8 = decode_type(tables, reader, above)?;
        down.push(t);
        above = Some(t);
        i = i + 1;
    }
    Ok(reversed(&down))
}

/// Decodes the types of `nbands` bands of two channels, from the top band down and the
/// left channel first; each channel adds up its own types. The result starts with the
/// lowest band.
pub fn decode_band_resolutions_stereo_grounded(
    tables: &Sv8TableSet,
    reader: &mut Sv7BitReader<'_>,
    nbands: u8,
) -> (r: Result<Vec<[i8; 2]>>)
    ensures
        final(reader)@.bits == old(reader)@.bits,
        match (parse_type_pairs(*tables, old(reader)@.bits, old(reader)@.pos, nbands as nat), r) {
            ((Ok(s), p), Ok(v)) => v@ == s && s.len() == nbands && final(reader)@.pos == p,
            ((Err(e), p), Err(f)) => e == f && final(reader)@.pos == p,
            _ => false,
        },
{
    let ghost bits = reader@.bits;
    let ghost step = type_pair_step(*tables, bits);
    let ghost whole = type_pairs_down(*tables, bits, reader@.pos, nbands as nat);
    let mut down: Vec<[i8; 2]> = Vec::new();
    let mut left: Option<i8> = None;
    let mut right: Option<i8> = None;
    let mut i: u8 = 0;
    while i < nbands
        invariant
            i <= nbands,
            down@.len() == i,
            left == pair_above(down@, 0),
            right == pair_above(down@, 1),
            reader@.bits == bits,
            bits == old(reader)@.bits,
            step == type_pair_step(*tables, bits),
            whole == type_pairs_down(*tables, old(reader)@.bits, old(reader)@.pos, nbands as nat),
            whole == coding::sweep(step, nbands as nat, down@, reader@.pos),
        decreases nbands - i,
    {
        let l: i8 = decode_type(tables, reader, left)?;
        let r: i8 = decode_type(tables, reader, right)?;
        down.push([l, r]);
        left = Some(l);
        right = Some(r);
        i = i + 1;
    }
    Ok(reversed(&down))
}

} // verus!
