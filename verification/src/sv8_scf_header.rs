//! Scalefactor coding methods: which of a band's three scalefactors are coded.

use crate::bit_reader::Sv7BitReader;
use crate::coding;
use crate::coding::Parsed;
use crate::error::{Error, Result};
use crate::sv8_huffman::{table_for_role, Sv8CanonicalTable, Sv8TableRole, Sv8TableSet};
use vstd::prelude::*;

verus! {

/// A symbol of the method code, not yet split into methods.
#[derive(Debug, Clone, Copy, PartialEq, Eq, Structural)]
pub struct RawScfiVlc(pub i8);

impl RawScfiVlc {
    /// Wraps a symbol.
    pub fn from_raw(value: i8) -> (v: Self)
        ensures
            v == RawScfiVlc(value),
    {
        RawScfiVlc(value)
    }

    /// The symbol.
    pub fn as_i8(self) -> (v: i8)
        ensures
            v == self.0,
    {
        self.0
    }
}

/// What a context outside `0..=1` is reported with: no band type and no symbol.
pub const CONTEXT_FAULT_SENTINEL: i8 = -128;

/// The methods of a band's channels.
#[derive(Debug, Clone, Copy, PartialEq, Eq, Structural)]
pub struct Sv8BandScfi {
    /// Method of the left, or of the only coded, channel.
    pub left: u8,
    /// Method of the right channel, where both are coded.
    pub right: u8,
}

/// The step that decodes a symbol in a given context.
pub open spec fn selector_step(tables: Sv8TableSet, bits: Seq<bool>) -> spec_fn(
    u8,
    nat,
) -> Parsed<RawScfiVlc> {
    |ctx: u8, pos: nat|
        if ctx < 2 {
            match tables.table(Sv8TableRole::Scfi, ctx as int).parse(bits, pos) {
                (Ok(s), p) => (Ok(RawScfiVlc(s)), p),
                (Err(e), p) => (Err(e), p),
            }
        } else {
            (Err(Error::UnsupportedBandType(CONTEXT_FAULT_SENTINEL)), pos)
        }
}

/// The symbols of up to `n` bands, in contexts picked by the caller's rule.
pub open spec fn ruled_selectors<F: Fn(RawScfiVlc) -> u8>(
    tables: Sv8TableSet,
    bits: Seq<bool>,
    pos: nat,
    n: nat,
    rule: F,
    initial: u8,
    values: Seq<RawScfiVlc>,
    ctxs: Seq<u8>,
    stops: Seq<nat>,
    end: Parsed<()>,
) -> bool {
    &&& coding::chosen_by(rule, initial, ctxs, values)
    &&& coding::walked(selector_step(tables, bits), ctxs, stops, values, n, end)
    &&& stops[0] == pos
}

/// Decodes the symbols of `nbands` bands. The first is read in the context
/// `initial_ctx`, each later one in the context that the rule picks for the symbol
/// before it; a context other than `0` and `1` is refused.
pub fn decode_scfi_selectors<F: Fn(RawScfiVlc) -> u8>(
    tables: &Sv8TableSet,
    reader: &mut Sv7BitReader<'_>,
    nbands: u8,
    initial_ctx: u8,
    ctx_for_prev_scfi: F,
) -> (r: Result<Vec<RawScfiVlc>>)
    requires
        forall|v: RawScfiVlc| call_requires(ctx_for_prev_scfi, (v,)),
    ensures
        final(reader)@.bits == old(reader)@.bits,
        exists|values: Seq<RawScfiVlc>, ctxs: Seq<u8>, stops: Seq<nat>, end: Parsed<()>|
            {
                &&& #[trigger] ruled_selectors(
                    *tables,
                    old(reader)@.bits,
                    old(reader)@.pos,
                    nbands as nat,
                    ctx_for_prev_scfi,
                    initial_ctx,
                    values,
                    ctxs,
                    stops,
                    end,
                )
                &&& final(reader)@.pos == end.1
                &&& match (r, end.0) {
                    (Ok(v), Ok(_)) => v@ == values,
                    (Err(e), Err(f)) => e == f,
                    _ => false,
                }
            },
{
    let ghost bits = reader@.bits;
    let ghost pos = reader@.pos;
    let ghost step = selector_step(*tables, bits);
    let mut out: Vec<RawScfiVlc> = Vec::new();
    let ghost mut ctxs: Seq<u8> = seq![initial_ctx];
    let ghost mut stops: Seq<nat> = seq![reader@.pos];
    let mut ctx: u8 = initial_ctx;
    let mut i: u8 = 0;
    while i < nbands
        invariant
            i <= nbands,
            forall|v: RawScfiVlc| call_requires(ctx_for_prev_scfi, (v,)),
            reader@.bits == bits,
            bits == old(reader)@.bits,
            pos == old(reader)@.pos,
            step == selector_step(*tables, bits),
            out@.len() == i,
            coding::chosen_by(ctx_for_prev_scfi, initial_ctx, ctxs, out@),
            ctxs.last() == ctx,
            stops.len() == i + 1,
            stops[0] == pos,
            stops.last() == reader@.pos,
            forall|j: int|
                0 <= j < i ==> step(ctxs[j], stops[j]) == (
                    Ok::<RawScfiVlc, Error>(#[trigger] out@[j]),
                    stops[j + 1],
                ),
        decreases nbands - i,
    {
        let ghost before = reader@.pos;
        let decoded: Result<i8> = match table_for_role(tables, Sv8TableRole::Scfi, ctx) {
            Some(table) => table.decode(reader),
            None => Err(Error::UnsupportedBandType(CONTEXT_FAULT_SENTINEL)),
        };
        let raw: RawScfiVlc = match decoded {
            Ok(s) => RawScfiVlc::from_raw(s),
            Err(e) => {
                assert(step(ctx, before) == (Err::<RawScfiVlc, Error>(e), reader@.pos));
                assert(ruled_selectors(
                    *tables,
                    bits,
                    pos,
                    nbands as nat,
                    ctx_for_prev_scfi,
                    initial_ctx,
                    out@,
                    ctxs,
                    stops,
                    (Err(e), reader@.pos),
                ));
                return Err(e);
            },
        };
        assert(step(ctx, before) == (Ok::<RawScfiVlc, Error>(raw), reader@.pos));
        let ghost shorter = out@;
        out.push(raw);
        ctx = ctx_for_prev_scfi(raw);
        proof {
            let more_ctxs = ctxs.push(ctx);
            let more_stops = stops.push(reader@.pos);
            assert forall|j: int| 0 <= j < out@.len() implies step(more_ctxs[j], more_stops[j])
                == (Ok::<RawScfiVlc, Error>(#[trigger] out@[j]), more_stops[j + 1]) by {
                if j < i {
                    assert(out@[j] == shorter[j]);
                }
            }
            assert forall|j: int| 0 <= j < out@.len() implies call_ensures(
                ctx_for_prev_scfi,
                (#[trigger] out@[j],),
                more_ctxs[j + 1],
            ) by {
                if j < i {
                    assert(out@[j] == shorter[j]);
                }
            }
            ctxs = more_ctxs;
            stops = more_stops;
        }
        i = i + 1;
    }
    assert(ruled_selectors(
        *tables,
        bits,
        pos,
        nbands as nat,
        ctx_for_prev_scfi,
        initial_ctx,
        out@,
        ctxs,
        stops,
        (Ok(()), reader@.pos),
    ));
    Ok(out)
}

/// The methods that a symbol stands for. Where both channels are coded it packs two.
pub open spec fn split(symbol: int, both: bool) -> Sv8BandScfi {
    Sv8BandScfi {
        left: (if both {
            symbol / 4 % 4
        } else {
            symbol % 4
        }) as u8,
        right: (symbol % 4) as u8,
    }
}

/// Outcome of decoding the methods of a band with `nonzero` coded channels.
pub open spec fn parse_methods(
    tables: Sv8TableSet,
    bits: Seq<bool>,
    pos: nat,
    nonzero: int,
) -> Parsed<Sv8BandScfi> {
    if nonzero > 2 {
        (Err(Error::ChannelCountInvalid(nonzero as u8)), pos)
    } else {
        let both = nonzero == 2;
        match tables.scfi[if both {
            1int
        } else {
            0int
        }].parse(bits, pos) {
            (Ok(s), p) => (Ok(split(s as int, both)), p),
            (Err(e), p) => (Err(e), p),
        }
    }
}

/// Decodes the methods of a band. Two coded channels share a symbol that packs both
/// methods; else the symbol is the method of the only one. More than two channels are
/// refused.
pub fn decode_sv8_scfi(
    tables: &Sv8TableSet,
    reader: &mut Sv7BitReader<'_>,
    nonzero_channels: u8,
) -> (r: Result<Sv8BandScfi>)
    ensures
        final(reader)@.bits == old(reader)@.bits,
        (r, final(reader)@.pos) == parse_methods(
            *tables,
            old(reader)@.bits,
            old(reader)@.pos,
            nonzero_channels as int,
        ),
        r is Ok ==> r->Ok_0.left < 4 && r->Ok_0.right < 4,
{
    if nonzero_channels > 2 {
        return Err(Error::ChannelCountInvalid(nonzero_channels));
    }
    let both: bool = nonzero_channels == 2;
    let table: &Sv8CanonicalTable = if both { &tables.scfi[1] } else { &tables.scfi[0] };
    let symbol: i8 = table.decode(reader)?;
    let byte: u8 = if symbol < 0 { (symbol as i16 + 256) as u8 } else { symbol as u8 };
    let left: u8 = if both { byte / 4 % 4 } else { byte % 4 };
    Ok(Sv8BandScfi { left, right: byte % 4 })
}

} // verus!
