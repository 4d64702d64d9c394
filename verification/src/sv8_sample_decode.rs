//! Decoders for the sample arms: each turns the code words of one band and channel
//! into 36 levels.

use crate::bit_reader;
use crate::bit_reader::Sv7BitReader;
use crate::bits;
use crate::cns::SAMPLES_PER_BAND;
use crate::coding;
use crate::coding::{Parsed, Swept};
use crate::combinadic;
use crate::error::{Error, Result};
use crate::sv8_context;
use crate::sv8_context::Sv8Context;
use crate::sv8_huffman::{table_for_role, Sv8CanonicalTable, Sv8TableRole, Sv8TableSet};
use vstd::arithmetic::power2::*;
use vstd::prelude::*;

verus! {

/// Code words of a band that packs three samples into each.
pub const GROUPED3_CODEWORDS_PER_BAND: usize = 12;

/// Code words of a band that packs two samples into each.
pub const GROUPED2_CODEWORDS_PER_BAND: usize = 18;

/// Bits of a large level that its code word carries.
pub const ESCAPE_VLC_SYMBOL_BITS: u8 = 8;

/// Samples in each half of a sparse band.
pub const SPARSE_GROUP_SIZE: usize = 18;

// ---------------------------------------------------------------------------
// What the code words mean
// ---------------------------------------------------------------------------

/// A signed byte as the byte with the same bits.
pub open spec fn as_byte(v: int) -> int {
    v % 256
}

/// The low four bits of a byte, as a signed number.
pub open spec fn signed_nibble(n: int) -> int {
    if n % 16 >= 8 {
        n % 16 - 16
    } else {
        n % 16
    }
}

/// Sample `d` of a packed pair.
pub open spec fn pair_digit(symbol: int, d: int) -> int {
    if d == 0 {
        signed_nibble(as_byte(symbol))
    } else {
        signed_nibble(as_byte(symbol) / 16)
    }
}

/// A symbol that packs three samples of magnitude at most two.
pub open spec fn is_triple(symbol: int) -> bool {
    0 <= symbol <= 124
}

/// A symbol that packs two samples of magnitude at most `bound`.
pub open spec fn is_pair(symbol: int, bound: int) -> bool {
    -bound <= pair_digit(symbol, 0) <= bound && -bound <= pair_digit(symbol, 1) <= bound
}

/// The samples of packed triples, in order.
pub open spec fn spread3(symbols: Seq<i8>) -> Seq<i8> {
    Seq::new(
        3 * symbols.len(),
        |j: int| sv8_context::triple_digit(symbols[j / 3] as int, j % 3) as i8,
    )
}

/// The samples of packed pairs, in order.
pub open spec fn spread2(symbols: Seq<i8>) -> Seq<i8> {
    Seq::new(2 * symbols.len(), |j: int| pair_digit(symbols[j / 2] as int, j % 2) as i8)
}

/// The code that a band type of `3..=8` reads its samples from.
pub open spec fn sample_role(band_type: int) -> Sv8TableRole {
    if band_type == 3 {
        Sv8TableRole::Q3
    } else if band_type == 4 {
        Sv8TableRole::Q4
    } else if band_type == 5 {
        Sv8TableRole::Q5
    } else if band_type == 6 {
        Sv8TableRole::Q6
    } else if band_type == 7 {
        Sv8TableRole::Q7
    } else {
        Sv8TableRole::Q8
    }
}

// ---------------------------------------------------------------------------
// Outcomes of the single steps
// ---------------------------------------------------------------------------

/// Outcome of decoding one packed triple.
pub open spec fn parse_triple(t: Sv8CanonicalTable, bits: Seq<bool>, pos: nat) -> Parsed<i8> {
    match t.parse(bits, pos) {
        (Ok(s), p) => if is_triple(s as int) {
            (Ok(s), p)
        } else {
            (Err(Error::GroupedSymbolOutOfRange(s)), p)
        },
        (Err(e), p) => (Err(e), p),
    }
}

/// Outcome of decoding one packed pair.
pub open spec fn parse_pair(
    t: Sv8CanonicalTable,
    bits: Seq<bool>,
    pos: nat,
    bound: int,
) -> Parsed<i8> {
    match t.parse(bits, pos) {
        (Ok(s), p) => if is_pair(s as int, bound) {
            (Ok(s), p)
        } else {
            (Err(Error::GroupedSymbolOutOfRange(s)), p)
        },
        (Err(e), p) => (Err(e), p),
    }
}

/// Outcome of decoding one large level with `n` raw bits: the symbol's bits above,
/// the raw bits below.
pub open spec fn parse_escape(t: Sv8CanonicalTable, bits: Seq<bool>, pos: nat, n: nat) -> Parsed<
    i32,
> {
    match t.parse(bits, pos) {
        (Ok(s), p) => match bit_reader::read_field(bits, p, n) {
            (Ok(raw), q) => (Ok((s * pow2(n) + raw) as i32), q),
            (Err(e), q) => (Err(e), q),
        },
        (Err(e), p) => (Err(e), p),
    }
}

/// Outcome of decoding the sign of a sample where its flag is set.
pub open spec fn parse_sign(flag: bool, bits: Seq<bool>, pos: nat) -> Parsed<i8> {
    if flag {
        match bit_reader::read_field(bits, pos, 1) {
            (Ok(b), p) => (Ok((2 * b - 1) as i8), p),
            (Err(e), p) => (Err(e), p),
        }
    } else {
        (Ok(0), pos)
    }
}

/// The steps that decode the signs of a group.
pub open spec fn sign_step(bits: Seq<bool>, flags: Seq<bool>) -> spec_fn(Seq<i8>, nat) -> Parsed<
    i8,
> {
    |done: Seq<i8>, pos: nat| parse_sign(flags[done.len() as int], bits, pos)
}

/// Outcome of decoding the samples of a sparse group of which `cnt` are set. The first
/// sample is the one at the highest position of the set.
pub open spec fn parse_group_samples(bits: Seq<bool>, pos: nat, cnt: nat) -> Parsed<Seq<i8>> {
    match combinadic::parse_set(bits, pos, cnt, SPARSE_GROUP_SIZE as nat) {
        (Ok(flags), p) => coding::sweep(
            sign_step(bits, flags),
            SPARSE_GROUP_SIZE as nat,
            Seq::empty(),
            p,
        ).parsed(),
        (Err(e), p) => (Err(e), p),
    }
}

/// Outcome of decoding a sparse group.
pub open spec fn parse_group(t: Sv8CanonicalTable, bits: Seq<bool>, pos: nat) -> Parsed<Seq<i8>> {
    match t.parse(bits, pos) {
        (Ok(cnt), p) => if 0 <= cnt <= SPARSE_GROUP_SIZE {
            parse_group_samples(bits, p, cnt as nat)
        } else {
            (Err(Error::GroupedSymbolOutOfRange(cnt)), p)
        },
        (Err(e), p) => (Err(e), p),
    }
}

// ---------------------------------------------------------------------------
// The steps of a band
// ---------------------------------------------------------------------------

/// The steps of a sparse band.
pub open spec fn group_step(t: Sv8CanonicalTable, bits: Seq<bool>) -> spec_fn(
    Seq<Seq<i8>>,
    nat,
) -> Parsed<Seq<i8>> {
    |done: Seq<Seq<i8>>, pos: nat| parse_group(t, bits, pos)
}

/// The steps of a band of packed triples in one context.
pub open spec fn triple_step(t: Sv8CanonicalTable, bits: Seq<bool>) -> spec_fn(
    Seq<i8>,
    nat,
) -> Parsed<i8> {
    |done: Seq<i8>, pos: nat| parse_triple(t, bits, pos)
}

/// The steps of a band of packed triples in the running context.
pub open spec fn triple_context_step(tables: Sv8TableSet, bits: Seq<bool>) -> spec_fn(
    Seq<i8>,
    nat,
) -> Parsed<i8> {
    |done: Seq<i8>, pos: nat|
        parse_triple(
            tables.table(Sv8TableRole::Q2, sv8_context::after_triples(3, done).table()),
            bits,
            pos,
        )
}

/// The steps of a band of packed pairs.
pub open spec fn pair_step(tables: Sv8TableSet, bits: Seq<bool>, band_type: int) -> spec_fn(
    Seq<i8>,
    nat,
) -> Parsed<i8> {
    |done: Seq<i8>, pos: nat|
        parse_pair(tables.table(sample_role(band_type), 0), bits, pos, band_type)
}

/// The step of a band that codes every sample on its own, in a given context.
pub open spec fn sample_step(tables: Sv8TableSet, bits: Seq<bool>, band_type: int) -> spec_fn(
    u8,
    nat,
) -> Parsed<i8> {
    |ctx: u8, pos: nat|
        if ctx < 2 {
            tables.table(sample_role(band_type), ctx as int).parse(bits, pos)
        } else {
            (Err(Error::UnsupportedBandType(band_type as i8)), pos)
        }
}

/// The steps of such a band in the running context.
pub open spec fn sample_context_step(
    tables: Sv8TableSet,
    bits: Seq<bool>,
    band_type: int,
) -> spec_fn(Seq<i8>, nat) -> Parsed<i8> {
    |done: Seq<i8>, pos: nat|
        tables.table(
            sample_role(band_type),
            sv8_context::after_samples(
                sv8_context::threshold(band_type)->0 as nat,
                done,
            ).table(),
        ).parse(bits, pos)
}

/// The steps of a band of large levels with `n` raw bits each.
pub open spec fn escape_step(t: Sv8CanonicalTable, bits: Seq<bool>, n: nat) -> spec_fn(
    Seq<i32>,
    nat,
) -> Parsed<i32> {
    |done: Seq<i32>, pos: nat| parse_escape(t, bits, pos, n)
}

// ---------------------------------------------------------------------------
// The bands
// ---------------------------------------------------------------------------

/// The two halves of a sparse band.
pub open spec fn sparse_band(tables: Sv8TableSet, bits: Seq<bool>, pos: nat) -> Swept<Seq<i8>> {
    coding::sweep(group_step(tables.q1, bits), 2, Seq::empty(), pos)
}

/// A sparse half's samples by position: the last of the set's positions comes first.
pub open spec fn by_position(halves: Seq<Seq<i8>>) -> Seq<i8> {
    Seq::new(18 * halves.len(), |j: int| halves[j / 18][17 - j % 18])
}

/// A band of packed triples in one context.
pub open spec fn triple_band(t: Sv8CanonicalTable, bits: Seq<bool>, pos: nat) -> Swept<i8> {
    coding::sweep(
        triple_step(t, bits),
        GROUPED3_CODEWORDS_PER_BAND as nat,
        Seq::empty(),
        pos,
    )
}

/// A band of packed triples in the running context.
pub open spec fn triple_context_band(tables: Sv8TableSet, bits: Seq<bool>, pos: nat) -> Swept<i8> {
    coding::sweep(
        triple_context_step(tables, bits),
        GROUPED3_CODEWORDS_PER_BAND as nat,
        Seq::empty(),
        pos,
    )
}

/// A band of packed pairs.
pub open spec fn pair_band(
    tables: Sv8TableSet,
    bits: Seq<bool>,
    pos: nat,
    band_type: int,
) -> Swept<i8> {
    coding::sweep(
        pair_step(tables, bits, band_type),
        GROUPED2_CODEWORDS_PER_BAND as nat,
        Seq::empty(),
        pos,
    )
}

/// A band that codes every sample on its own, in the running context.
pub open spec fn sample_band(
    tables: Sv8TableSet,
    bits: Seq<bool>,
    pos: nat,
    band_type: int,
) -> Swept<i8> {
    coding::sweep(
        sample_context_step(tables, bits, band_type),
        SAMPLES_PER_BAND as nat,
        Seq::empty(),
        pos,
    )
}

/// A band of large levels.
pub open spec fn escape_band(
    tables: Sv8TableSet,
    bits: Seq<bool>,
    pos: nat,
    band_type: int,
) -> Swept<i32> {
    coding::sweep(
        escape_step(tables.q9up, bits, (band_type - 9) as nat),
        SAMPLES_PER_BAND as nat,
        Seq::empty(),
        pos,
    )
}

// ---------------------------------------------------------------------------
// Decoders
// ---------------------------------------------------------------------------

/// Raw bits of a large level; `None` outside the band types `9..=17`.
pub fn escape_raw_bits(band_type: i8) -> (n: Option<u8>)
    ensures
        n == if 9 <= band_type <= 17 {
            Some((band_type - 9) as u8)
        } else {
            None
        },
{
    if 9 <= band_type && band_type <= 17 {
        Some((band_type - 1) as u8 - ESCAPE_VLC_SYMBOL_BITS)
    } else {
        None
    }
}

/// The low four bits of `n` as a signed number.
fn sign_extend_nibble(n: u8) -> (v: i8)
    ensures
        v == signed_nibble(n as int),
{
    let low: i8 = (n % 16) as i8;
    if low >= 8 {
        low - 16
    } else {
        low
    }
}

/// Splits a packed triple into its samples, the lowest digit first.
pub fn unpack_grouped3_symbol(symbol: i8) -> (r: Result<[i8; 3]>)
    ensures
        match r {
            Ok(s) => {
                &&& is_triple(symbol as int)
                &&& forall|d: int|
                    0 <= d < 3 ==> #[trigger] s@[d] == sv8_context::triple_digit(symbol as int, d)
            },
            Err(e) => !is_triple(symbol as int) && e == Error::GroupedSymbolOutOfRange(symbol),
        },
{
    if symbol < 0 || symbol > 124 {
        return Err(Error::GroupedSymbolOutOfRange(symbol));
    }
    let s: u8 = symbol as u8;
    Ok([(s % 5) as i8 - 2, (s / 5 % 5) as i8 - 2, (s / 25) as i8 - 2])
}

/// Splits a packed pair into its samples, the low nibble first. The band type is the
/// bound on the samples' magnitude.
pub fn unpack_grouped2_symbol(symbol: i8, band_type: i8) -> (r: Result<[i8; 2]>)
    ensures
        match r {
            Ok(s) => {
                &&& 3 <= band_type <= 4
                &&& is_pair(symbol as int, band_type as int)
                &&& forall|d: int|
                    0 <= d < 2 ==> #[trigger] s@[d] == pair_digit(symbol as int, d)
            },
            Err(e) => if 3 <= band_type <= 4 {
                !is_pair(symbol as int, band_type as int) && e == Error::GroupedSymbolOutOfRange(
                    symbol,
                )
            } else {
                e == Error::UnsupportedBandType(band_type)
            },
        },
{
    if band_type != 3 && band_type != 4 {
        return Err(Error::UnsupportedBandType(band_type));
    }
    let byte: u8 = if symbol < 0 { (symbol as i16 + 256) as u8 } else { symbol as u8 };
    let lo: i8 = sign_extend_nibble(byte);
    let hi: i8 = sign_extend_nibble(byte / 16);
    if lo < -band_type || lo > band_type || hi < -band_type || hi > band_type {
        return Err(Error::GroupedSymbolOutOfRange(symbol));
    }
    Ok([lo, hi])
}

/// Decodes the samples of a sparse group of which `cnt` are set, by position.
fn decode_sparse_group(reader: &mut Sv7BitReader<'_>, cnt: u8) -> (r: Result<
    [i8; SPARSE_GROUP_SIZE],
>)
    requires
        cnt <= SPARSE_GROUP_SIZE,
    ensures
        final(reader)@.bits == old(reader)@.bits,
        match (parse_group_samples(old(reader)@.bits, old(reader)@.pos, cnt as nat), r) {
            ((Ok(s), p), Ok(g)) => {
                &&& final(reader)@.pos == p
                &&& s.len() == SPARSE_GROUP_SIZE
                &&& forall|i: int| 0 <= i < SPARSE_GROUP_SIZE ==> #[trigger] g@[i] == s[17 - i]
            },
            ((Err(e), p), Err(f)) => e == f && final(reader)@.pos == p,
            _ => false,
        },
{
    let ghost bits = reader@.bits;
    let flags: Vec<bool> = combinadic::decode_set(reader, cnt as u32, 18)?;
    let ghost start = reader@.pos;
    let ghost step = sign_step(bits, flags@);
    let ghost whole = coding::sweep(step, 18, Seq::<i8>::empty(), start);
    let mut out: [i8; SPARSE_GROUP_SIZE] = [0;18];
    let ghost mut done: Seq<i8> = Seq::empty();
    let mut i: usize = 0;
    while i < 18
        invariant
            i <= 18,
            reader@.bits == bits,
            bits == old(reader)@.bits,
            flags@.len() == 18,
            step == sign_step(bits, flags@),
            done.len() == i,
            forall|j: int| 0 <= j < i ==> #[trigger] done[j] == out@[17 - j],
            whole == coding::sweep(step, 18, done, reader@.pos),
            parse_group_samples(old(reader)@.bits, old(reader)@.pos, cnt as nat)
                == whole.parsed(),
        decreases 18 - i,
    {
        let mut v: i8 = 0;
        if flags[i] {
            let ghost here = reader@;
            let b: u32 = reader.read_bits(1)?;
            proof {
                bits::lemma_value_bound(here.bits.subrange(here.pos as int, here.pos + 1int));
                lemma2_to64();
            }
            v = 2 * (b as i8) - 1;
        }
        proof {
            done = done.push(v);
        }
        out[17 - i] = v;
        i = i + 1;
    }
    Ok(out)
}

/// Decodes a sparse band. Each half's samples stand by position, so the last set
/// position of a half is decoded first. A half is written once it is decoded whole.
pub fn decode_sv8_sparse_band(
    tables: &Sv8TableSet,
    reader: &mut Sv7BitReader<'_>,
    out: &mut [i8; SAMPLES_PER_BAND],
) -> (r: Result<()>)
    ensures
        final(reader)@.bits == old(reader)@.bits,
        final(reader)@.pos == sparse_band(*tables, old(reader)@.bits, old(reader)@.pos).pos,
        r == sparse_band(*tables, old(reader)@.bits, old(reader)@.pos).result,
        final(out)@ == coding::overwritten(
            old(out)@,
            by_position(sparse_band(*tables, old(reader)@.bits, old(reader)@.pos).done),
        ),
{
    let ghost bits = reader@.bits;
    let ghost whole = sparse_band(*tables, bits, reader@.pos);
    let ghost step = group_step(tables.q1, bits);
    let ghost before = out@;
    let ghost mut done: Seq<Seq<i8>> = Seq::empty();
    let mut h: usize = 0;
    assert(out@ =~= coding::overwritten(before, by_position(done)));
    while h < 2
        invariant
            h <= 2,
            done.len() == h,
            reader@.bits == bits,
            bits == old(reader)@.bits,
            before == old(out)@,
            step == group_step(tables.q1, bits),
            whole == sparse_band(*tables, old(reader)@.bits, old(reader)@.pos),
            whole == coding::sweep(step, 2, done, reader@.pos),
            out@ == coding::overwritten(before, by_position(done)),
        decreases 2 - h,
    {
        let cnt: i8 = tables.q1.decode(reader)?;
        if cnt < 0 || cnt > 18 {
            return Err(Error::GroupedSymbolOutOfRange(cnt));
        }
        let ghost here = reader@.pos;
        let group: [i8; SPARSE_GROUP_SIZE] = decode_sparse_group(reader, cnt as u8)?;
        let ghost s = parse_group_samples(bits, here, cnt as nat).0->Ok_0;
        let ghost filled = out@;
        let mut i: usize = 0;
        while i < 18
            invariant
                i <= 18,
                h < 2,
                filled.len() == 36,
                out@.len() == 36,
                forall|j: int| 0 <= j < 18 * h + i && j >= 18 * h ==> out@[j] == group@[j - 18 * h],
                forall|j: int|
                    0 <= j < 36 && (j < 18 * h || j >= 18 * h + i) ==> out@[j] == filled[j],
            decreases 18 - i,
        {
            out[18 * h + i] = group[i];
            i = i + 1;
        }
        proof {
            let next = done.push(s);
            assert forall|j: int| 0 <= j < 36 implies out@[j] == coding::overwritten(
                before,
                by_position(next),
            )[j] by {
                assert(filled[j] == coding::overwritten(before, by_position(done))[j]);
                if j < 18 * h {
                    assert(next[j / 18] == done[j / 18]);
                } else if j < 18 * h + 18 {
                    assert(j / 18 == h && j % 18 == j - 18 * h);
                    assert(out@[j] == group@[j - 18 * h]);
                }
            }
            assert(out@ =~= coding::overwritten(before, by_position(next)));
            done = next;
        }
        h = h + 1;
    }
    Ok(())
}

/// Decodes a band of packed triples in the context `ctx`. The triples decoded before a
/// failure are written.
pub fn decode_sv8_grouped3_band(
    tables: &Sv8TableSet,
    reader: &mut Sv7BitReader<'_>,
    ctx: u8,
    out: &mut [i8; SAMPLES_PER_BAND],
) -> (r: Result<()>)
    ensures
        final(reader)@.bits == old(reader)@.bits,
        ctx >= 2 ==> r == Err::<(), Error>(Error::UnsupportedBandType(2)) && final(reader)@.pos
            == old(reader)@.pos && final(out)@ == old(out)@,
        ctx < 2 ==> ({
            let band = triple_band(
                tables.table(Sv8TableRole::Q2, ctx as int),
                old(reader)@.bits,
                old(reader)@.pos,
            );
            &&& r == band.result
            &&& final(reader)@.pos == band.pos
            &&& final(out)@ == coding::overwritten(old(out)@, spread3(band.done))
        }),
{
    let table: &Sv8CanonicalTable = match table_for_role(tables, Sv8TableRole::Q2, ctx) {
        Some(t) => t,
        None => return Err(Error::UnsupportedBandType(2)),
    };
    let ghost bits = reader@.bits;
    let ghost whole = triple_band(*table, bits, reader@.pos);
    let ghost step = triple_step(*table, bits);
    let ghost mut done: Seq<i8> = Seq::empty();
    let mut g: usize = 0;
    assert(out@ =~= coding::overwritten(old(out)@, spread3(done)));
    while g < 12
        invariant
            g <= 12,
            ctx < 2,
            *table == tables.table(Sv8TableRole::Q2, ctx as int),
            done.len() == g,
            reader@.bits == bits,
            bits == old(reader)@.bits,
            step == triple_step(*table, bits),
            whole == triple_band(*table, old(reader)@.bits, old(reader)@.pos),
            whole == coding::sweep(step, 12, done, reader@.pos),
            out@ == coding::overwritten(old(out)@, spread3(done)),
        decreases 12 - g,
    {
        let symbol: i8 = table.decode(reader)?;
        let three: [i8; 3] = unpack_grouped3_symbol(symbol)?;
        put3(out, g, three, Ghost(old(out)@), Ghost(done), symbol);
        proof {
            done = done.push(symbol);
        }
        g = g + 1;
    }
    Ok(())
}

/// Writes the samples of triple `g` behind those of the triples `done`.
fn put3(
    out: &mut [i8; SAMPLES_PER_BAND],
    g: usize,
    three: [i8; 3],
    before: Ghost<Seq<i8>>,
    done: Ghost<Seq<i8>>,
    symbol: i8,
)
    requires
        g < 12,
        done@.len() == g,
        before@.len() == 36,
        old(out)@ == coding::overwritten(before@, spread3(done@)),
        forall|d: int|
            0 <= d < 3 ==> #[trigger] three@[d] == sv8_context::triple_digit(symbol as int, d),
    ensures
        final(out)@ == coding::overwritten(before@, spread3(done@.push(symbol))),
{
    out[3 * g] = three[0];
    out[3 * g + 1] = three[1];
    out[3 * g + 2] = three[2];
    proof {
        let next = done@.push(symbol);
        assert forall|j: int| 0 <= j < 36 implies out@[j] == coding::overwritten(
            before@,
            spread3(next),
        )[j] by {
            if j < 3 * g {
                assert(next[j / 3] == done@[j / 3]);
                assert(old(out)@[j] == spread3(done@)[j]);
            } else if j < 3 * g + 3 {
                assert(j / 3 == g && j % 3 == j - 3 * g);
                assert(out@[j] == three@[j - 3 * g]);
            }
        }
        assert(out@ =~= coding::overwritten(before@, spread3(next)));
    }
}

/// Decodes a band of packed triples in the running context. The triples decoded
/// before a failure are written.
pub fn decode_sv8_grouped3_band_grounded(
    tables: &Sv8TableSet,
    reader: &mut Sv7BitReader<'_>,
    out: &mut [i8; SAMPLES_PER_BAND],
) -> (r: Result<()>)
    ensures
        final(reader)@.bits == old(reader)@.bits,
        final(reader)@.pos == triple_context_band(
            *tables,
            old(reader)@.bits,
            old(reader)@.pos,
        ).pos,
        r == triple_context_band(*tables, old(reader)@.bits, old(reader)@.pos).result,
        final(out)@ == coding::overwritten(
            old(out)@,
            spread3(triple_context_band(*tables, old(reader)@.bits, old(reader)@.pos).done),
        ),
{
    let mut ctx: Sv8Context = match Sv8Context::new(2) {
        Some(c) => c,
        None => return Err(Error::UnsupportedBandType(2)),
    };
    let ghost bits = reader@.bits;
    let ghost whole = triple_context_band(*tables, bits, reader@.pos);
    let ghost step = triple_context_step(*tables, bits);
    let ghost mut done: Seq<i8> = Seq::empty();
    let mut g: usize = 0;
    assert(out@ =~= coding::overwritten(old(out)@, spread3(done)));
    while g < 12
        invariant
            g <= 12,
            done.len() == g,
            ctx@ == sv8_context::after_triples(3, done),
            reader@.bits == bits,
            bits == old(reader)@.bits,
            step == triple_context_step(*tables, bits),
            whole == triple_context_band(*tables, old(reader)@.bits, old(reader)@.pos),
            whole == coding::sweep(step, 12, done, reader@.pos),
            out@ == coding::overwritten(old(out)@, spread3(done)),
        decreases 12 - g,
    {
        let table: &Sv8CanonicalTable = match table_for_role(
            tables,
            Sv8TableRole::Q2,
            ctx.table_ctx(),
        ) {
            Some(t) => t,
            None => return Err(Error::UnsupportedBandType(2)),
        };
        let symbol: i8 = table.decode(reader)?;
        let three: [i8; 3] = unpack_grouped3_symbol(symbol)?;
        put3(out, g, three, Ghost(old(out)@), Ghost(done), symbol);
        ctx.update_group(symbol as i32);
        proof {
            assert(done.push(symbol).drop_last() =~= done);
            done = done.push(symbol);
        }
        g = g + 1;
    }
    Ok(())
}

/// Decodes a band of packed pairs. The pairs decoded before a failure are written.
pub fn decode_sv8_grouped2_band(
    tables: &Sv8TableSet,
    reader: &mut Sv7BitReader<'_>,
    band_type: i8,
    out: &mut [i8; SAMPLES_PER_BAND],
) -> (r: Result<()>)
    ensures
        final(reader)@.bits == old(reader)@.bits,
        !(3 <= band_type <= 4) ==> r == Err::<(), Error>(Error::UnsupportedBandType(band_type))
            && final(reader)@.pos == old(reader)@.pos && final(out)@ == old(out)@,
        3 <= band_type <= 4 ==> ({
            let band = pair_band(*tables, old(reader)@.bits, old(reader)@.pos, band_type as int);
            &&& r == band.result
            &&& final(reader)@.pos == band.pos
            &&& final(out)@ == coding::overwritten(old(out)@, spread2(band.done))
        }),
{
    let table: &Sv8CanonicalTable = match band_type {
        3 => &tables.q3,
        4 => &tables.q4,
        _ => return Err(Error::UnsupportedBandType(band_type)),
    };
    let ghost bits = reader@.bits;
    let ghost whole = pair_band(*tables, bits, reader@.pos, band_type as int);
    let ghost step = pair_step(*tables, bits, band_type as int);
    let ghost mut done: Seq<i8> = Seq::empty();
    let mut g: usize = 0;
    assert(out@ =~= coding::overwritten(old(out)@, spread2(done)));
    while g < 18
        invariant
            g <= 18,
            3 <= band_type <= 4,
            *table == tables.table(sample_role(band_type as int), 0),
            done.len() == g,
            reader@.bits == bits,
            bits == old(reader)@.bits,
            step == pair_step(*tables, bits, band_type as int),
            whole == pair_band(*tables, old(reader)@.bits, old(reader)@.pos, band_type as int),
            whole == coding::sweep(step, 18, done, reader@.pos),
            out@ == coding::overwritten(old(out)@, spread2(done)),
        decreases 18 - g,
    {
        let symbol: i8 = table.decode(reader)?;
        let two: [i8; 2] = unpack_grouped2_symbol(symbol, band_type)?;
        let ghost filled = out@;
        out[2 * g] = two[0];
        out[2 * g + 1] = two[1];
        proof {
            let next = done.push(symbol);
            assert forall|j: int| 0 <= j < 36 implies out@[j] == coding::overwritten(
                old(out)@,
                spread2(next),
            )[j] by {
                if j < 2 * g {
                    assert(next[j / 2] == done[j / 2]);
                    assert(filled[j] == spread2(done)[j]);
                } else if j < 2 * g + 2 {
                    assert(j / 2 == g && j % 2 == j - 2 * g);
                    assert(out@[j] == two@[j - 2 * g]);
                }
            }
            assert(out@ =~= coding::overwritten(old(out)@, spread2(next)));
            done = next;
        }
        g = g + 1;
    }
    Ok(())
}

/// The code of a band type that codes every sample on its own.
fn context_role(band_type: i8) -> (r: Option<Sv8TableRole>)
    ensures
        r == if 5 <= band_type <= 8 {
            Some(sample_role(band_type as int))
        } else {
            None
        },
{
    match band_type {
        5 => Some(Sv8TableRole::Q5),
        6 => Some(Sv8TableRole::Q6),
        7 => Some(Sv8TableRole::Q7),
        8 => Some(Sv8TableRole::Q8),
        _ => None,
    }
}

/// The samples of a band, `n` at most, in contexts picked by the caller's rule.
pub open spec fn ruled_band<F: Fn(i8) -> u8>(
    tables: Sv8TableSet,
    bits: Seq<bool>,
    pos: nat,
    band_type: int,
    rule: F,
    initial: u8,
    samples: Seq<i8>,
    ctxs: Seq<u8>,
    stops: Seq<nat>,
    end: Parsed<()>,
) -> bool {
    &&& coding::chosen_by(rule, initial, ctxs, samples)
    &&& coding::walked(
        sample_step(tables, bits, band_type),
        ctxs,
        stops,
        samples,
        SAMPLES_PER_BAND as nat,
        end,
    )
    &&& stops[0] == pos
}

/// Decodes a band that codes every sample on its own. The first sample is read in the
/// context `initial_ctx`, each later one in the context that `ctx_for_prev` picks for
/// the sample before it; a context other than `0` and `1` is refused. The samples
/// decoded before a failure are written.
pub fn decode_sv8_context_band<F: Fn(i8) -> u8>(
    tables: &Sv8TableSet,
    reader: &mut Sv7BitReader<'_>,
    band_type: i8,
    initial_ctx: u8,
    ctx_for_prev: F,
    out: &mut [i8; SAMPLES_PER_BAND],
) -> (r: Result<()>)
    requires
        forall|q: i8| call_requires(ctx_for_prev, (q,)),
    ensures
        final(reader)@.bits == old(reader)@.bits,
        !(5 <= band_type <= 8) ==> r == Err::<(), Error>(Error::UnsupportedBandType(band_type))
            && final(reader)@.pos == old(reader)@.pos && final(out)@ == old(out)@,
        5 <= band_type <= 8 ==> exists|samples: Seq<i8>, ctxs: Seq<u8>, stops: Seq<nat>|
            {
                &&& #[trigger] ruled_band(
                    *tables,
                    old(reader)@.bits,
                    old(reader)@.pos,
                    band_type as int,
                    ctx_for_prev,
                    initial_ctx,
                    samples,
                    ctxs,
                    stops,
                    (r, final(reader)@.pos),
                )
                &&& final(out)@ == coding::overwritten(old(out)@, samples)
            },
{
    let role: Sv8TableRole = match context_role(band_type) {
        Some(role) => role,
        None => return Err(Error::UnsupportedBandType(band_type)),
    };
    let ghost bits = reader@.bits;
    let ghost pos = reader@.pos;
    let ghost step = sample_step(*tables, bits, band_type as int);
    let ghost mut samples: Seq<i8> = Seq::empty();
    let ghost mut ctxs: Seq<u8> = seq![initial_ctx];
    let ghost mut stops: Seq<nat> = seq![reader@.pos];
    let mut ctx: u8 = initial_ctx;
    let mut i: usize = 0;
    assert(out@ =~= coding::overwritten(old(out)@, samples));
    while i < 36
        invariant
            i <= 36,
            forall|q: i8| call_requires(ctx_for_prev, (q,)),
            5 <= band_type <= 8,
            role == sample_role(band_type as int),
            reader@.bits == bits,
            bits == old(reader)@.bits,
            pos == old(reader)@.pos,
            step == sample_step(*tables, bits, band_type as int),
            samples.len() == i,
            coding::chosen_by(ctx_for_prev, initial_ctx, ctxs, samples),
            ctxs.last() == ctx,
            stops.len() == i + 1,
            stops[0] == pos,
            stops.last() == reader@.pos,
            forall|j: int|
                0 <= j < i ==> step(ctxs[j], stops[j]) == (
                    Ok::<i8, Error>(#[trigger] samples[j]),
                    stops[j + 1],
                ),
            out@ == coding::overwritten(old(out)@, samples),
        decreases 36 - i,
    {
        let ghost before = reader@.pos;
        let decoded: Result<i8> = match table_for_role(tables, role, ctx) {
            Some(table) => table.decode(reader),
            None => Err(Error::UnsupportedBandType(band_type)),
        };
        assert(step(ctx, before) == (decoded, reader@.pos));
        let sample: i8 = match decoded {
            Ok(s) => s,
            Err(e) => {
                assert(ruled_band(
                    *tables,
                    bits,
                    pos,
                    band_type as int,
                    ctx_for_prev,
                    initial_ctx,
                    samples,
                    ctxs,
                    stops,
                    (Err(e), reader@.pos),
                ));
                return Err(e);
            },
        };
        out[i] = sample;
        ctx = ctx_for_prev(sample);
        proof {
            let longer = samples.push(sample);
            assert(out@ =~= coding::overwritten(old(out)@, longer));
            let more_ctxs = ctxs.push(ctx);
            let more_stops = stops.push(reader@.pos);
            assert forall|j: int| 0 <= j < longer.len() implies step(more_ctxs[j], more_stops[j])
                == (Ok::<i8, Error>(#[trigger] longer[j]), more_stops[j + 1]) by {
                if j < i {
                    assert(longer[j] == samples[j]);
                }
            }
            assert forall|j: int| 0 <= j < longer.len() implies call_ensures(
                ctx_for_prev,
                (#[trigger] longer[j],),
                more_ctxs[j + 1],
            ) by {
                if j < i {
                    assert(longer[j] == samples[j]);
                }
            }
            samples = longer;
            ctxs = more_ctxs;
            stops = more_stops;
        }
        i = i + 1;
    }
    assert(ruled_band(
        *tables,
        bits,
        pos,
        band_type as int,
        ctx_for_prev,
        initial_ctx,
        samples,
        ctxs,
        stops,
        (Ok(()), reader@.pos),
    ));
    Ok(())
}

/// Decodes a band that codes every sample on its own, in the running context. The
/// samples decoded before a failure are written.
pub fn decode_sv8_context_band_grounded(
    tables: &Sv8TableSet,
    reader: &mut Sv7BitReader<'_>,
    band_type: i8,
    out: &mut [i8; SAMPLES_PER_BAND],
) -> (r: Result<()>)
    ensures
        final(reader)@.bits == old(reader)@.bits,
        !(5 <= band_type <= 8) ==> r == Err::<(), Error>(Error::UnsupportedBandType(band_type))
            && final(reader)@.pos == old(reader)@.pos && final(out)@ == old(out)@,
        5 <= band_type <= 8 ==> ({
            let band = sample_band(*tables, old(reader)@.bits, old(reader)@.pos, band_type as int);
            &&& r == band.result
            &&& final(reader)@.pos == band.pos
            &&& final(out)@ == coding::overwritten(old(out)@, band.done)
        }),
{
    let role: Sv8TableRole = match context_role(band_type) {
        Some(role) => role,
        None => return Err(Error::UnsupportedBandType(band_type)),
    };
    let mut ctx: Sv8Context = match Sv8Context::new(band_type) {
        Some(c) => c,
        None => return Err(Error::UnsupportedBandType(band_type)),
    };
    let ghost bits = reader@.bits;
    let ghost t = sv8_context::threshold(band_type as int)->0 as nat;
    let ghost whole = sample_band(*tables, bits, reader@.pos, band_type as int);
    let ghost step = sample_context_step(*tables, bits, band_type as int);
    let ghost mut done: Seq<i8> = Seq::empty();
    let mut i: usize = 0;
    assert(out@ =~= coding::overwritten(old(out)@, done));
    while i < 36
        invariant
            i <= 36,
            5 <= band_type <= 8,
            role == sample_role(band_type as int),
            t == sv8_context::threshold(band_type as int)->0,
            done.len() == i,
            ctx@ == sv8_context::after_samples(t, done),
            reader@.bits == bits,
            bits == old(reader)@.bits,
            step == sample_context_step(*tables, bits, band_type as int),
            whole == sample_band(*tables, old(reader)@.bits, old(reader)@.pos, band_type as int),
            whole == coding::sweep(step, 36, done, reader@.pos),
            out@ == coding::overwritten(old(out)@, done),
        decreases 36 - i,
    {
        let table: &Sv8CanonicalTable = match table_for_role(tables, role, ctx.table_ctx()) {
            Some(t) => t,
            None => return Err(Error::UnsupportedBandType(band_type)),
        };
        let sample: i8 = table.decode(reader)?;
        out[i] = sample;
        ctx.update_sample(sample);
        proof {
            assert(done.push(sample).drop_last() =~= done);
            done = done.push(sample);
            assert(out@ =~= coding::overwritten(old(out)@, done));
        }
        i = i + 1;
    }
    Ok(())
}

/// Decodes a band of large levels: per sample a signed byte in code, and the raw bits
/// below it. The levels decoded before a failure are written.
pub fn decode_sv8_escape_band(
    tables: &Sv8TableSet,
    reader: &mut Sv7BitReader<'_>,
    band_type: i8,
    out: &mut [i32; SAMPLES_PER_BAND],
) -> (r: Result<()>)
    ensures
        final(reader)@.bits == old(reader)@.bits,
        !(9 <= band_type <= 17) ==> r == Err::<(), Error>(Error::UnsupportedBandType(band_type))
            && final(reader)@.pos == old(reader)@.pos && final(out)@ == old(out)@,
        9 <= band_type <= 17 ==> ({
            let band = escape_band(*tables, old(reader)@.bits, old(reader)@.pos, band_type as int);
            &&& r == band.result
            &&& final(reader)@.pos == band.pos
            &&& final(out)@ == coding::overwritten(old(out)@, band.done)
        }),
{
    let raw_bits: u8 = match escape_raw_bits(band_type) {
        Some(n) => n,
        None => return Err(Error::UnsupportedBandType(band_type)),
    };
    let ghost n = raw_bits as nat;
    proof {
        lemma2_to64();
        vstd::bits::lemma_u32_shl_is_mul(1, raw_bits as u32);
        if n < 8 {
            lemma_pow2_strictly_increases(n, 8);
        }
    }
    let unit: i32 = (1u32 << raw_bits as u32) as i32;
    let ghost bits = reader@.bits;
    let ghost whole = escape_band(*tables, bits, reader@.pos, band_type as int);
    let ghost step = escape_step(tables.q9up, bits, n);
    let ghost mut done: Seq<i32> = Seq::empty();
    let mut i: usize = 0;
    assert(out@ =~= coding::overwritten(old(out)@, done));
    while i < 36
        invariant
            i <= 36,
            9 <= band_type <= 17,
            raw_bits == band_type - 9,
            n == raw_bits,
            unit == pow2(n),
            1 <= unit <= 256,
            done.len() == i,
            reader@.bits == bits,
            bits == old(reader)@.bits,
            step == escape_step(tables.q9up, bits, n),
            whole == escape_band(*tables, old(reader)@.bits, old(reader)@.pos, band_type as int),
            whole == coding::sweep(step, 36, done, reader@.pos),
            out@ == coding::overwritten(old(out)@, done),
        decreases 36 - i,
    {
        let symbol: i8 = tables.q9up.decode(reader)?;
        let ghost here = reader@;
        let raw: u32 = reader.read_bits(raw_bits)?;
        proof {
            bits::lemma_value_bound(here.bits.subrange(here.pos as int, here.pos + raw_bits));
            assert(-128 * 256 <= symbol * unit <= 127 * 256) by (nonlinear_arith)
                requires
                    -128 <= symbol <= 127,
                    1 <= unit <= 256,
            ;
        }
        let level: i32 = symbol as i32 * unit + raw as i32;
        out[i] = level;
        proof {
            done = done.push(level);
            assert(out@ =~= coding::overwritten(old(out)@, done));
        }
        i = i + 1;
    }
    Ok(())
}

} // verus!
