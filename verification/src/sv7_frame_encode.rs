//! Bands to be encoded into a frame of the older stream format, and their levels.

use crate::bit_writer::Sv7BitWriter;
use crate::bits;
use crate::cns::{CnsPrng, SAMPLES_PER_BAND};
use crate::coding;
use crate::coding::Emit;
use crate::error::{Error, Result};
use crate::sv7_band_decode;
use crate::sv7_band_decode::{band_type_uses_context_selector, Sv7TableSet};
use crate::sv7_huffman;
use crate::sv7_huffman::{write_value, Sv7HuffmanEntry};
use crate::sv8_dscf_loop::SCF_GRANULES_PER_BAND;
use crate::sv8_sample_encode;
use vstd::arithmetic::power2::*;
use vstd::prelude::*;

verus! {

/// A band of one channel, to be encoded.
#[derive(Debug, Clone, Copy, PartialEq, Eq)]
pub enum Sv7EncBand {
    /// Nothing is coded.
    Empty,
    /// Noise with scalefactors.
    Cns {
        scf: [i32; SCF_GRANULES_PER_BAND],
    },
    /// Levels with scalefactors. The low bit of `ctx` picks one of the two codes that
    /// small band types have.
    Coded {
        band_type: i8,
        ctx: usize,
        scf: [i32; SCF_GRANULES_PER_BAND],
        levels: [i32; SAMPLES_PER_BAND],
    },
}

/// The band type of a band.
pub open spec fn type_of(band: Sv7EncBand) -> i8 {
    match band {
        Sv7EncBand::Empty => 0,
        Sv7EncBand::Cns { .. } => -1i8,
        Sv7EncBand::Coded { band_type, .. } => band_type,
    }
}

/// The scalefactors of a band that has any.
pub open spec fn scf_of(band: Sv7EncBand) -> Option<[i32; 3]> {
    match band {
        Sv7EncBand::Empty => None,
        Sv7EncBand::Cns { scf } => Some(scf),
        Sv7EncBand::Coded { scf, .. } => Some(scf),
    }
}

impl Sv7EncBand {
    /// The band type of the band.
    #[must_use]
    pub fn res(&self) -> (t: i8)
        ensures
            t == type_of(*self),
    {
        match self {
            Sv7EncBand::Empty => 0,
            Sv7EncBand::Cns { .. } => -1,
            Sv7EncBand::Coded { band_type, .. } => *band_type,
        }
    }

    /// The scalefactors of a band that has any.
    #[must_use]
    pub fn scf(&self) -> (s: Option<[i32; SCF_GRANULES_PER_BAND]>)
        ensures
            s == scf_of(*self),
    {
        match self {
            Sv7EncBand::Empty => None,
            Sv7EncBand::Cns { scf } => Some(*scf),
            Sv7EncBand::Coded { scf, .. } => Some(*scf),
        }
    }
}

/// The levels that symbol `g` of a band holds.
pub open spec fn group(band_type: int, levels: Seq<i32>, g: int) -> Seq<i32> {
    levels.subrange(
        g * sv7_band_decode::group_size(band_type),
        (g + 1) * sv7_band_decode::group_size(band_type),
    )
}

/// The largest level of a band type that has symbols.
pub open spec fn level_bound(band_type: int) -> int {
    if band_type == 1 {
        1
    } else if band_type == 2 {
        2
    } else {
        127
    }
}

/// The symbol that holds the levels of a group.
pub open spec fn symbol_for(band_type: int, g: Seq<i32>) -> int {
    if band_type == 1 {
        (g[0] + 1) + 3 * (g[1] + 1) + 9 * (g[2] + 1)
    } else if band_type == 2 {
        (g[0] + 2) + 5 * (g[1] + 2)
    } else {
        g[0] as int
    }
}

/// What a group of levels is written as.
pub open spec fn emit_group(rows: Seq<Sv7HuffmanEntry>, band_type: int, g: Seq<i32>) -> Emit {
    match sv8_sample_encode::first_outside(
        g,
        0,
        -level_bound(band_type),
        level_bound(band_type),
    ) {
        Some(l) => Emit::fail(Error::SampleOutOfRange(l)),
        None => sv7_huffman::emit(rows, symbol_for(band_type, g) as i8),
    }
}

/// The steps that write the symbols of a band.
pub open spec fn symbol_emit(
    rows: Seq<Sv7HuffmanEntry>,
    band_type: int,
    levels: Seq<i32>,
) -> spec_fn(int) -> Emit {
    |g: int| emit_group(rows, band_type, group(band_type, levels, g))
}

/// The steps that write levels out.
pub open spec fn plain_emit(band_type: int, levels: Seq<i32>) -> spec_fn(int) -> Emit {
    |j: int|
        {
            if 0 <= levels[j] < pow2((band_type - 1) as nat) {
                Emit::of(bits::field(levels[j] as nat, (band_type - 1) as nat))
            } else {
                Emit::fail(Error::SampleOutOfRange(levels[j]))
            }
        }
}

/// What the levels of a band are written as.
pub open spec fn emit_levels(
    tables: Sv7TableSet,
    band_type: i8,
    ctx: int,
    levels: Seq<i32>,
) -> Emit {
    if sv7_band_decode::has_selector(band_type as int) {
        coding::emit_each(
            symbol_emit(tables.code(band_type as int, ctx), band_type as int, levels),
            0,
            sv7_band_decode::symbol_count(band_type as int) as int,
        )
    } else if 8 <= band_type <= 17 {
        coding::emit_each(plain_emit(band_type as int, levels), 0, 36)
    } else {
        Emit::fail(Error::UnsupportedBandType(band_type))
    }
}

/// What the selector and the levels of a band are written as.
pub open spec fn emit_samples(tables: Sv7TableSet, band: Sv7EncBand) -> Emit {
    match band {
        Sv7EncBand::Coded { band_type, ctx, levels, .. } => if sv7_band_decode::has_selector(
            band_type as int,
        ) {
            Emit::of(seq![ctx % 2 == 1]).chain(
                emit_levels(tables, band_type, (ctx % 2) as int, levels@),
            )
        } else {
            emit_levels(tables, band_type, 0, levels@)
        },
        _ => Emit::of(Seq::empty()),
    }
}

/// Writes the symbols of a band.
fn write_symbols(
    rows: &[Sv7HuffmanEntry],
    writer: &mut Sv7BitWriter,
    band_type: i8,
    levels: &[i32; SAMPLES_PER_BAND],
) -> (r: Result<()>)
    requires
        sv7_band_decode::has_selector(band_type as int),
    ensures
        ({
            let e = coding::emit_each(
                symbol_emit(rows@, band_type as int, levels@),
                0,
                sv7_band_decode::symbol_count(band_type as int) as int,
            );
            final(writer)@ == old(writer)@ + e.code && r == e.result
        }),
{
    let ghost start = writer@;
    let ghost step = symbol_emit(rows@, band_type as int, levels@);
    let n: usize = match band_type {
        1 => 12,
        2 => 18,
        _ => 36,
    };
    let ghost whole = coding::emit_each(step, 0, n as int);
    let ghost mut done: Seq<bool> = Seq::empty();
    proof {
        assert(start + done =~= start);
        assert(whole =~= whole.after(done));
    }
    let mut g: usize = 0;
    while g < n
        invariant
            g <= n,
            n == sv7_band_decode::symbol_count(band_type as int),
            sv7_band_decode::has_selector(band_type as int),
            start == old(writer)@,
            step == symbol_emit(rows@, band_type as int, levels@),
            whole == coding::emit_each(step, 0, n as int),
            whole == coding::emit_each(step, g as int, n as int).after(done),
            writer@ == start + done,
        decreases n - g,
    {
        proof {
            coding::lemma_emit_one(step, g as int, n as int, done);
        }
        let one: Result<()> = write_group(rows, writer, band_type, levels, g);
        assert(writer@ =~= start + (done + step(g as int).code));
        match one {
            Ok(_) => {},
            Err(e) => {
                return Err(e);
            },
        }
        proof {
            done = done + step(g as int).code;
        }
        g = g + 1;
    }
    assert(whole.code =~= done);
    Ok(())
}

/// Writes a group of levels. A level out of range is refused.
fn write_group(
    rows: &[Sv7HuffmanEntry],
    writer: &mut Sv7BitWriter,
    band_type: i8,
    levels: &[i32; SAMPLES_PER_BAND],
    g: usize,
) -> (r: Result<()>)
    requires
        sv7_band_decode::has_selector(band_type as int),
        g < sv7_band_decode::symbol_count(band_type as int),
    ensures
        final(writer)@ == old(writer)@ + emit_group(
            rows@,
            band_type as int,
            group(band_type as int, levels@, g as int),
        ).code,
        r == emit_group(
            rows@,
            band_type as int,
            group(band_type as int, levels@, g as int),
        ).result,
{
    let size: usize = match band_type {
        1 => 3,
        2 => 2,
        _ => 1,
    };
    let bound: i32 = match band_type {
        1 => 1,
        2 => 2,
        _ => 127,
    };
    let unit: i32 = match band_type {
        1 => 3,
        _ => 5,
    };
    let ghost set = group(band_type as int, levels@, g as int);
    proof {
        reveal_with_fuel(sv8_sample_encode::first_outside, 4);
        assert(0 <= g * size && g * size + size <= 36) by {
            assert(size == 1 || size == 2 || size == 3);
        }
        assert((g + 1) * size == g * size + size) by (nonlinear_arith);
        assert(set.len() == size);
        assert(forall|k: int| 0 <= k < size ==> #[trigger] set[k] == levels@[g * size + k]);
        assert(writer@ + Seq::<bool>::empty() =~= writer@);
    }
    let first: i32 = levels[g * size];
    assert(set[0] == first);
    if first < -bound || first > bound {
        return Err(Error::SampleOutOfRange(first));
    }
    if size == 1 {
        return write_value(writer, rows, first as i8);
    }
    let second: i32 = levels[g * size + 1];
    assert(set[1] == second);
    if second < -bound || second > bound {
        return Err(Error::SampleOutOfRange(second));
    }
    if size == 2 {
        return write_value(writer, rows, ((first + bound) + unit * (second + bound)) as i8);
    }
    let third: i32 = levels[g * size + 2];
    assert(set[2] == third);
    if third < -bound || third > bound {
        return Err(Error::SampleOutOfRange(third));
    }
    write_value(
        writer,
        rows,
        ((first + bound) + unit * (second + bound) + 9 * (third + bound)) as i8,
    )
}

/// Levels that a large band type has.
fn level_count(band_type: i8) -> (n: i32)
    requires
        8 <= band_type <= 17,
    ensures
        n == pow2((band_type - 1) as nat),
{
    proof {
        lemma2_to64();
    }
    let mut n: i32 = 128;
    let mut k: i8 = 8;
    while k < band_type
        invariant
            8 <= k <= band_type <= 17,
            n == pow2((k - 1) as nat),
        decreases band_type - k,
    {
        proof {
            sv7_band_decode::lemma_pow2_bounds(k as int);
            lemma_pow2_unfold(k as nat);
        }
        n = n * 2;
        k = k + 1;
    }
    n
}

/// Writes levels out. A level out of range is refused.
fn write_plain(
    writer: &mut Sv7BitWriter,
    band_type: i8,
    levels: &[i32; SAMPLES_PER_BAND],
) -> (r: Result<()>)
    requires
        8 <= band_type <= 17,
    ensures
        ({
            let e = coding::emit_each(plain_emit(band_type as int, levels@), 0, 36);
            final(writer)@ == old(writer)@ + e.code && r == e.result
        }),
{
    let ghost start = writer@;
    let ghost step = plain_emit(band_type as int, levels@);
    let ghost whole = coding::emit_each(step, 0, 36);
    let ghost mut done: Seq<bool> = Seq::empty();
    proof {
        assert(start + done =~= start);
        assert(whole =~= whole.after(done));
    }
    let width: u8 = (band_type - 1) as u8;
    let count: i32 = level_count(band_type);
    let mut j: usize = 0;
    while j < SAMPLES_PER_BAND
        invariant
            j <= SAMPLES_PER_BAND,
            8 <= band_type <= 17,
            count == pow2((band_type - 1) as nat),
            width == band_type - 1,
            start == old(writer)@,
            step == plain_emit(band_type as int, levels@),
            whole == coding::emit_each(step, 0, 36),
            whole == coding::emit_each(step, j as int, 36).after(done),
            writer@ == start + done,
        decreases SAMPLES_PER_BAND - j,
    {
        proof {
            coding::lemma_emit_one(step, j as int, 36, done);
        }
        let v: i32 = levels[j];
        if v < 0 || v >= count {
            assert(writer@ =~= start + (done + step(j as int).code));
            return Err(Error::SampleOutOfRange(levels[j]));
        }
        writer.write_bits(v as u32, width);
        proof {
            assert(writer@ =~= start + (done + step(j as int).code));
            done = done + step(j as int).code;
        }
        j = j + 1;
    }
    assert(whole.code =~= done);
    Ok(())
}

/// Writes the levels of a band. A band type that has none, and a level out of range, are
/// refused.
fn write_levels(
    tables: &Sv7TableSet,
    writer: &mut Sv7BitWriter,
    band_type: i8,
    ctx: usize,
    levels: &[i32; SAMPLES_PER_BAND],
) -> (r: Result<()>)
    requires
        ctx < 2,
    ensures
        final(writer)@ == old(writer)@ + emit_levels(
            *tables,
            band_type,
            ctx as int,
            levels@,
        ).code,
        r == emit_levels(*tables, band_type, ctx as int, levels@).result,
{
    if band_type_uses_context_selector(band_type) {
        write_symbols(tables.rows(band_type, ctx), writer, band_type, levels)
    } else if 8 <= band_type && band_type <= 17 {
        write_plain(writer, band_type, levels)
    } else {
        assert(writer@ + Seq::<bool>::empty() =~= writer@);
        Err(Error::UnsupportedBandType(band_type))
    }
}

/// Writes the selector and the levels of a band; a band without levels writes nothing.
pub fn encode_sv7_band_samples(
    tables: &Sv7TableSet,
    writer: &mut Sv7BitWriter,
    band: &Sv7EncBand,
) -> (r: Result<()>)
    ensures
        final(writer)@ == old(writer)@ + emit_samples(*tables, *band).code,
        r == emit_samples(*tables, *band).result,
{
    let ghost start = writer@;
    match band {
        Sv7EncBand::Coded { band_type, ctx, levels, .. } => {
            let selector: usize = *ctx % 2;
            if band_type_uses_context_selector(*band_type) {
                writer.write_bits(selector as u32, 1);
                proof {
                    reveal_with_fuel(bits::field, 2);
                    assert(bits::field(1, 1) =~= seq![true]);
                    assert(bits::field(0, 1) =~= seq![false]);
                    assert(writer@ =~= start + seq![*ctx % 2 == 1]);
                }
                let r: Result<()> = write_levels(tables, writer, *band_type, selector, levels);
                assert(writer@ =~= start + emit_samples(*tables, *band).code);
                r
            } else {
                write_levels(tables, writer, *band_type, 0, levels)
            }
        },
        _ => {
            assert(writer@ + Seq::<bool>::empty() =~= writer@);
            Ok(())
        },
    }
}

// ---------------------------------------------------------------------------
// Laws
// ---------------------------------------------------------------------------

/// Where no level is outside, every level is inside.
proof fn lemma_inside(levels: Seq<i32>, from: int, lo: int, hi: int)
    requires
        0 <= from,
        sv8_sample_encode::first_outside(levels, from, lo, hi) is None,
    ensures
        forall|i: int| from <= i < levels.len() ==> lo <= #[trigger] levels[i] <= hi,
    decreases levels.len() - from,
{
    if from < levels.len() {
        lemma_inside(levels, from + 1, lo, hi);
    }
}

/// A symbol holds the levels it is made of.
proof fn lemma_symbol(band_type: int, g: Seq<i32>)
    requires
        sv7_band_decode::has_selector(band_type),
        g.len() == sv7_band_decode::group_size(band_type),
        sv8_sample_encode::first_outside(
            g,
            0,
            -level_bound(band_type),
            level_bound(band_type),
        ) is None,
    ensures
        -128 <= symbol_for(band_type, g) <= 127,
        sv7_band_decode::is_symbol(band_type, symbol_for(band_type, g)),
        forall|k: int|
            0 <= k < g.len() ==> sv7_band_decode::symbol_level(
                band_type,
                symbol_for(band_type, g),
                k,
            ) == #[trigger] g[k],
{
    lemma_inside(g, 0, -level_bound(band_type), level_bound(band_type));
    assert(-level_bound(band_type) <= g[0] <= level_bound(band_type));
    if band_type == 1 {
        assert(-1 <= g[1] <= 1 && -1 <= g[2] <= 1);
    } else if band_type == 2 {
        assert(-2 <= g[1] <= 2);
    }
}

/// Written levels read back, whatever the noise generator stands at.
pub proof fn law_levels_read_back(
    tables: Sv7TableSet,
    bits: Seq<bool>,
    pos: nat,
    band_type: i8,
    ctx: int,
    levels: Seq<i32>,
    noise: CnsPrng,
)
    requires
        tables.orderly(),
        0 <= ctx <= 1,
        levels.len() == 36,
        emit_levels(tables, band_type, ctx, levels).result is Ok,
        coding::readable(bits, pos, emit_levels(tables, band_type, ctx, levels).code),
    ensures
        1 <= band_type <= 17,
        sv7_band_decode::parse_levels(tables, bits, pos, band_type, ctx, noise) == (
            Ok::<Seq<i32>, Error>(levels),
            pos + emit_levels(tables, band_type, ctx, levels).code.len(),
        ),
{
    let t = band_type as int;
    if sv7_band_decode::has_selector(t) {
        lemma_symbols_read_back(tables.code(t, ctx), bits, pos, t, levels);
    } else {
        lemma_plain_reads_back(bits, pos, t, levels);
    }
}

/// The symbols of a band.
spec fn symbols_for(band_type: int, levels: Seq<i32>) -> Seq<i8> {
    Seq::new(
        sv7_band_decode::symbol_count(band_type),
        |g: int| symbol_for(band_type, group(band_type, levels, g)) as i8,
    )
}

proof fn lemma_group(band_type: int, levels: Seq<i32>, g: int)
    requires
        sv7_band_decode::has_selector(band_type),
        levels.len() == 36,
        0 <= g < sv7_band_decode::symbol_count(band_type),
    ensures
        group(band_type, levels, g).len() == sv7_band_decode::group_size(band_type),
        forall|k: int|
            0 <= k < sv7_band_decode::group_size(band_type) ==> #[trigger] group(
                band_type,
                levels,
                g,
            )[k] == levels[g * sv7_band_decode::group_size(band_type) + k],
{
    let size = sv7_band_decode::group_size(band_type);
    lemma_times(g, size);
    lemma_times(g + 1, size);
}

/// Products with a group's size.
proof fn lemma_times(g: int, size: int)
    requires
        1 <= size <= 3,
    ensures
        size == 1 ==> g * size == g,
        size == 2 ==> g * size == g + g,
        size == 3 ==> g * size == g + g + g,
{
    assert(g * 1 == g && g * 2 == g + g && g * 3 == g + g + g);
}

proof fn lemma_symbols_read_back(
    rows: Seq<Sv7HuffmanEntry>,
    bits: Seq<bool>,
    pos: nat,
    band_type: int,
    levels: Seq<i32>,
)
    requires
        sv7_huffman::orderly(rows),
        sv7_band_decode::has_selector(band_type),
        levels.len() == 36,
        ({
            let e = coding::emit_each(
                symbol_emit(rows, band_type, levels),
                0,
                sv7_band_decode::symbol_count(band_type) as int,
            );
            e.result is Ok && coding::readable(bits, pos, e.code)
        }),
    ensures
        ({
            let (r, p) = coding::sweep(
                sv7_band_decode::symbol_step(rows, bits, band_type),
                sv7_band_decode::symbol_count(band_type),
                Seq::empty(),
                pos,
            ).parsed();
            &&& r is Ok
            &&& sv7_band_decode::levels_of(band_type, r->Ok_0) == levels
            &&& p == pos + coding::emit_each(
                symbol_emit(rows, band_type, levels),
                0,
                sv7_band_decode::symbol_count(band_type) as int,
            ).code.len()
        }),
{
    let parse = sv7_band_decode::symbol_step(rows, bits, band_type);
    let emit = symbol_emit(rows, band_type, levels);
    let items = symbols_for(band_type, levels);
    let n = items.len() as int;
    assert forall|j: int, p: nat|
        0 <= j < items.len() && emit(j).result is Ok && coding::readable(
            bits,
            p,
            emit(j).code,
        ) implies #[trigger] parse(items.take(j), p) == (
        Ok::<i8, Error>(items[j]),
        (p + emit(j).code.len()) as nat,
    ) by {
        lemma_group(band_type, levels, j);
        lemma_symbol(band_type, group(band_type, levels, j));
        sv7_huffman::law_value_reads_back(rows, bits, p, items[j]);
    }
    assert(items.take(0) =~= Seq::<i8>::empty());
    coding::lemma_sweep_reads_back(bits, parse, emit, items, 0, pos);
    let size = sv7_band_decode::group_size(band_type);
    assert(size == 1 || size == 2 || size == 3);
    let got = sv7_band_decode::levels_of(band_type, items);
    assert forall|j: int| 0 <= j < 36 implies #[trigger] got[j] == levels[j] by {
        let g = j / size;
        let k = j % size;
        lemma_times(g, size);
        assert(0 <= g < n && 0 <= k < size && g * size + k == j) by {
            if size == 1 {
                assert(j / 1 == j && j % 1 == 0);
            } else if size == 2 {
                assert(j / 2 < 18);
            } else {
                assert(j / 3 < 12);
            }
        }
        lemma_each_ok(emit, 0, n, g);
        lemma_group(band_type, levels, g);
        let set = group(band_type, levels, g);
        lemma_symbol(band_type, set);
        assert(set[k] == levels[j]);
    }
    assert(got =~= levels);
}

/// Where a run succeeds, every item of it does.
pub proof fn lemma_each_ok(emit: spec_fn(int) -> Emit, from: int, n: int, i: int)
    requires
        from <= i < n,
        coding::emit_each(emit, from, n).result is Ok,
    ensures
        emit(i).result is Ok,
    decreases n - from,
{
    if from < i {
        lemma_each_ok(emit, from + 1, n, i);
    }
}

proof fn lemma_plain_reads_back(bits: Seq<bool>, pos: nat, band_type: int, levels: Seq<i32>)
    requires
        8 <= band_type <= 17,
        levels.len() == 36,
        ({
            let e = coding::emit_each(plain_emit(band_type, levels), 0, 36);
            e.result is Ok && coding::readable(bits, pos, e.code)
        }),
    ensures
        coding::sweep(
            sv7_band_decode::plain_step(bits, band_type),
            36,
            Seq::empty(),
            pos,
        ).parsed() == (
            Ok::<Seq<i32>, Error>(levels),
            pos + coding::emit_each(plain_emit(band_type, levels), 0, 36).code.len(),
        ),
{
    let parse = sv7_band_decode::plain_step(bits, band_type);
    let emit = plain_emit(band_type, levels);
    let w = (band_type - 1) as nat;
    sv7_band_decode::lemma_pow2_bounds(band_type);
    assert forall|j: int, p: nat|
        0 <= j < levels.len() && emit(j).result is Ok && coding::readable(
            bits,
            p,
            emit(j).code,
        ) implies #[trigger] parse(levels.take(j), p) == (
        Ok::<i32, Error>(levels[j]),
        (p + emit(j).code.len()) as nat,
    ) by {
        let v = levels[j] as nat;
        bits::lemma_field_len(v, w);
        bits::lemma_field_at(bits, p, v, w);
    }
    assert(levels.take(0) =~= Seq::<i32>::empty());
    coding::lemma_sweep_reads_back(bits, parse, emit, levels, 0, pos);
}

/// A written band reads back: its levels where it has any, noise where it is noise, and
/// silence where it is empty.
pub proof fn law_samples_read_back(
    tables: Sv7TableSet,
    bits: Seq<bool>,
    pos: nat,
    band: Sv7EncBand,
    noise: CnsPrng,
)
    requires
        tables.orderly(),
        emit_samples(tables, band).result is Ok,
        coding::readable(bits, pos, emit_samples(tables, band).code),
    ensures
        sv7_band_decode::parse_channel(tables, bits, pos, type_of(band), noise) == (
            Ok::<Seq<i32>, Error>(levels_for(band, noise)),
            pos + emit_samples(tables, band).code.len(),
        ),
        type_of(band) == 0 <==> band is Empty,
        type_of(band) == -1 <==> band is Cns,
{
    match band {
        Sv7EncBand::Coded { band_type, ctx, levels, .. } => {
            if sv7_band_decode::has_selector(band_type as int) {
                let tail = emit_levels(tables, band_type, (ctx % 2) as int, levels@);
                bits::lemma_at_concat(bits, pos, seq![ctx % 2 == 1], tail.code);
                bits::lemma_bit_at(bits, pos, ctx % 2 == 1);
                let next = pos + 1;
                assert(sv7_band_decode::parse_channel(tables, bits, pos, band_type, noise)
                    == sv7_band_decode::parse_levels(
                    tables,
                    bits,
                    next,
                    band_type,
                    (ctx % 2) as int,
                    noise,
                ));
                law_levels_read_back(
                    tables,
                    bits,
                    next,
                    band_type,
                    (ctx % 2) as int,
                    levels@,
                    noise,
                );
            } else {
                law_levels_read_back(tables, bits, pos, band_type, 0, levels@, noise);
            }
        },
        _ => {},
    }
}

/// The levels that a decoder yields for a band.
pub open spec fn levels_for(band: Sv7EncBand, noise: CnsPrng) -> Seq<i32> {
    match band {
        Sv7EncBand::Empty => crate::sv8_band_decode::silence(),
        Sv7EncBand::Cns { .. } => noise.noise(),
        Sv7EncBand::Coded { levels, .. } => levels@,
    }
}

} // verus!
