//! Encoders for the levels of a band. That they and the decoders undo each other is proved in
//! [`crate::sv8_sample_laws`].

use crate::bit_writer::Sv7BitWriter;
use crate::bits;
use crate::cns::SAMPLES_PER_BAND;
use crate::coding;
use crate::coding::Emit;
use crate::combinadic;
use crate::error::{Error, Result};
use crate::sv8_band_decode::{sv8_band_type_case, Sv8BandDecodeCase};
use crate::sv8_context;
use crate::sv8_context::Sv8Context;
use crate::sv8_huffman::{table_for_role, Sv8CanonicalTable, Sv8TableRole, Sv8TableSet};
use crate::sv8_huffman_encode::{write_set, write_symbol};
use crate::sv8_sample_decode;
use crate::sv8_stereo_frame;
use vstd::arithmetic::div_mod::*;
use vstd::arithmetic::power2::*;
use vstd::prelude::*;

verus! {

// ---------------------------------------------------------------------------
// What is written
// ---------------------------------------------------------------------------

/// The first level, from `from` on, that lies outside `lo..=hi`.
pub open spec fn first_outside(levels: Seq<i32>, from: int, lo: int, hi: int) -> Option<i32>
    decreases levels.len() - from,
{
    if from < 0 || from >= levels.len() {
        None
    } else if lo <= levels[from] <= hi {
        first_outside(levels, from + 1, lo, hi)
    } else {
        Some(levels[from])
    }
}

/// Which levels are not zero.
pub open spec fn nonzero(levels: Seq<i32>) -> Seq<bool> {
    Seq::new(levels.len(), |i: int| levels[i] != 0)
}

/// The sign of a level, where it is not zero.
pub open spec fn sign_code(level: i32) -> Seq<bool> {
    if level == 0 {
        Seq::empty()
    } else {
        seq![level > 0]
    }
}

/// The steps that write the signs of a group.
pub open spec fn sign_emit(levels: Seq<i32>) -> spec_fn(int) -> Emit {
    |i: int| Emit::of(sign_code(levels[i]))
}

/// A sparse group: the number of its non-zero levels, which they are, and their signs.
pub open spec fn emit_group(t: Sv8CanonicalTable, levels: Seq<i32>) -> Emit {
    match first_outside(levels, 0, -1, 1) {
        Some(s) => Emit::fail(Error::SampleOutOfRange(s)),
        None => t.emit(combinadic::ones(nonzero(levels)) as i8).chain(
            Emit::of(combinadic::set_code(nonzero(levels))),
        ).chain(coding::emit_each(sign_emit(levels), 0, levels.len() as int)),
    }
}

/// Half `h` of a band.
pub open spec fn half(levels: Seq<i32>, h: int) -> Seq<i32> {
    levels.subrange(18 * h, 18 * h + 18)
}

/// The steps of a sparse band.
pub open spec fn group_emit(t: Sv8CanonicalTable, levels: Seq<i32>) -> spec_fn(int) -> Emit {
    |h: int| emit_group(t, half(levels, h))
}

/// The symbol that packs triple `g` of a band.
pub open spec fn triple_symbol(levels: Seq<i32>, g: int) -> int {
    (levels[3 * g] + 2) + 5 * (levels[3 * g + 1] + 2) + 25 * (levels[3 * g + 2] + 2)
}

/// The symbols of the first `g` triples of a band.
pub open spec fn triple_symbols(levels: Seq<i32>, g: nat) -> Seq<i8> {
    Seq::new(g, |i: int| triple_symbol(levels, i) as i8)
}

/// The steps of a band of packed triples.
pub open spec fn triple_emit(tables: Sv8TableSet, levels: Seq<i32>) -> spec_fn(int) -> Emit {
    |g: int|
        match first_outside(levels.subrange(3 * g, 3 * g + 3), 0, -2, 2) {
            Some(s) => Emit::fail(Error::SampleOutOfRange(s)),
            None => tables.table(
                Sv8TableRole::Q2,
                sv8_context::after_triples(3, triple_symbols(levels, g as nat)).table(),
            ).emit(triple_symbol(levels, g) as i8),
        }
}

/// The symbol that packs two levels.
pub open spec fn pair_symbol(a: int, b: int) -> int {
    let byte = 16 * (b % 16) + a % 16;
    if byte >= 128 {
        byte - 256
    } else {
        byte
    }
}

/// The steps of a band of packed pairs.
pub open spec fn pair_emit(tables: Sv8TableSet, levels: Seq<i32>, band_type: int) -> spec_fn(
    int,
) -> Emit {
    |g: int|
        match first_outside(levels.subrange(2 * g, 2 * g + 2), 0, -band_type, band_type) {
            Some(s) => Emit::fail(Error::SampleOutOfRange(s)),
            None => tables.table(sv8_sample_decode::sample_role(band_type), 0).emit(
                pair_symbol(levels[2 * g] as int, levels[2 * g + 1] as int) as i8,
            ),
        }
}

/// The first `n` levels of a band as samples.
pub open spec fn samples(levels: Seq<i32>, n: nat) -> Seq<i8> {
    Seq::new(n, |i: int| levels[i] as i8)
}

/// The steps of a band that codes every sample on its own.
pub open spec fn sample_emit(tables: Sv8TableSet, levels: Seq<i32>, band_type: int) -> spec_fn(
    int,
) -> Emit {
    |i: int|
        if -128 <= levels[i] <= 127 {
            tables.table(
                sv8_sample_decode::sample_role(band_type),
                sv8_context::after_samples(
                    sv8_context::threshold(band_type)->0 as nat,
                    samples(levels, i as nat),
                ).table(),
            ).emit(levels[i] as i8)
        } else {
            Emit::fail(Error::SampleOutOfRange(levels[i]))
        }
}

/// A byte as the signed byte with the same bits.
pub open spec fn as_signed_byte(v: int) -> i8 {
    if v >= 128 {
        (v - 256) as i8
    } else {
        v as i8
    }
}

/// The steps of a band of large levels.
pub open spec fn escape_emit(t: Sv8CanonicalTable, levels: Seq<i32>, band_type: int) -> spec_fn(
    int,
) -> Emit {
    |i: int|
        {
            let n = (band_type - 9) as nat;
            let v = levels[i] + sv8_stereo_frame::level_offset(band_type);
            if 0 <= v < pow2((band_type - 1) as nat) {
                t.emit(as_signed_byte(v / pow2(n) as int)).chain(
                    Emit::of(bits::field(v as nat, n)),
                )
            } else {
                Emit::fail(Error::SampleOutOfRange(levels[i]))
            }
        }
}

/// What writing the levels of a band and channel appends.
pub open spec fn emit_levels(tables: Sv8TableSet, band_type: i8, levels: Seq<i32>) -> Emit {
    let t = band_type as int;
    if t == -1 || t == 0 {
        Emit::of(Seq::empty())
    } else if t == 1 {
        coding::emit_each(group_emit(tables.q1, levels), 0, 2)
    } else if t == 2 {
        coding::emit_each(triple_emit(tables, levels), 0, 12)
    } else if 3 <= t <= 4 {
        coding::emit_each(pair_emit(tables, levels, t), 0, 18)
    } else if 5 <= t <= 8 {
        coding::emit_each(sample_emit(tables, levels, t), 0, 36)
    } else if 9 <= t <= 17 {
        coding::emit_each(escape_emit(tables.q9up, levels, t), 0, 36)
    } else {
        Emit::fail(Error::UnsupportedBandType(band_type))
    }
}

// ---------------------------------------------------------------------------
// Encoders
// ---------------------------------------------------------------------------

/// The first of the levels `from..to` that lies outside `lo..=hi`.
fn find_outside(
    levels: &[i32; SAMPLES_PER_BAND],
    from: usize,
    to: usize,
    lo: i32,
    hi: i32,
) -> (r: Option<i32>)
    requires
        from <= to <= 36,
    ensures
        r == first_outside(levels@.subrange(from as int, to as int), 0, lo as int, hi as int),
        r is None ==> forall|i: int| from <= i < to ==> lo <= #[trigger] levels@[i] <= hi,
{
    let ghost part = levels@.subrange(from as int, to as int);
    let mut i: usize = from;
    while i < to
        invariant
            from <= i <= to <= 36,
            part == levels@.subrange(from as int, to as int),
            first_outside(part, 0, lo as int, hi as int) == first_outside(
                part,
                i - from,
                lo as int,
                hi as int,
            ),
            forall|j: int| from <= j < i ==> lo <= #[trigger] levels@[j] <= hi,
        decreases to - i,
    {
        let s: i32 = levels[i];
        assert(part[i - from] == s);
        if s < lo || s > hi {
            return Some(s);
        }
        i = i + 1;
    }
    None
}

/// Writes half `h` of a sparse band.
fn write_group(
    table: &Sv8CanonicalTable,
    writer: &mut Sv7BitWriter,
    levels: &[i32; SAMPLES_PER_BAND],
    h: usize,
) -> (r: Result<()>)
    requires
        h < 2,
    ensures
        final(writer)@ == old(writer)@ + emit_group(*table, half(levels@, h as int)).code,
        r == emit_group(*table, half(levels@, h as int)).result,
{
    let ghost l = half(levels@, h as int);
    let ghost start = writer@;
    let base: usize = 18 * h;
    match find_outside(levels, base, base + 18, -1, 1) {
        Some(s) => {
            assert(writer@ =~= start + Seq::<bool>::empty());
            return Err(Error::SampleOutOfRange(s));
        },
        None => {},
    }
    let mut flags: Vec<bool> = Vec::new();
    let mut cnt: i8 = 0;
    let mut i: usize = 0;
    while i < 18
        invariant
            i <= 18,
            h < 2,
            base == 18 * h,
            l == half(levels@, h as int),
            flags@ == nonzero(l).take(i as int),
            cnt == combinadic::ones(flags@),
            cnt <= i,
        decreases 18 - i,
    {
        let set: bool = levels[base + i] != 0;
        let ghost before = flags@;
        flags.push(set);
        proof {
            assert(l[i as int] == levels@[base + i]);
            assert(flags@ =~= nonzero(l).take(i + 1));
            combinadic::lemma_ones_last(flags@);
            assert(flags@.drop_last() =~= before);
        }
        if set {
            cnt = cnt + 1;
        }
        i = i + 1;
    }
    assert(flags@ =~= nonzero(l));
    let ghost counted = table.emit(cnt);
    match write_symbol(writer, table, cnt) {
        Ok(_) => {},
        Err(e) => {
            return Err(e);
        },
    }
    write_set(writer, &flags);
    let ghost named = counted.code + combinadic::set_code(flags@);
    assert(writer@ =~= start + named);
    let ghost step = sign_emit(l);
    let ghost whole = coding::emit_each(step, 0, 18);
    let ghost mut done: Seq<bool> = Seq::empty();
    proof {
        assert(whole.code =~= whole.after(done).code);
        assert(start + named =~= start + named + done);
    }
    let mut j: usize = 0;
    while j < 18
        invariant
            j <= 18,
            h < 2,
            base == 18 * h,
            l == half(levels@, h as int),
            step == sign_emit(l),
            whole == coding::emit_each(step, j as int, 18).after(done),
            writer@ == start + named + done,
        decreases 18 - j,
    {
        let s: i32 = levels[base + j];
        proof {
            assert(l[j as int] == s);
            coding::lemma_emit_one(step, j as int, 18, done);
        }
        if s != 0 {
            let b: u32 = if s > 0 { 1 } else { 0 };
            writer.write_bits(b, 1);
            proof {
                reveal_with_fuel(bits::field, 2);
                assert(bits::field(b as nat, 1) =~= sign_code(s));
            }
        }
        proof {
            assert(writer@ =~= start + named + (done + sign_code(s)));
            done = done + sign_code(s);
        }
        j = j + 1;
    }
    proof {
        assert(whole.code =~= done);
        assert(start + named + done =~= start + (named + done));
    }
    Ok(())
}

/// Writes triple `g` of a band in the context `ctx`; the result is its symbol.
fn write_triple(
    tables: &Sv8TableSet,
    writer: &mut Sv7BitWriter,
    levels: &[i32; SAMPLES_PER_BAND],
    g: usize,
    ctx: &Sv8Context,
) -> (r: Result<i32>)
    requires
        g < 12,
        ctx@ == sv8_context::after_triples(3, triple_symbols(levels@, g as nat)),
    ensures
        final(writer)@ == old(writer)@ + triple_emit(*tables, levels@)(g as int).code,
        match (r, triple_emit(*tables, levels@)(g as int).result) {
            (Ok(s), Ok(_)) => s == triple_symbol(levels@, g as int) && 0 <= s <= 124,
            (Err(e), Err(f)) => e == f,
            _ => false,
        },
{
    match find_outside(levels, 3 * g, 3 * g + 3, -2, 2) {
        Some(s) => {
            assert(writer@ =~= old(writer)@ + Seq::<bool>::empty());
            return Err(Error::SampleOutOfRange(s));
        },
        None => {},
    }
    proof {
        assert(-2 <= levels@[3 * g as int] <= 2);
        assert(-2 <= levels@[3 * g + 1] <= 2);
        assert(-2 <= levels@[3 * g + 2] <= 2);
    }
    let symbol: i32 = (levels[3 * g] + 2) + 5 * (levels[3 * g + 1] + 2) + 25 * (levels[3 * g + 2]
        + 2);
    let table: &Sv8CanonicalTable = match table_for_role(tables, Sv8TableRole::Q2, ctx.table_ctx()) {
        Some(t) => t,
        None => return Err(Error::UnsupportedBandType(2)),
    };
    match write_symbol(writer, table, symbol as i8) {
        Ok(_) => Ok(symbol),
        Err(e) => Err(e),
    }
}

/// Writes pair `g` of a band.
fn write_pair(
    table: &Sv8CanonicalTable,
    writer: &mut Sv7BitWriter,
    levels: &[i32; SAMPLES_PER_BAND],
    g: usize,
    band_type: i8,
    tables: Ghost<Sv8TableSet>,
) -> (r: Result<()>)
    requires
        g < 18,
        3 <= band_type <= 4,
        *table == tables@.table(sv8_sample_decode::sample_role(band_type as int), 0),
    ensures
        final(writer)@ == old(writer)@ + pair_emit(tables@, levels@, band_type as int)(
            g as int,
        ).code,
        r == pair_emit(tables@, levels@, band_type as int)(g as int).result,
{
    match find_outside(levels, 2 * g, 2 * g + 2, -(band_type as i32), band_type as i32) {
        Some(s) => {
            assert(writer@ =~= old(writer)@ + Seq::<bool>::empty());
            return Err(Error::SampleOutOfRange(s));
        },
        None => {},
    }
    proof {
        assert(-4 <= levels@[2 * g as int] <= 4);
        assert(-4 <= levels@[2 * g + 1] <= 4);
    }
    let low: i32 = (levels[2 * g] + 16) % 16;
    let high: i32 = (levels[2 * g + 1] + 16) % 16;
    let byte: i32 = 16 * high + low;
    let symbol: i8 = if byte >= 128 { (byte - 256) as i8 } else { byte as i8 };
    write_symbol(writer, table, symbol)
}

/// Writes large level `s`.
fn write_escape(
    table: &Sv8CanonicalTable,
    writer: &mut Sv7BitWriter,
    levels: &[i32; SAMPLES_PER_BAND],
    i: usize,
    band_type: i8,
) -> (r: Result<()>)
    requires
        i < 36,
        9 <= band_type <= 17,
    ensures
        final(writer)@ == old(writer)@ + escape_emit(*table, levels@, band_type as int)(
            i as int,
        ).code,
        r == escape_emit(*table, levels@, band_type as int)(i as int).result,
{
    let n: u8 = (band_type - 9) as u8;
    proof {
        lemma2_to64();
        vstd::bits::lemma_u32_shl_is_mul(1, n as u32);
        vstd::bits::lemma_u32_shl_is_mul(1, (band_type - 2) as u32);
        if n < 8 {
            lemma_pow2_strictly_increases(n as nat, 8);
        }
        if band_type < 17 {
            lemma_pow2_strictly_increases((band_type - 2) as nat, 15);
        }
        lemma_pow2_unfold((band_type - 1) as nat);
        lemma_pow2_pos(n as nat);
    }
    let unit: u32 = 1u32 << n as u32;
    let half: i64 = (1u32 << (band_type - 2) as u32) as i64;
    let s: i32 = levels[i];
    let v: i64 = s as i64 + (half - 1);
    if v < 0 || v >= 2 * half {
        assert(writer@ =~= old(writer)@ + Seq::<bool>::empty());
        return Err(Error::SampleOutOfRange(s));
    }
    let w: u32 = v as u32;
    let byte: u32 = w / unit;
    proof {
        lemma_pow2_adds(n as nat, 8);
        assert(w < unit * 256);
        lemma_fundamental_div_mod(w as int, unit as int);
        assert(byte < 256) by (nonlinear_arith)
            requires
                w < unit * 256,
                w == unit * (w as int / unit as int) + w as int % unit as int,
                w as int % unit as int >= 0,
                byte == w as int / unit as int,
                unit > 0,
        ;
    }
    let symbol: i8 = if byte >= 128 { (byte as i32 - 256) as i8 } else { byte as i8 };
    let ghost start = writer@;
    match write_symbol(writer, table, symbol) {
        Ok(_) => {},
        Err(e) => {
            return Err(e);
        },
    }
    writer.write_bits(w, n);
    assert(writer@ =~= start + (table.emit(symbol).code + bits::field(w as nat, n as nat)));
    Ok(())
}

/// Writes the levels of a band and channel; a noise band and an empty one write nothing.
/// A level that the band type does not code is refused, as is a band type outside
/// `-1..=17`.
pub fn write_band_samples(
    tables: &Sv8TableSet,
    writer: &mut Sv7BitWriter,
    band_type: i8,
    levels: &[i32; SAMPLES_PER_BAND],
) -> (r: Result<()>)
    ensures
        final(writer)@ == old(writer)@ + emit_levels(*tables, band_type, levels@).code,
        r == emit_levels(*tables, band_type, levels@).result,
{
    let ghost start = writer@;
    let ghost whole = emit_levels(*tables, band_type, levels@);
    let ghost mut done: Seq<bool> = Seq::empty();
    proof {
        assert(start + done =~= start);
        assert(whole =~= whole.after(done));
    }
    match sv8_band_type_case(band_type) {
        Sv8BandDecodeCase::Cns | Sv8BandDecodeCase::Empty => Ok(()),
        Sv8BandDecodeCase::SparseBand => {
            let ghost step = group_emit(tables.q1, levels@);
            let mut h: usize = 0;
            while h < 2
                invariant
                    h <= 2,
                    start == old(writer)@,
                    whole == emit_levels(*tables, band_type, levels@),
                    step == group_emit(tables.q1, levels@),
                    whole == coding::emit_each(step, h as int, 2).after(done),
                    writer@ == start + done,
                decreases 2 - h,
            {
                proof {
                    coding::lemma_emit_one(step, h as int, 2, done);
                }
                let ghost piece = step(h as int).code;
                let written: Result<()> = write_group(&tables.q1, writer, levels, h);
                proof {
                    assert(writer@ =~= start + (done + piece));
                    done = done + piece;
                }
                match written {
                    Ok(_) => {},
                    Err(e) => {
                        return Err(e);
                    },
                }
                h = h + 1;
            }
            assert(whole.code =~= done);
            Ok(())
        },
        Sv8BandDecodeCase::Grouped3 => {
            let mut ctx: Sv8Context = match Sv8Context::new(2) {
                Some(c) => c,
                None => return Err(Error::UnsupportedBandType(2)),
            };
            assert(triple_symbols(levels@, 0) =~= Seq::<i8>::empty());
            let ghost step = triple_emit(*tables, levels@);
            let mut g: usize = 0;
            while g < 12
                invariant
                    g <= 12,
                    start == old(writer)@,
                    whole == emit_levels(*tables, band_type, levels@),
                    step == triple_emit(*tables, levels@),
                    ctx@ == sv8_context::after_triples(3, triple_symbols(levels@, g as nat)),
                    whole == coding::emit_each(step, g as int, 12).after(done),
                    writer@ == start + done,
                decreases 12 - g,
            {
                proof {
                    coding::lemma_emit_one(step, g as int, 12, done);
                }
                let ghost piece = step(g as int).code;
                let written: Result<i32> = write_triple(tables, writer, levels, g, &ctx);
                proof {
                    assert(writer@ =~= start + (done + piece));
                    done = done + piece;
                }
                match written {
                    Ok(symbol) => {
                        ctx.update_group(symbol);
                        proof {
                            let more = triple_symbols(levels@, (g + 1) as nat);
                            assert(more.drop_last() =~= triple_symbols(levels@, g as nat));
                            assert(more.last() == symbol as i8);
                        }
                    },
                    Err(e) => {
                        return Err(e);
                    },
                }
                g = g + 1;
            }
            assert(whole.code =~= done);
            Ok(())
        },
        Sv8BandDecodeCase::Grouped2 => {
            let table: &Sv8CanonicalTable = if band_type == 3 { &tables.q3 } else { &tables.q4 };
            let ghost step = pair_emit(*tables, levels@, band_type as int);
            let mut g: usize = 0;
            while g < 18
                invariant
                    g <= 18,
                    3 <= band_type <= 4,
                    *table == tables.table(sv8_sample_decode::sample_role(band_type as int), 0),
                    start == old(writer)@,
                    whole == emit_levels(*tables, band_type, levels@),
                    step == pair_emit(*tables, levels@, band_type as int),
                    whole == coding::emit_each(step, g as int, 18).after(done),
                    writer@ == start + done,
                decreases 18 - g,
            {
                proof {
                    coding::lemma_emit_one(step, g as int, 18, done);
                }
                let ghost piece = step(g as int).code;
                let written: Result<()> = write_pair(
                    table,
                    writer,
                    levels,
                    g,
                    band_type,
                    Ghost(*tables),
                );
                proof {
                    assert(writer@ =~= start + (done + piece));
                    done = done + piece;
                }
                match written {
                    Ok(_) => {},
                    Err(e) => {
                        return Err(e);
                    },
                }
                g = g + 1;
            }
            assert(whole.code =~= done);
            Ok(())
        },
        Sv8BandDecodeCase::ContextHuffmanPerSample => {
            let role: Sv8TableRole = match band_type {
                5 => Sv8TableRole::Q5,
                6 => Sv8TableRole::Q6,
                7 => Sv8TableRole::Q7,
                _ => Sv8TableRole::Q8,
            };
            let mut ctx: Sv8Context = match Sv8Context::new(band_type) {
                Some(c) => c,
                None => return Err(Error::UnsupportedBandType(band_type)),
            };
            let ghost t = sv8_context::threshold(band_type as int)->0 as nat;
            assert(samples(levels@, 0) =~= Seq::<i8>::empty());
            let ghost step = sample_emit(*tables, levels@, band_type as int);
            let mut i: usize = 0;
            while i < 36
                invariant
                    i <= 36,
                    5 <= band_type <= 8,
                    role == sv8_sample_decode::sample_role(band_type as int),
                    t == sv8_context::threshold(band_type as int)->0,
                    start == old(writer)@,
                    whole == emit_levels(*tables, band_type, levels@),
                    step == sample_emit(*tables, levels@, band_type as int),
                    ctx@ == sv8_context::after_samples(t, samples(levels@, i as nat)),
                    whole == coding::emit_each(step, i as int, 36).after(done),
                    writer@ == start + done,
                decreases 36 - i,
            {
                proof {
                    coding::lemma_emit_one(step, i as int, 36, done);
                }
                let ghost piece = step(i as int).code;
                let s: i32 = levels[i];
                if s < -128 || s > 127 {
                    assert(writer@ =~= start + (done + piece));
                    return Err(Error::SampleOutOfRange(s));
                }
                let q: i8 = s as i8;
                let table: &Sv8CanonicalTable = match table_for_role(
                    tables,
                    role,
                    ctx.table_ctx(),
                ) {
                    Some(t) => t,
                    None => return Err(Error::UnsupportedBandType(band_type)),
                };
                let written: Result<()> = write_symbol(writer, table, q);
                proof {
                    assert(writer@ =~= start + (done + piece));
                    done = done + piece;
                }
                match written {
                    Ok(_) => {},
                    Err(e) => {
                        return Err(e);
                    },
                }
                ctx.update_sample(q);
                proof {
                    let more = samples(levels@, (i + 1) as nat);
                    assert(more.drop_last() =~= samples(levels@, i as nat));
                    assert(more.last() == q);
                }
                i = i + 1;
            }
            assert(whole.code =~= done);
            Ok(())
        },
        Sv8BandDecodeCase::LargeCoeffEscape => {
            if band_type > 17 {
                return Err(Error::UnsupportedBandType(band_type));
            }
            let ghost step = escape_emit(tables.q9up, levels@, band_type as int);
            let mut i: usize = 0;
            while i < 36
                invariant
                    i <= 36,
                    9 <= band_type <= 17,
                    start == old(writer)@,
                    whole == emit_levels(*tables, band_type, levels@),
                    step == escape_emit(tables.q9up, levels@, band_type as int),
                    whole == coding::emit_each(step, i as int, 36).after(done),
                    writer@ == start + done,
                decreases 36 - i,
            {
                proof {
                    coding::lemma_emit_one(step, i as int, 36, done);
                }
                let ghost piece = step(i as int).code;
                let written: Result<()> = write_escape(&tables.q9up, writer, levels, i, band_type);
                proof {
                    assert(writer@ =~= start + (done + piece));
                    done = done + piece;
                }
                match written {
                    Ok(_) => {},
                    Err(e) => {
                        return Err(e);
                    },
                }
                i = i + 1;
            }
            assert(whole.code =~= done);
            Ok(())
        },
        Sv8BandDecodeCase::OutOfRange => Err(Error::UnsupportedBandType(band_type)),
    }
}

} // verus!
