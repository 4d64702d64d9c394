//! The sample encoders and decoders undo each other.

use crate::bits;
use crate::cns::CnsPrng;
use crate::coding;
use crate::combinadic;
use crate::error::Error;
use crate::sv8_band_decode;
use crate::sv8_context;
use crate::sv8_huffman::{Sv8CanonicalTable, Sv8TableRole, Sv8TableSet};
use crate::sv8_huffman_encode;
use crate::sv8_sample_decode;
use crate::sv8_sample_encode;
use crate::sv8_stereo_frame;
use vstd::arithmetic::div_mod::*;
use vstd::arithmetic::mul::*;
use vstd::arithmetic::power2::*;
use vstd::prelude::*;

verus! {

proof fn lemma_all_inside(levels: Seq<i32>, from: int, lo: int, hi: int)
    requires
        0 <= from,
    ensures
        (sv8_sample_encode::first_outside(levels, from, lo, hi) is None) == (forall|i: int|
            from <= i < levels.len() ==> lo <= #[trigger] levels[i] <= hi),
    decreases levels.len() - from,
{
    if from < levels.len() {
        lemma_all_inside(levels, from + 1, lo, hi);
        if lo <= levels[from] <= hi {
            assert forall|i: int| from <= i < levels.len() && (forall|j: int|
                from + 1 <= j < levels.len() ==> lo <= #[trigger] levels[j] <= hi) implies lo
                <= #[trigger] levels[i] <= hi by {}
        }
    }
}

// ---------------------------------------------------------------------------
// Sparse bands
// ---------------------------------------------------------------------------

/// The signs of a group read back.
proof fn lemma_signs_read_back(bits: Seq<bool>, pos: nat, l: Seq<i32>)
    requires
        forall|i: int| 0 <= i < l.len() ==> -1 <= #[trigger] l[i] <= 1,
        coding::readable(
            bits,
            pos,
            coding::emit_each(sv8_sample_encode::sign_emit(l), 0, l.len() as int).code,
        ),
        coding::emit_each(sv8_sample_encode::sign_emit(l), 0, l.len() as int).result is Ok,
    ensures
        coding::sweep(
            sv8_sample_decode::sign_step(bits, sv8_sample_encode::nonzero(l)),
            l.len(),
            Seq::<i8>::empty(),
            pos,
        ).parsed() == (
            Ok::<Seq<i8>, Error>(sv8_sample_encode::samples(l, l.len())),
            pos + coding::emit_each(
                sv8_sample_encode::sign_emit(l),
                0,
                l.len() as int,
            ).code.len(),
        ),
{
    let flags = sv8_sample_encode::nonzero(l);
    let parse = sv8_sample_decode::sign_step(bits, flags);
    let emit = sv8_sample_encode::sign_emit(l);
    let items = sv8_sample_encode::samples(l, l.len());
    assert forall|j: int, p: nat|
        0 <= j < items.len() && emit(j).result is Ok && coding::readable(
            bits,
            p,
            emit(j).code,
        ) implies #[trigger] parse(items.take(j), p) == (
        Ok::<i8, Error>(items[j]),
        (p + emit(j).code.len()) as nat,
    ) by {
        assert(items.take(j).len() == j);
        assert(-1 <= l[j] <= 1);
        if l[j] != 0 {
            bits::lemma_bit_at(bits, p, l[j] > 0);
        }
    }
    assert(items.take(0) =~= Seq::<i8>::empty());
    coding::lemma_sweep_reads_back(bits, parse, emit, items, 0, pos);
}

/// A written sparse group reads back.
proof fn lemma_group_reads_back(t: Sv8CanonicalTable, bits: Seq<bool>, pos: nat, l: Seq<i32>)
    requires
        t.canonical(),
        l.len() == 18,
        sv8_sample_encode::emit_group(t, l).result is Ok,
        coding::readable(bits, pos, sv8_sample_encode::emit_group(t, l).code),
    ensures
        sv8_sample_decode::parse_group(t, bits, pos) == (
            Ok::<Seq<i8>, Error>(sv8_sample_encode::samples(l, 18)),
            pos + sv8_sample_encode::emit_group(t, l).code.len(),
        ),
{
    lemma_all_inside(l, 0, -1, 1);
    let flags = sv8_sample_encode::nonzero(l);
    combinadic::lemma_ones_bound(flags);
    let cnt = combinadic::ones(flags);
    let counted = t.emit(cnt as i8);
    let named = combinadic::set_code(flags);
    let signs = coding::emit_each(sv8_sample_encode::sign_emit(l), 0, 18);
    assert(sv8_sample_encode::emit_group(t, l).code == counted.code + named + signs.code);
    bits::lemma_at_concat(bits, pos, counted.code + named, signs.code);
    bits::lemma_at_concat(bits, pos, counted.code, named);
    sv8_huffman_encode::lemma_symbol_reads_back(t, bits, pos, cnt as i8);
    let p = pos + counted.code.len();
    combinadic::lemma_set_reads_back(bits, p, flags);
    let q = p + named.len();
    lemma_signs_read_back(bits, q, l);
}

/// A decoded sparse group encodes to the bits it was decoded from.
proof fn lemma_group_writes_back(t: Sv8CanonicalTable, bits: Seq<bool>, pos: nat)
    requires
        t.reversible(),
        pos <= bits.len(),
        sv8_sample_decode::parse_group(t, bits, pos).0 is Ok,
    ensures
        ({
            let s = sv8_sample_decode::parse_group(t, bits, pos).0->Ok_0;
            let l = sv8_band_decode::widened(s);
            &&& s.len() == 18
            &&& sv8_sample_encode::emit_group(t, l).result is Ok
            &&& coding::consumed(
                bits,
                pos,
                sv8_sample_decode::parse_group(t, bits, pos),
                sv8_sample_encode::emit_group(t, l).code,
            )
        }),
{
    sv8_huffman_encode::lemma_symbol_writes_back(t, bits, pos);
    let (sym, p) = t.parse(bits, pos);
    let cnt = sym->Ok_0 as nat;
    combinadic::lemma_set_writes_back(bits, p, cnt, 18);
    let (set, q) = combinadic::parse_set(bits, p, cnt, 18);
    let flags = set->Ok_0;
    let parse = sv8_sample_decode::sign_step(bits, flags);
    let run = coding::sweep(parse, 18, Seq::<i8>::empty(), q);
    let s = run.done;
    let l = sv8_band_decode::widened(s);
    let fits = |i: int, v: i8| -1 <= v <= 1 && (v != 0) == flags[i];
    assert forall|d: Seq<i8>, x: nat|
        d.len() < 18 && (#[trigger] parse(d, x)).0 is Ok implies fits(
        d.len() as int,
        parse(d, x).0->Ok_0,
    ) by {
        if x < bits.len() {
            bits::lemma_bit_at(bits, x, true);
        }
    }
    coding::lemma_sweep_each(parse, 18, Seq::<i8>::empty(), q, fits);
    coding::lemma_sweep_extends(parse, 18, Seq::<i8>::empty(), q);
    assert forall|i: int| 0 <= i < 18 implies -1 <= #[trigger] l[i] <= 1 && (l[i] != 0)
        == flags[i] by {
        assert(fits(i, run.done[i]));
    }
    assert(sv8_sample_encode::nonzero(l) =~= flags);
    lemma_all_inside(l, 0, -1, 1);
    let emit = sv8_sample_encode::sign_emit(l);
    assert forall|j: int, x: nat|
        0 <= j < s.len() && x <= bits.len() && (#[trigger] parse(s.take(j), x)).0 == Ok::<
            i8,
            Error,
        >(s[j]) implies emit(j).result is Ok && coding::consumed(
        bits,
        x,
        parse(s.take(j), x),
        emit(j).code,
    ) by {
        assert(s.take(j).len() == j);
        assert(fits(j, run.done[j]));
        assert(l[j] == s[j]);
        if flags[j] {
            bits::lemma_bit_at(bits, x, l[j] > 0);
        } else {
            assert(bits.subrange(x as int, x as int) =~= Seq::<bool>::empty());
        }
    }
    assert(s.take(0) =~= Seq::<i8>::empty());
    coding::lemma_sweep_writes_back(bits, parse, emit, s, 0, q);
    let counted = t.emit(sym->Ok_0);
    let named = combinadic::set_code(flags);
    let signs = coding::emit_each(emit, 0, 18);
    bits::lemma_at_concat(bits, pos, counted.code + named, signs.code);
    bits::lemma_at_concat(bits, pos, counted.code, named);
    assert(sv8_sample_encode::emit_group(t, l).code == counted.code + named + signs.code);
}

/// The levels of a sparse band are its halves in a row.
proof fn lemma_sparse_levels(halves: Seq<Seq<i8>>)
    requires
        halves.len() == 2,
        halves[0].len() == 18,
        halves[1].len() == 18,
    ensures
        sv8_stereo_frame::frame_levels(
            1,
            sv8_band_decode::widened(sv8_sample_decode::by_position(halves)),
        ) == sv8_band_decode::widened(halves[0]) + sv8_band_decode::widened(halves[1]),
{
    let raw = sv8_band_decode::widened(sv8_sample_decode::by_position(halves));
    let out = sv8_stereo_frame::frame_levels(1, raw);
    let want = sv8_band_decode::widened(halves[0]) + sv8_band_decode::widened(halves[1]);
    assert forall|j: int| 0 <= j < 36 implies out[j] == want[j] by {
        let k = 18 * (j / 18) + 17 - j % 18;
        assert(0 <= k < 36 && k / 18 == j / 18 && 17 - k % 18 == j % 18);
    }
    assert(out =~= want);
}

// ---------------------------------------------------------------------------
// Packed triples and pairs
// ---------------------------------------------------------------------------

/// The samples of packed triples pack to the same symbols.
proof fn lemma_triples(symbols: Seq<i8>, levels: Seq<i32>)
    requires
        symbols.len() == 12,
        levels.len() == 36,
        forall|i: int| 0 <= i < 12 ==> sv8_sample_decode::is_triple(#[trigger] symbols[i] as int),
        levels == sv8_band_decode::widened(sv8_sample_decode::spread3(symbols)),
    ensures
        forall|g: int|
            0 <= g < 12 ==> #[trigger] sv8_sample_encode::triple_symbol(levels, g) == symbols[g],
        forall|i: int| 0 <= i < 36 ==> -2 <= #[trigger] levels[i] <= 2,
{
    assert forall|i: int| 0 <= i < 36 implies -2 <= #[trigger] levels[i] <= 2 && levels[i]
        == sv8_context::triple_digit(symbols[i / 3] as int, i % 3) by {
        assert(sv8_sample_decode::is_triple(symbols[i / 3] as int));
    }
    assert forall|g: int| 0 <= g < 12 implies #[trigger] sv8_sample_encode::triple_symbol(
        levels,
        g,
    ) == symbols[g] by {
        let s = symbols[g] as int;
        assert(sv8_sample_decode::is_triple(s));
        assert(levels[3 * g] == sv8_context::triple_digit(s, 0)) by {
            assert(3 * g / 3 == g && (3 * g) % 3 == 0);
        }
        assert(levels[3 * g + 1] == sv8_context::triple_digit(s, 1)) by {
            assert((3 * g + 1) / 3 == g && (3 * g + 1) % 3 == 1);
        }
        assert(levels[3 * g + 2] == sv8_context::triple_digit(s, 2)) by {
            assert((3 * g + 2) / 3 == g && (3 * g + 2) % 3 == 2);
        }
        assert(s == s % 5 + 5 * (s / 5 % 5) + 25 * (s / 25));
    }
}

/// Small levels are the samples of the triples that they pack to.
proof fn lemma_triples_back(levels: Seq<i32>)
    requires
        levels.len() == 36,
        forall|i: int| 0 <= i < 36 ==> -2 <= #[trigger] levels[i] <= 2,
    ensures
        sv8_band_decode::widened(
            sv8_sample_decode::spread3(sv8_sample_encode::triple_symbols(levels, 12)),
        ) == levels,
        forall|g: int|
            0 <= g < 12 ==> sv8_sample_decode::is_triple(
                #[trigger] sv8_sample_encode::triple_symbol(levels, g),
            ),
{
    let symbols = sv8_sample_encode::triple_symbols(levels, 12);
    let back = sv8_band_decode::widened(sv8_sample_decode::spread3(symbols));
    assert forall|g: int| 0 <= g < 12 implies sv8_sample_decode::is_triple(
        #[trigger] sv8_sample_encode::triple_symbol(levels, g),
    ) by {
        assert(-2 <= levels[3 * g] <= 2 && -2 <= levels[3 * g + 1] <= 2 && -2 <= levels[3 * g + 2]
            <= 2);
    }
    assert forall|j: int| 0 <= j < 36 implies back[j] == levels[j] by {
        let g = j / 3;
        let a = levels[3 * g] + 2;
        let b = levels[3 * g + 1] + 2;
        let c = levels[3 * g + 2] + 2;
        assert(0 <= a <= 4 && 0 <= b <= 4 && 0 <= c <= 4);
        let s = sv8_sample_encode::triple_symbol(levels, g);
        assert(sv8_sample_decode::is_triple(s));
        assert(s == a + 5 * b + 25 * c);
        assert(s % 5 == a);
        assert(s / 5 % 5 == b);
        assert(s / 25 == c);
        assert(j == 3 * g + j % 3);
    }
    assert(back =~= levels);
}

proof fn lemma_triple_band_reads_back(tables: Sv8TableSet, bits: Seq<bool>, pos: nat, l: Seq<i32>)
    requires
        tables.canonical(),
        l.len() == 36,
        sv8_sample_encode::emit_levels(tables, 2, l).result is Ok,
        coding::readable(bits, pos, sv8_sample_encode::emit_levels(tables, 2, l).code),
    ensures
        ({
            let band = sv8_sample_decode::triple_context_band(tables, bits, pos);
            &&& band.result is Ok
            &&& band.pos == pos + sv8_sample_encode::emit_levels(tables, 2, l).code.len()
            &&& sv8_band_decode::widened(sv8_sample_decode::spread3(band.done)) == l
        }),
{
    let parse = sv8_sample_decode::triple_context_step(tables, bits);
    let emit = sv8_sample_encode::triple_emit(tables, l);
    let items = sv8_sample_encode::triple_symbols(l, 12);
    lemma_each_ok(emit, 0, 12);
    assert forall|i: int| 0 <= i < 36 implies -2 <= #[trigger] l[i] <= 2 by {
        let g = i / 3;
        assert(emit(g).result is Ok);
        let part = l.subrange(3 * g, 3 * g + 3);
        lemma_all_inside(part, 0, -2, 2);
        assert(part[i - 3 * g] == l[i]);
    }
    lemma_triples_back(l);
    assert forall|j: int, p: nat|
        0 <= j < items.len() && emit(j).result is Ok && coding::readable(
            bits,
            p,
            emit(j).code,
        ) implies #[trigger] parse(items.take(j), p) == (
        Ok::<i8, Error>(items[j]),
        (p + emit(j).code.len()) as nat,
    ) by {
        assert(items.take(j) =~= sv8_sample_encode::triple_symbols(l, j as nat));
        let ctx = sv8_context::after_triples(3, items.take(j)).table();
        let t = tables.table(Sv8TableRole::Q2, ctx);
        assert(t.canonical());
        assert(sv8_sample_decode::is_triple(sv8_sample_encode::triple_symbol(l, j)));
        sv8_huffman_encode::lemma_symbol_reads_back(t, bits, p, items[j]);
    }
    assert(items.take(0) =~= Seq::<i8>::empty());
    coding::lemma_sweep_reads_back(bits, parse, emit, items, 0, pos);
}

/// A run that succeeds succeeds in every step.
pub proof fn lemma_each_ok(emit: spec_fn(int) -> coding::Emit, from: int, n: int)
    requires
        coding::emit_each(emit, from, n).result is Ok,
    ensures
        forall|i: int| from <= i < n ==> (#[trigger] emit(i)).result is Ok,
    decreases n - from,
{
    if from < n {
        lemma_each_ok(emit, from + 1, n);
    }
}

proof fn lemma_triple_band_writes_back(tables: Sv8TableSet, bits: Seq<bool>, pos: nat)
    requires
        tables.reversible(),
        pos <= bits.len(),
        sv8_sample_decode::triple_context_band(tables, bits, pos).result is Ok,
    ensures
        ({
            let band = sv8_sample_decode::triple_context_band(tables, bits, pos);
            let l = sv8_band_decode::widened(sv8_sample_decode::spread3(band.done));
            let out = sv8_sample_encode::emit_levels(tables, 2, l);
            &&& l.len() == 36
            &&& out.result is Ok
            &&& bits::at(bits, pos, out.code)
            &&& band.pos == pos + out.code.len()
        }),
{
    let parse = sv8_sample_decode::triple_context_step(tables, bits);
    let band = sv8_sample_decode::triple_context_band(tables, bits, pos);
    let items = band.done;
    let l = sv8_band_decode::widened(sv8_sample_decode::spread3(items));
    let emit = sv8_sample_encode::triple_emit(tables, l);
    let fits = |i: int, v: i8| sv8_sample_decode::is_triple(v as int);
    coding::lemma_sweep_each(parse, 12, Seq::<i8>::empty(), pos, fits);
    coding::lemma_sweep_extends(parse, 12, Seq::<i8>::empty(), pos);
    assert forall|i: int| 0 <= i < 12 implies sv8_sample_decode::is_triple(
        #[trigger] items[i] as int,
    ) by {
        assert(fits(i, band.done[i]));
    }
    lemma_triples(items, l);
    assert forall|j: int, x: nat|
        0 <= j < items.len() && x <= bits.len() && (#[trigger] parse(items.take(j), x)).0 == Ok::<
            i8,
            Error,
        >(items[j]) implies emit(j).result is Ok && coding::consumed(
        bits,
        x,
        parse(items.take(j), x),
        emit(j).code,
    ) by {
        assert forall|i: int| 0 <= i < j implies sv8_sample_encode::triple_symbols(
            l,
            j as nat,
        )[i] == items[i] by {
            assert(sv8_sample_encode::triple_symbol(l, i) == items[i]);
        }
        assert(items.take(j) =~= sv8_sample_encode::triple_symbols(l, j as nat));
        let part = l.subrange(3 * j, 3 * j + 3);
        lemma_all_inside(part, 0, -2, 2);
        assert forall|i: int| 0 <= i < part.len() implies -2 <= #[trigger] part[i] <= 2 by {
            assert(part[i] == l[3 * j + i]);
        }
        let ctx = sv8_context::after_triples(3, items.take(j)).table();
        let t = tables.table(Sv8TableRole::Q2, ctx);
        assert(t.reversible());
        assert(sv8_sample_encode::triple_symbol(l, j) == items[j]);
        sv8_huffman_encode::lemma_symbol_writes_back(t, bits, x);
    }
    assert(items.take(0) =~= Seq::<i8>::empty());
    coding::lemma_sweep_writes_back(bits, parse, emit, items, 0, pos);
}

/// A symbol splits into the nibbles that pack to it.
proof fn lemma_pair_of_symbol(s: int)
    requires
        -128 <= s <= 127,
    ensures
        sv8_sample_encode::pair_symbol(
            sv8_sample_decode::pair_digit(s, 0),
            sv8_sample_decode::pair_digit(s, 1),
        ) == s,
{
    let u = sv8_sample_decode::as_byte(s);
    assert(0 <= u < 256);
    assert(sv8_sample_decode::pair_digit(s, 0) % 16 == u % 16);
    assert(sv8_sample_decode::pair_digit(s, 1) % 16 == u / 16);
}

/// Two levels pack to a symbol that splits into them.
proof fn lemma_symbol_of_pair(a: int, b: int)
    requires
        -8 <= a <= 7,
        -8 <= b <= 7,
    ensures
        -128 <= sv8_sample_encode::pair_symbol(a, b) <= 127,
        sv8_sample_decode::pair_digit(sv8_sample_encode::pair_symbol(a, b), 0) == a,
        sv8_sample_decode::pair_digit(sv8_sample_encode::pair_symbol(a, b), 1) == b,
{
    let byte = 16 * (b % 16) + a % 16;
    let s = sv8_sample_encode::pair_symbol(a, b);
    assert(sv8_sample_decode::as_byte(s) == byte);
    assert(byte % 16 == a % 16 && byte / 16 == b % 16);
}

proof fn lemma_pair_band_reads_back(
    tables: Sv8TableSet,
    bits: Seq<bool>,
    pos: nat,
    band_type: i8,
    l: Seq<i32>,
)
    requires
        tables.canonical(),
        3 <= band_type <= 4,
        l.len() == 36,
        sv8_sample_encode::emit_levels(tables, band_type, l).result is Ok,
        coding::readable(bits, pos, sv8_sample_encode::emit_levels(tables, band_type, l).code),
    ensures
        ({
            let band = sv8_sample_decode::pair_band(tables, bits, pos, band_type as int);
            &&& band.result is Ok
            &&& band.pos == pos + sv8_sample_encode::emit_levels(tables, band_type, l).code.len()
            &&& sv8_band_decode::widened(sv8_sample_decode::spread2(band.done)) == l
        }),
{
    let bt = band_type as int;
    let parse = sv8_sample_decode::pair_step(tables, bits, bt);
    let emit = sv8_sample_encode::pair_emit(tables, l, bt);
    let items = Seq::new(
        18,
        |g: int|
            sv8_sample_encode::pair_symbol(l[2 * g] as int, l[2 * g + 1] as int) as i8,
    );
    lemma_each_ok(emit, 0, 18);
    assert forall|i: int| 0 <= i < 36 implies -bt <= #[trigger] l[i] <= bt by {
        let g = i / 2;
        assert(emit(g).result is Ok);
        let part = l.subrange(2 * g, 2 * g + 2);
        lemma_all_inside(part, 0, -bt, bt);
        assert(part[i - 2 * g] == l[i]);
    }
    let t = tables.table(sv8_sample_decode::sample_role(bt), 0);
    assert(t.canonical());
    assert forall|j: int, p: nat|
        0 <= j < items.len() && emit(j).result is Ok && coding::readable(
            bits,
            p,
            emit(j).code,
        ) implies #[trigger] parse(items.take(j), p) == (
        Ok::<i8, Error>(items[j]),
        (p + emit(j).code.len()) as nat,
    ) by {
        assert(-bt <= l[2 * j] <= bt && -bt <= l[2 * j + 1] <= bt);
        lemma_symbol_of_pair(l[2 * j] as int, l[2 * j + 1] as int);
        sv8_huffman_encode::lemma_symbol_reads_back(t, bits, p, items[j]);
    }
    assert(items.take(0) =~= Seq::<i8>::empty());
    coding::lemma_sweep_reads_back(bits, parse, emit, items, 0, pos);
    let back = sv8_band_decode::widened(sv8_sample_decode::spread2(items));
    assert forall|j: int| 0 <= j < 36 implies back[j] == l[j] by {
        let g = j / 2;
        assert(-bt <= l[2 * g] <= bt && -bt <= l[2 * g + 1] <= bt);
        lemma_symbol_of_pair(l[2 * g] as int, l[2 * g + 1] as int);
        assert(j == 2 * g + j % 2);
    }
    assert(back =~= l);
}

proof fn lemma_pair_band_writes_back(
    tables: Sv8TableSet,
    bits: Seq<bool>,
    pos: nat,
    band_type: i8,
)
    requires
        tables.reversible(),
        3 <= band_type <= 4,
        pos <= bits.len(),
        sv8_sample_decode::pair_band(tables, bits, pos, band_type as int).result is Ok,
    ensures
        ({
            let band = sv8_sample_decode::pair_band(tables, bits, pos, band_type as int);
            let l = sv8_band_decode::widened(sv8_sample_decode::spread2(band.done));
            let out = sv8_sample_encode::emit_levels(tables, band_type, l);
            &&& l.len() == 36
            &&& out.result is Ok
            &&& bits::at(bits, pos, out.code)
            &&& band.pos == pos + out.code.len()
        }),
{
    let bt = band_type as int;
    let parse = sv8_sample_decode::pair_step(tables, bits, bt);
    let band = sv8_sample_decode::pair_band(tables, bits, pos, bt);
    let items = band.done;
    let l = sv8_band_decode::widened(sv8_sample_decode::spread2(items));
    let emit = sv8_sample_encode::pair_emit(tables, l, bt);
    let fits = |i: int, v: i8| sv8_sample_decode::is_pair(v as int, bt);
    coding::lemma_sweep_each(parse, 18, Seq::<i8>::empty(), pos, fits);
    coding::lemma_sweep_extends(parse, 18, Seq::<i8>::empty(), pos);
    let t = tables.table(sv8_sample_decode::sample_role(bt), 0);
    assert(t.reversible());
    assert forall|j: int, x: nat|
        0 <= j < items.len() && x <= bits.len() && (#[trigger] parse(items.take(j), x)).0 == Ok::<
            i8,
            Error,
        >(items[j]) implies emit(j).result is Ok && coding::consumed(
        bits,
        x,
        parse(items.take(j), x),
        emit(j).code,
    ) by {
        let s = items[j] as int;
        assert(fits(j, band.done[j]));
        assert(l[2 * j] == sv8_sample_decode::pair_digit(s, 0)) by {
            assert(2 * j / 2 == j && (2 * j) % 2 == 0);
        }
        assert(l[2 * j + 1] == sv8_sample_decode::pair_digit(s, 1)) by {
            assert((2 * j + 1) / 2 == j && (2 * j + 1) % 2 == 1);
        }
        lemma_pair_of_symbol(s);
        let part = l.subrange(2 * j, 2 * j + 2);
        assert(part[0] == l[2 * j] && part[1] == l[2 * j + 1]);
        lemma_all_inside(part, 0, -bt, bt);
        sv8_huffman_encode::lemma_symbol_writes_back(t, bits, x);
    }
    assert(items.take(0) =~= Seq::<i8>::empty());
    coding::lemma_sweep_writes_back(bits, parse, emit, items, 0, pos);
}

// ---------------------------------------------------------------------------
// Samples on their own
// ---------------------------------------------------------------------------

proof fn lemma_sample_band_reads_back(
    tables: Sv8TableSet,
    bits: Seq<bool>,
    pos: nat,
    band_type: i8,
    l: Seq<i32>,
)
    requires
        tables.canonical(),
        5 <= band_type <= 8,
        l.len() == 36,
        sv8_sample_encode::emit_levels(tables, band_type, l).result is Ok,
        coding::readable(bits, pos, sv8_sample_encode::emit_levels(tables, band_type, l).code),
    ensures
        ({
            let band = sv8_sample_decode::sample_band(tables, bits, pos, band_type as int);
            &&& band.result is Ok
            &&& band.pos == pos + sv8_sample_encode::emit_levels(tables, band_type, l).code.len()
            &&& sv8_band_decode::widened(band.done) == l
        }),
{
    let bt = band_type as int;
    let parse = sv8_sample_decode::sample_context_step(tables, bits, bt);
    let emit = sv8_sample_encode::sample_emit(tables, l, bt);
    let items = sv8_sample_encode::samples(l, 36);
    lemma_each_ok(emit, 0, 36);
    assert forall|j: int, p: nat|
        0 <= j < items.len() && emit(j).result is Ok && coding::readable(
            bits,
            p,
            emit(j).code,
        ) implies #[trigger] parse(items.take(j), p) == (
        Ok::<i8, Error>(items[j]),
        (p + emit(j).code.len()) as nat,
    ) by {
        assert(items.take(j) =~= sv8_sample_encode::samples(l, j as nat));
        let ctx = sv8_context::after_samples(
            sv8_context::threshold(bt)->0 as nat,
            items.take(j),
        ).table();
        let t = tables.table(sv8_sample_decode::sample_role(bt), ctx);
        assert(t.canonical());
        sv8_huffman_encode::lemma_symbol_reads_back(t, bits, p, items[j]);
    }
    assert(items.take(0) =~= Seq::<i8>::empty());
    coding::lemma_sweep_reads_back(bits, parse, emit, items, 0, pos);
    assert forall|j: int| 0 <= j < 36 implies sv8_band_decode::widened(items)[j] == l[j] by {
        assert(emit(j).result is Ok);
    }
    assert(sv8_band_decode::widened(items) =~= l);
}

proof fn lemma_sample_band_writes_back(
    tables: Sv8TableSet,
    bits: Seq<bool>,
    pos: nat,
    band_type: i8,
)
    requires
        tables.reversible(),
        5 <= band_type <= 8,
        pos <= bits.len(),
        sv8_sample_decode::sample_band(tables, bits, pos, band_type as int).result is Ok,
    ensures
        ({
            let band = sv8_sample_decode::sample_band(tables, bits, pos, band_type as int);
            let l = sv8_band_decode::widened(band.done);
            let out = sv8_sample_encode::emit_levels(tables, band_type, l);
            &&& l.len() == 36
            &&& out.result is Ok
            &&& bits::at(bits, pos, out.code)
            &&& band.pos == pos + out.code.len()
        }),
{
    let bt = band_type as int;
    let parse = sv8_sample_decode::sample_context_step(tables, bits, bt);
    let items = sv8_sample_decode::sample_band(tables, bits, pos, bt).done;
    let l = sv8_band_decode::widened(items);
    let emit = sv8_sample_encode::sample_emit(tables, l, bt);
    coding::lemma_sweep_extends(parse, 36, Seq::<i8>::empty(), pos);
    assert forall|j: int, x: nat|
        0 <= j < items.len() && x <= bits.len() && (#[trigger] parse(items.take(j), x)).0 == Ok::<
            i8,
            Error,
        >(items[j]) implies emit(j).result is Ok && coding::consumed(
        bits,
        x,
        parse(items.take(j), x),
        emit(j).code,
    ) by {
        assert(items.take(j) =~= sv8_sample_encode::samples(l, j as nat));
        let ctx = sv8_context::after_samples(
            sv8_context::threshold(bt)->0 as nat,
            items.take(j),
        ).table();
        let t = tables.table(sv8_sample_decode::sample_role(bt), ctx);
        assert(t.reversible());
        assert(l[j] as i8 == items[j]);
        sv8_huffman_encode::lemma_symbol_writes_back(t, bits, x);
    }
    assert(items.take(0) =~= Seq::<i8>::empty());
    coding::lemma_sweep_writes_back(bits, parse, emit, items, 0, pos);
}

// ---------------------------------------------------------------------------
// Large levels
// ---------------------------------------------------------------------------

/// A large level, taken apart into its signed byte and its raw bits, and put together.
proof fn lemma_escape_parts(v: int, n: nat)
    requires
        n <= 8,
        0 <= v < pow2(n + 8),
    ensures
        ({
            let unit = pow2(n) as int;
            let s = sv8_sample_encode::as_signed_byte(v / unit) as int;
            let x = s * unit + v % unit;
            &&& -128 <= s <= 127
            &&& 0 <= v % unit < unit
            &&& -0x8000 <= x < 0x8000
            &&& x % pow2(n + 8) as int == v
            &&& unit * 256 == pow2(n + 8)
            &&& 1 <= unit <= 256
        }),
{
    lemma2_to64();
    lemma_pow2_adds(n, 8);
    lemma_pow2_pos(n);
    if n < 8 {
        lemma_pow2_strictly_increases(n, 8);
    }
    let unit = pow2(n) as int;
    let whole = pow2(n + 8) as int;
    let b = v / unit;
    let r = v % unit;
    lemma_fundamental_div_mod(v, unit);
    assert(0 <= b < 256) by (nonlinear_arith)
        requires
            v == unit * b + r,
            0 <= r < unit,
            0 <= v < unit * 256,
            unit > 0,
    ;
    let s = sv8_sample_encode::as_signed_byte(b) as int;
    let x = s * unit + r;
    lemma_mul_is_commutative(unit, b);
    if b >= 128 {
        assert(x == v - whole) by (nonlinear_arith)
            requires
                x == (b - 256) * unit + r,
                v == unit * b + r,
                whole == unit * 256,
        ;
        lemma_small_mod(v as nat, whole as nat);
        lemma_mod_add_multiples_vanish(x, whole);
    } else {
        assert(x == v);
        lemma_small_mod(v as nat, whole as nat);
    }
    assert(-128 * 256 <= x < 128 * 256) by (nonlinear_arith)
        requires
            x == s * unit + r,
            -128 <= s <= 127,
            0 <= r < unit,
            1 <= unit <= 256,
    ;
}

/// A decoded large level, taken apart again.
proof fn lemma_escape_join(s: int, r: int, n: nat)
    requires
        n <= 8,
        -128 <= s <= 127,
        0 <= r < pow2(n),
    ensures
        ({
            let unit = pow2(n) as int;
            let x = s * unit + r;
            let v = x % pow2(n + 8) as int;
            &&& 0 <= v < pow2(n + 8)
            &&& sv8_sample_encode::as_signed_byte(v / unit) == s
            &&& v % unit == r
            &&& -0x8000 <= x < 0x8000
        }),
{
    lemma2_to64();
    lemma_pow2_adds(n, 8);
    lemma_pow2_pos(n);
    if n < 8 {
        lemma_pow2_strictly_increases(n, 8);
    }
    let unit = pow2(n) as int;
    let whole = pow2(n + 8) as int;
    let x = s * unit + r;
    let b = if s < 0 {
        s + 256
    } else {
        s
    };
    let v = b * unit + r;
    assert(0 <= v < whole) by (nonlinear_arith)
        requires
            v == b * unit + r,
            0 <= b < 256,
            0 <= r < unit,
            whole == unit * 256,
    ;
    assert(x == v || x == v - whole) by (nonlinear_arith)
        requires
            x == s * unit + r,
            v == b * unit + r,
            b == s || b == s + 256,
            whole == unit * 256,
    ;
    lemma_small_mod(v as nat, whole as nat);
    if x != v {
        lemma_mod_add_multiples_vanish(x, whole);
    }
    lemma_fundamental_div_mod_converse(v, unit, b, r);
    assert(-128 * 256 <= x < 128 * 256) by (nonlinear_arith)
        requires
            x == s * unit + r,
            -128 <= s <= 127,
            0 <= r < unit,
            1 <= unit <= 256,
    ;
}

proof fn lemma_escape_band_reads_back(
    tables: Sv8TableSet,
    bits: Seq<bool>,
    pos: nat,
    band_type: i8,
    l: Seq<i32>,
)
    requires
        tables.canonical(),
        9 <= band_type <= 17,
        l.len() == 36,
        sv8_sample_encode::emit_levels(tables, band_type, l).result is Ok,
        coding::readable(bits, pos, sv8_sample_encode::emit_levels(tables, band_type, l).code),
    ensures
        ({
            let band = sv8_sample_decode::escape_band(tables, bits, pos, band_type as int);
            &&& band.result is Ok
            &&& band.done.len() == 36
            &&& band.pos == pos + sv8_sample_encode::emit_levels(tables, band_type, l).code.len()
            &&& sv8_stereo_frame::frame_levels(band_type as int, band.done) == l
        }),
{
    let bt = band_type as int;
    let n = (bt - 9) as nat;
    let unit = pow2(n) as int;
    let d = sv8_stereo_frame::level_offset(bt);
    let t = tables.table(Sv8TableRole::Q9up, 0);
    assert(t.canonical());
    let parse = sv8_sample_decode::escape_step(tables.q9up, bits, n);
    let emit = sv8_sample_encode::escape_emit(tables.q9up, l, bt);
    let items = Seq::new(
        36,
        |i: int|
            (sv8_sample_encode::as_signed_byte((l[i] + d) / unit) * unit + (l[i] + d)
                % unit) as i32,
    );
    lemma_each_ok(emit, 0, 36);
    assert forall|j: int, p: nat|
        0 <= j < items.len() && emit(j).result is Ok && coding::readable(
            bits,
            p,
            emit(j).code,
        ) implies #[trigger] parse(items.take(j), p) == (
        Ok::<i32, Error>(items[j]),
        (p + emit(j).code.len()) as nat,
    ) by {
        let v = l[j] + d;
        lemma_escape_parts(v, n);
        let s = sv8_sample_encode::as_signed_byte(v / unit);
        let high = t.emit(s);
        let low = bits::field(v as nat, n);
        bits::lemma_field_mod(v as nat, n);
        bits::lemma_field_len(v as nat, n);
        bits::lemma_at_concat(bits, p, high.code, low);
        sv8_huffman_encode::lemma_symbol_reads_back(t, bits, p, s);
        bits::lemma_field_at(bits, p + high.code.len(), (v % unit) as nat, n);
    }
    assert(items.take(0) =~= Seq::<i32>::empty());
    coding::lemma_sweep_reads_back(bits, parse, emit, items, 0, pos);
    let back = sv8_stereo_frame::frame_levels(bt, items);
    assert forall|j: int| 0 <= j < 36 implies back[j] == l[j] by {
        assert(emit(j).result is Ok);
        lemma_escape_parts(l[j] + d, n);
    }
    assert(back =~= l);
}

proof fn lemma_escape_band_writes_back(
    tables: Sv8TableSet,
    bits: Seq<bool>,
    pos: nat,
    band_type: i8,
)
    requires
        tables.reversible(),
        9 <= band_type <= 17,
        pos <= bits.len(),
        sv8_sample_decode::escape_band(tables, bits, pos, band_type as int).result is Ok,
    ensures
        ({
            let band = sv8_sample_decode::escape_band(tables, bits, pos, band_type as int);
            let l = sv8_stereo_frame::frame_levels(band_type as int, band.done);
            let out = sv8_sample_encode::emit_levels(tables, band_type, l);
            &&& l.len() == 36
            &&& out.result is Ok
            &&& bits::at(bits, pos, out.code)
            &&& band.pos == pos + out.code.len()
        }),
{
    let bt = band_type as int;
    let n = (bt - 9) as nat;
    let unit = pow2(n) as int;
    let d = sv8_stereo_frame::level_offset(bt);
    let t = tables.table(Sv8TableRole::Q9up, 0);
    assert(t.reversible());
    lemma2_to64();
    lemma_pow2_unfold((bt - 1) as nat);
    if bt < 17 {
        lemma_pow2_strictly_increases((bt - 2) as nat, 15);
    }
    lemma_pow2_pos((bt - 2) as nat);
    let parse = sv8_sample_decode::escape_step(tables.q9up, bits, n);
    let items = sv8_sample_decode::escape_band(tables, bits, pos, bt).done;
    let l = sv8_stereo_frame::frame_levels(bt, items);
    let emit = sv8_sample_encode::escape_emit(tables.q9up, l, bt);
    coding::lemma_sweep_extends(parse, 36, Seq::<i32>::empty(), pos);
    assert forall|j: int, x: nat|
        0 <= j < items.len() && x <= bits.len() && (#[trigger] parse(items.take(j), x)).0 == Ok::<
            i32,
            Error,
        >(items[j]) implies emit(j).result is Ok && coding::consumed(
        bits,
        x,
        parse(items.take(j), x),
        emit(j).code,
    ) by {
        let (sym, p) = t.parse(bits, x);
        let s = sym->Ok_0;
        let part = bits.subrange(p as int, (p + n) as int);
        let r = bits::value(part);
        bits::lemma_value_bound(part);
        bits::lemma_bits_of_value(part);
        lemma_escape_join(s as int, r as int, n);
        if n < 8 {
            lemma_pow2_strictly_increases(n, 8);
        }
        let v = items[j] as int % pow2((bt - 1) as nat) as int;
        assert(l[j] + d == v);
        sv8_huffman_encode::lemma_symbol_writes_back(t, bits, x);
        bits::lemma_field_mod(v as nat, n);
        bits::lemma_field_len(r, n);
        bits::lemma_at_concat(bits, x, t.emit(s).code, bits::field(v as nat, n));
    }
    assert(items.take(0) =~= Seq::<i32>::empty());
    coding::lemma_sweep_writes_back(bits, parse, emit, items, 0, pos);
}

// ---------------------------------------------------------------------------
// All bands
// ---------------------------------------------------------------------------

proof fn lemma_sparse_band_reads_back(tables: Sv8TableSet, bits: Seq<bool>, pos: nat, l: Seq<i32>)
    requires
        tables.canonical(),
        l.len() == 36,
        sv8_sample_encode::emit_levels(tables, 1, l).result is Ok,
        coding::readable(bits, pos, sv8_sample_encode::emit_levels(tables, 1, l).code),
    ensures
        ({
            let band = sv8_sample_decode::sparse_band(tables, bits, pos);
            &&& band.result is Ok
            &&& band.pos == pos + sv8_sample_encode::emit_levels(tables, 1, l).code.len()
            &&& sv8_stereo_frame::frame_levels(
                1,
                sv8_band_decode::widened(sv8_sample_decode::by_position(band.done)),
            ) == l
        }),
{
    let t = tables.table(Sv8TableRole::Q1, 0);
    assert(t.canonical());
    let parse = sv8_sample_decode::group_step(tables.q1, bits);
    let emit = sv8_sample_encode::group_emit(tables.q1, l);
    let items = Seq::new(
        2,
        |h: int| sv8_sample_encode::samples(sv8_sample_encode::half(l, h), 18),
    );
    lemma_each_ok(emit, 0, 2);
    assert forall|j: int, p: nat|
        0 <= j < items.len() && emit(j).result is Ok && coding::readable(
            bits,
            p,
            emit(j).code,
        ) implies #[trigger] parse(items.take(j), p) == (
        Ok::<Seq<i8>, Error>(items[j]),
        (p + emit(j).code.len()) as nat,
    ) by {
        lemma_group_reads_back(t, bits, p, sv8_sample_encode::half(l, j));
    }
    assert(items.take(0) =~= Seq::<Seq<i8>>::empty());
    coding::lemma_sweep_reads_back(bits, parse, emit, items, 0, pos);
    lemma_sparse_levels(items);
    let want = sv8_band_decode::widened(items[0]) + sv8_band_decode::widened(items[1]);
    assert forall|j: int| 0 <= j < 36 implies want[j] == l[j] by {
        let h = j / 18;
        let part = sv8_sample_encode::half(l, h);
        assert(emit(h).result is Ok);
        lemma_all_inside(part, 0, -1, 1);
        assert(part[j - 18 * h] == l[j]);
    }
    assert(want =~= l);
}

proof fn lemma_sparse_band_writes_back(tables: Sv8TableSet, bits: Seq<bool>, pos: nat)
    requires
        tables.reversible(),
        pos <= bits.len(),
        sv8_sample_decode::sparse_band(tables, bits, pos).result is Ok,
    ensures
        ({
            let band = sv8_sample_decode::sparse_band(tables, bits, pos);
            let l = sv8_stereo_frame::frame_levels(
                1,
                sv8_band_decode::widened(sv8_sample_decode::by_position(band.done)),
            );
            let out = sv8_sample_encode::emit_levels(tables, 1, l);
            &&& l.len() == 36
            &&& out.result is Ok
            &&& bits::at(bits, pos, out.code)
            &&& band.pos == pos + out.code.len()
        }),
{
    let t = tables.table(Sv8TableRole::Q1, 0);
    assert(t.reversible());
    let parse = sv8_sample_decode::group_step(tables.q1, bits);
    let band = sv8_sample_decode::sparse_band(tables, bits, pos);
    let items = band.done;
    let fits = |i: int, v: Seq<i8>| v.len() == 18;
    assert forall|d: Seq<Seq<i8>>, x: nat|
        d.len() < 2 && (#[trigger] parse(d, x)).0 is Ok implies fits(
        d.len() as int,
        parse(d, x).0->Ok_0,
    ) by {
        lemma_group_len(t, bits, x);
    }
    coding::lemma_sweep_each(parse, 2, Seq::<Seq<i8>>::empty(), pos, fits);
    coding::lemma_sweep_extends(parse, 2, Seq::<Seq<i8>>::empty(), pos);
    assert(fits(0, band.done[0]) && fits(1, band.done[1]));
    let l = sv8_stereo_frame::frame_levels(
        1,
        sv8_band_decode::widened(sv8_sample_decode::by_position(items)),
    );
    lemma_sparse_levels(items);
    let emit = sv8_sample_encode::group_emit(tables.q1, l);
    assert forall|j: int, x: nat|
        0 <= j < items.len() && x <= bits.len() && (#[trigger] parse(items.take(j), x)).0 == Ok::<
            Seq<i8>,
            Error,
        >(items[j]) implies emit(j).result is Ok && coding::consumed(
        bits,
        x,
        parse(items.take(j), x),
        emit(j).code,
    ) by {
        lemma_group_writes_back(t, bits, x);
        assert(sv8_sample_encode::half(l, j) =~= sv8_band_decode::widened(items[j]));
    }
    assert(items.take(0) =~= Seq::<Seq<i8>>::empty());
    coding::lemma_sweep_writes_back(bits, parse, emit, items, 0, pos);
}

proof fn lemma_group_len(t: Sv8CanonicalTable, bits: Seq<bool>, pos: nat)
    requires
        sv8_sample_decode::parse_group(t, bits, pos).0 is Ok,
    ensures
        sv8_sample_decode::parse_group(t, bits, pos).0->Ok_0.len() == 18,
{
    let (sym, p) = t.parse(bits, pos);
    let (set, q) = combinadic::parse_set(bits, p, sym->Ok_0 as nat, 18);
    coding::lemma_sweep_extends(
        sv8_sample_decode::sign_step(bits, set->Ok_0),
        18,
        Seq::<i8>::empty(),
        q,
    );
}

/// Levels that a band type codes are decoded from what they were written as, and the
/// reader stands behind it.
pub proof fn law_levels_read_back(
    tables: Sv8TableSet,
    bits: Seq<bool>,
    pos: nat,
    band_type: i8,
    levels: Seq<i32>,
    noise: CnsPrng,
)
    requires
        tables.canonical(),
        1 <= band_type <= 17,
        levels.len() == 36,
        sv8_sample_encode::emit_levels(tables, band_type, levels).result is Ok,
        coding::readable(bits, pos, sv8_sample_encode::emit_levels(tables, band_type, levels).code),
    ensures
        sv8_stereo_frame::parse_channel_levels(tables, bits, pos, band_type, noise) == (
            Ok::<Seq<i32>, Error>(levels),
            pos + sv8_sample_encode::emit_levels(tables, band_type, levels).code.len(),
        ),
{
    if band_type == 1 {
        lemma_sparse_band_reads_back(tables, bits, pos, levels);
    } else if band_type == 2 {
        lemma_triple_band_reads_back(tables, bits, pos, levels);
    } else if band_type <= 4 {
        lemma_pair_band_reads_back(tables, bits, pos, band_type, levels);
    } else if band_type <= 8 {
        lemma_sample_band_reads_back(tables, bits, pos, band_type, levels);
    } else {
        lemma_escape_band_reads_back(tables, bits, pos, band_type, levels);
        let band = sv8_sample_decode::escape_band(tables, bits, pos, band_type as int);
        assert(coding::overwritten(sv8_band_decode::silence(), band.done) =~= band.done);
    }
}

/// Decoded levels are written as the bits that they were decoded from.
pub proof fn law_levels_write_back(
    tables: Sv8TableSet,
    bits: Seq<bool>,
    pos: nat,
    band_type: i8,
    noise: CnsPrng,
)
    requires
        tables.reversible(),
        1 <= band_type <= 17,
        pos <= bits.len(),
        sv8_stereo_frame::parse_channel_levels(tables, bits, pos, band_type, noise).0 is Ok,
    ensures
        ({
            let read = sv8_stereo_frame::parse_channel_levels(tables, bits, pos, band_type, noise);
            let out = sv8_sample_encode::emit_levels(tables, band_type, read.0->Ok_0);
            &&& read.0->Ok_0.len() == 36
            &&& out.result is Ok
            &&& coding::consumed(bits, pos, read, out.code)
        }),
{
    if band_type == 1 {
        lemma_sparse_band_writes_back(tables, bits, pos);
    } else if band_type == 2 {
        lemma_triple_band_writes_back(tables, bits, pos);
    } else if band_type <= 4 {
        lemma_pair_band_writes_back(tables, bits, pos, band_type);
    } else if band_type <= 8 {
        lemma_sample_band_writes_back(tables, bits, pos, band_type);
    } else {
        lemma_escape_band_writes_back(tables, bits, pos, band_type);
        let band = sv8_sample_decode::escape_band(tables, bits, pos, band_type as int);
        coding::lemma_sweep_extends(
            sv8_sample_decode::escape_step(tables.q9up, bits, (band_type - 9) as nat),
            36,
            Seq::<i32>::empty(),
            pos,
        );
        assert(coding::overwritten(sv8_band_decode::silence(), band.done) =~= band.done);
    }
}

} // verus!
