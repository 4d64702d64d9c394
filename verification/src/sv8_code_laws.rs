//! What holds of the code words of canonical codes: none starts another, they alone decide
//! what is read, and so words of two walks can alternate.

use crate::bits;
use crate::coding;
use crate::coding::Swept;
use crate::error::Error;
use crate::sv8_band_header;
use crate::sv8_huffman;
use crate::sv8_huffman::{Sv8CanonicalEntry, Sv8CanonicalTable, Sv8TableRole, Sv8TableSet};
use crate::sv8_huffman_encode;
use vstd::arithmetic::div_mod::*;
use vstd::arithmetic::power2::*;
use vstd::prelude::*;

verus! {

// ---------------------------------------------------------------------------
// Code words
// ---------------------------------------------------------------------------

/// In a canonical code the words of two positions have 1 to 16 bits, and neither starts the
/// other.
pub proof fn law_words_are_prefix_free(t: Sv8CanonicalTable, i: int, j: int)
    requires
        t.canonical(),
        i != j,
        t.index_code(i) is Some,
        t.index_code(j) is Some,
    ensures
        1 <= t.index_code(i)->0.len() <= 16,
        1 <= t.index_code(j)->0.len() <= 16,
        !t.index_code(i)->0.is_prefix_of(t.index_code(j)->0),
        !t.index_code(j)->0.is_prefix_of(t.index_code(i)->0),
{
    lemma_no_prefix(t, i, j);
    lemma_no_prefix(t, j, i);
}

/// The word of a position does not start that of another.
proof fn lemma_no_prefix(t: Sv8CanonicalTable, i: int, j: int)
    requires
        t.canonical(),
        i != j,
        t.index_code(i) is Some,
        t.index_code(j) is Some,
    ensures
        1 <= t.index_code(i)->0.len() <= 16,
        !t.index_code(i)->0.is_prefix_of(t.index_code(j)->0),
{
    let a = t.index_code(i)->0;
    let b = t.index_code(j)->0;
    sv8_huffman_encode::lemma_covering_row(t.lengths@, 0, i);
    let r = sv8_huffman_encode::covering_row(t.lengths@, 0, i)->0;
    bits::lemma_field_len(
        sv8_huffman_encode::bin_of(t.lengths@, r, i) as nat,
        t.lengths@[r].length as nat,
    );
    if a.is_prefix_of(b) {
        let s = b + bits::zeros(16);
        assert(s.subrange(0, b.len() as int) =~= b);
        assert(s.subrange(0, a.len() as int) =~= a);
        sv8_huffman_encode::lemma_index_reads_back(t, s, 0, i);
        sv8_huffman_encode::lemma_index_reads_back(t, s, 0, j);
        assert(i as usize == j as usize);
    }
}

/// Windows with the same first bits match the same row.
proof fn lemma_same_row(t: Sv8CanonicalTable, peek: int, other: int, r: int)
    requires
        t.canonical(),
        0 <= peek,
        0 <= other,
        sv8_huffman::matching_row(t.lengths@, 0, peek) == Some(r),
        peek / t.lengths@[r].step() as int == other / t.lengths@[r].step() as int,
    ensures
        0 <= r < t.lengths@.len(),
        t.lengths@[r].is_code(),
        sv8_huffman::matching_row(t.lengths@, 0, other) == Some(r),
{
    let rows = t.lengths@;
    sv8_huffman_encode::lemma_matched(rows, 0, peek);
    let e = rows[r];
    let step = e.step() as int;
    let low = (16 - e.length) as nat;
    lemma_pow2_pos(low);
    lemma_fundamental_div_mod(peek, step);
    lemma_fundamental_div_mod(other, step);
    lemma_fundamental_div_mod(e.code as int, step);
    let k = peek / step;
    assert(e.code <= other) by (nonlinear_arith)
        requires
            e.code == step * (e.code as int / step) + e.code as int % step,
            e.code as int % step == 0,
            e.code <= peek,
            peek == step * k + peek % step,
            0 <= peek % step < step,
            other == step * k + other % step,
            0 <= other % step,
            step > 0,
    ;
    assert forall|q: int| 0 <= q < r implies !((#[trigger] rows[q]).is_code() && rows[q].code
        <= other) by {
        if rows[q].is_code() {
            lemma_not_before(rows, 0, peek, q);
            assert(rows[q].length <= e.length);
            let d = (e.length - rows[q].length) as nat;
            lemma_pow2_adds(low, d);
            lemma_pow2_pos(d);
            let wide = rows[q].step() as int;
            lemma_pow2_pos((16 - rows[q].length) as nat);
            lemma_fundamental_div_mod(rows[q].code as int, wide);
            let m = rows[q].code as int / wide;
            assert(rows[q].code > other) by (nonlinear_arith)
                requires
                    rows[q].code == wide * m,
                    wide == step * pow2(d),
                    rows[q].code > peek,
                    peek == step * k + peek % step,
                    0 <= peek % step < step,
                    other == step * k + other % step,
                    0 <= other % step < step,
                    step > 0,
            {
                let c = pow2(d) as int * m;
                assert(rows[q].code == step * c) by (nonlinear_arith)
                    requires
                        rows[q].code == wide * m,
                        wide == step * pow2(d),
                        c == pow2(d) as int * m,
                ;
                assert(c > k) by (nonlinear_arith)
                    requires
                        step * c > step * k + peek % step,
                        0 <= peek % step,
                        step > 0,
                ;
                assert(step * c >= step * k + step) by (nonlinear_arith)
                    requires
                        c >= k + 1,
                        step > 0,
                ;
            }
        }
    }
    sv8_huffman_encode::lemma_matching_row(rows, 0, r, other);
}

/// No row before the matching one matches.
proof fn lemma_not_before(rows: Seq<Sv8CanonicalEntry>, from: int, peek: int, q: int)
    requires
        0 <= from <= q < rows.len(),
        sv8_huffman::matching_row(rows, from, peek) matches Some(r) && q < r,
    ensures
        !(rows[q].is_code() && rows[q].code <= peek),
    decreases rows.len() - from,
{
    if from < q {
        lemma_not_before(rows, from + 1, peek, q);
    }
}

/// A word that was read decides what is read: wherever it stands, the same symbol comes out.
pub proof fn law_word_decides(
    t: Sv8CanonicalTable,
    bits: Seq<bool>,
    pos: nat,
    other: Seq<bool>,
    at: nat,
)
    requires
        t.canonical(),
        t.parse(bits, pos).0 is Ok,
        bits::at(other, at, bits.subrange(pos as int, t.parse(bits, pos).1 as int)),
        at + 16 <= other.len(),
    ensures
        pos < t.parse(bits, pos).1 <= pos + 16 <= bits.len(),
        t.parse(other, at) == (t.parse(bits, pos).0, (at + t.parse(bits, pos).1 - pos) as nat),
{
    let s = bits.subrange(pos as int, pos + 16int);
    let u = other.subrange(at as int, at + 16int);
    let peek = bits::value(s);
    sv8_huffman_encode::lemma_matched(t.lengths@, 0, peek as int);
    let r = sv8_huffman::matching_row(t.lengths@, 0, peek as int)->0;
    let e = t.lengths@[r];
    let len = e.length as int;
    let word = bits.subrange(pos as int, pos + len);
    assert(s =~= word + s.skip(len));
    bits::lemma_value_prefix(word, s.skip(len));
    assert(u.take(len) =~= other.subrange(at as int, at + len));
    assert(u =~= word + u.skip(len));
    bits::lemma_value_prefix(word, u.skip(len));
    lemma_same_row(t, peek as int, bits::value(u) as int, r);
}

/// A symbol is read in the first row that codes and whose lowest word, left-justified, does not
/// lie above the next 16 bits. Its place in the symbol map falls by one for each word more,
/// and is the row's running index where the word is zero, all of it modulo 256. The row and
/// the place are returned.
pub proof fn law_canonical_word(t: Sv8CanonicalTable, bits: Seq<bool>, pos: nat) -> (found: (
    int,
    int,
))
    requires
        t.parse(bits, pos).0 is Ok,
    ensures
        ({
            let (symbol, end) = t.parse(bits, pos);
            let (r, i) = found;
            let rows = t.lengths@;
            let window = bits::field_at(bits, pos, 16);
            let word = bits::field_at(bits, pos, rows[r].length as nat);
            &&& 0 <= r < rows.len()
            &&& 1 <= rows[r].length <= 16
            &&& pos + 16 <= bits.len()
            &&& rows[r].code <= window
            &&& forall|q: int|
                0 <= q < r && 1 <= (#[trigger] rows[q]).length <= 16 ==> rows[q].code > window
            &&& end == pos + rows[r].length
            &&& 0 <= i < 256
            &&& i < t.symbols@.len()
            &&& symbol->Ok_0 == t.symbols@[i]
            &&& (i + word - rows[r].cum_index) % 256 == 0
        }),
{
    let rows = t.lengths@;
    let s = bits.subrange(pos as int, pos + 16int);
    let peek = bits::value(s);
    sv8_huffman_encode::lemma_matched(rows, 0, peek as int);
    let r = sv8_huffman::matching_row(rows, 0, peek as int)->0;
    let e = rows[r];
    let len = e.length as int;
    let word = bits.subrange(pos as int, pos + len);
    assert(s =~= word + s.skip(len));
    bits::lemma_value_prefix(word, s.skip(len));
    let w = bits::value(word) as int;
    let i = e.index_of(w);
    assert forall|q: int| 0 <= q < r && 1 <= (#[trigger] rows[q]).length <= 16 implies rows[q].code
        > peek by {
        lemma_not_before(rows, 0, peek as int, q);
    }
    let x = e.cum_index - w;
    lemma_fundamental_div_mod(x, 256);
    let q = x / 256;
    assert(i + w - e.cum_index == 256 * (-q));
    lemma_mod_multiples_basic(-q, 256);
    vstd::arithmetic::mul::lemma_mul_is_commutative(-q, 256);
    (r, i)
}

/// Each role has the code, or the two codes, of its own name.
pub proof fn law_roles(tables: Sv8TableSet, ctx: int)
    ensures
        tables.table(Sv8TableRole::Bands, ctx) == tables.bands,
        tables.table(Sv8TableRole::Res, ctx) == tables.res[ctx],
        tables.table(Sv8TableRole::Scfi, ctx) == tables.scfi[ctx],
        tables.table(Sv8TableRole::Dscf, ctx) == tables.dscf[ctx],
        tables.table(Sv8TableRole::Q1, ctx) == tables.q1,
        tables.table(Sv8TableRole::Q2, ctx) == tables.q2[ctx],
        tables.table(Sv8TableRole::Q3, ctx) == tables.q3,
        tables.table(Sv8TableRole::Q4, ctx) == tables.q4,
        tables.table(Sv8TableRole::Q5, ctx) == tables.q5[ctx],
        tables.table(Sv8TableRole::Q6, ctx) == tables.q6[ctx],
        tables.table(Sv8TableRole::Q7, ctx) == tables.q7[ctx],
        tables.table(Sv8TableRole::Q8, ctx) == tables.q8[ctx],
        tables.table(Sv8TableRole::Q9up, ctx) == tables.q9up,
{
}

// ---------------------------------------------------------------------------
// Band types of two channels
// ---------------------------------------------------------------------------

/// The `k`-th code word that decoding the types of one channel reads.
pub open spec fn type_word(tables: Sv8TableSet, bits: Seq<bool>, pos: nat, k: int) -> Seq<bool> {
    bits.subrange(
        sv8_band_header::types_down(tables, bits, pos, k as nat).pos as int,
        sv8_band_header::types_down(tables, bits, pos, (k + 1) as nat).pos as int,
    )
}

/// The first `n` code words of two channels, in turn.
pub open spec fn words_in_turn(
    tables: Sv8TableSet,
    left: Seq<bool>,
    l: nat,
    right: Seq<bool>,
    r: nat,
    n: int,
) -> Seq<bool>
    decreases n,
{
    if n <= 0 {
        Seq::empty()
    } else {
        words_in_turn(tables, left, l, right, r, n - 1) + (type_word(tables, left, l, n - 1)
            + type_word(tables, right, r, n - 1))
    }
}

/// Values of two channels, paired.
pub open spec fn paired(a: Seq<i8>, b: Seq<i8>) -> Seq<[i8; 2]> {
    Seq::new(a.len(), |k: int| [a[k], b[k]])
}

/// A sweep of one more value is that step behind the sweep.
proof fn lemma_sweep_one_more<T>(
    step: spec_fn(Seq<T>, nat) -> coding::Parsed<T>,
    n: nat,
    done: Seq<T>,
    pos: nat,
)
    requires
        done.len() <= n,
    ensures
        ({
            let s = coding::sweep(step, n, done, pos);
            let t = coding::sweep(step, n + 1, done, pos);
            if s.result is Err {
                t == s
            } else {
                s.done.len() == n && match step(s.done, s.pos) {
                    (Ok(v), p) => t == (Swept { done: s.done.push(v), result: Ok(()), pos: p }),
                    (Err(e), p) => t == (Swept { done: s.done, result: Err(e), pos: p }),
                }
            }
        }),
    decreases n - done.len(),
{
    if done.len() < n {
        match step(done, pos) {
            (Ok(v), p) => {
                lemma_sweep_one_more(step, n, done.push(v), p);
            },
            (Err(_), _) => {},
        }
    } else {
        match step(done, pos) {
            (Ok(v), p) => {
                assert(coding::sweep(step, n + 1, done.push(v), p).done == done.push(v));
            },
            (Err(_), _) => {},
        }
    }
}

/// One channel's walk, one band further.
proof fn lemma_type_further(tables: Sv8TableSet, bits: Seq<bool>, pos: nat, k: nat, n: nat)
    requires
        k < n,
        sv8_band_header::types_down(tables, bits, pos, n).result is Ok,
    ensures
        ({
            let s = sv8_band_header::types_down(tables, bits, pos, k);
            let t = sv8_band_header::types_down(tables, bits, pos, k + 1);
            let read = sv8_band_header::parse_type(
                tables,
                bits,
                s.pos,
                sv8_band_header::band_above(s.done),
            );
            &&& s.result is Ok
            &&& t.result is Ok
            &&& s.done.len() == k
            &&& read.0 is Ok
            &&& t.done == s.done.push(read.0->Ok_0)
            &&& t.pos == read.1
        }),
    decreases n - k,
{
    let step = sv8_band_header::type_step(tables, bits);
    lemma_sweep_one_more(step, k, Seq::empty(), pos);
    if k + 1 < n {
        lemma_type_further(tables, bits, pos, k + 1, n);
    }
}

/// The walk over two channels goes as the two walks do.
proof fn lemma_turns(
    tables: Sv8TableSet,
    left: Seq<bool>,
    l: nat,
    right: Seq<bool>,
    r: nat,
    bits: Seq<bool>,
    pos: nat,
    k: nat,
    n: nat,
)
    requires
        tables.canonical(),
        k <= n,
        sv8_band_header::types_down(tables, left, l, n).result is Ok,
        sv8_band_header::types_down(tables, right, r, n).result is Ok,
        bits::at(bits, pos, words_in_turn(tables, left, l, right, r, k as int)),
        pos + words_in_turn(tables, left, l, right, r, k as int).len() + 16 <= bits.len(),
    ensures
        ({
            let a = sv8_band_header::types_down(tables, left, l, k);
            let b = sv8_band_header::types_down(tables, right, r, k);
            &&& a.done.len() == k
            &&& b.done.len() == k
            &&& sv8_band_header::type_pairs_down(tables, bits, pos, k) == (Swept {
                done: paired(a.done, b.done),
                result: Ok(()),
                pos: pos + words_in_turn(tables, left, l, right, r, k as int).len(),
            })
        }),
    decreases k,
{
    let step = sv8_band_header::type_pair_step(tables, bits);
    if k == 0 {
        let none = Seq::<i8>::empty();
        assert(paired(none, none) =~= Seq::<[i8; 2]>::empty());
    } else {
        let j = (k - 1) as nat;
        let before = words_in_turn(tables, left, l, right, r, j as int);
        let u = type_word(tables, left, l, j as int);
        let v = type_word(tables, right, r, j as int);
        bits::lemma_at_concat(bits, pos, before, u + v);
        bits::lemma_at_concat(bits, pos + before.len(), u, v);
        lemma_turns(tables, left, l, right, r, bits, pos, j, n);
        lemma_type_further(tables, left, l, j, n);
        lemma_type_further(tables, right, r, j, n);
        let a = sv8_band_header::types_down(tables, left, l, j);
        let b = sv8_band_header::types_down(tables, right, r, j);
        let above = sv8_band_header::band_above(a.done);
        let beside = sv8_band_header::band_above(b.done);
        let x = sv8_band_header::context_under(above);
        let y = sv8_band_header::context_under(beside);
        assert(tables.table(Sv8TableRole::Res, x).canonical());
        assert(tables.table(Sv8TableRole::Res, y).canonical());
        law_word_decides(tables.res[x], left, a.pos, bits, pos + before.len());
        law_word_decides(tables.res[y], right, b.pos, bits, pos + before.len() + u.len());
        let done = paired(a.done, b.done);
        assert(sv8_band_header::pair_above(done, 0) == above);
        assert(sv8_band_header::pair_above(done, 1) == beside);
        lemma_sweep_one_more(step, j, Seq::empty(), pos);
        let c = sv8_band_header::types_down(tables, left, l, k);
        let d = sv8_band_header::types_down(tables, right, r, k);
        assert(paired(c.done, d.done) =~= done.push([c.done[j as int], d.done[j as int]]));
    }
}

/// The types of two channels whose code words come in turn are those of the channels alone:
/// the two fold chains of their own.
pub proof fn law_type_pairs_are_two_walks(
    tables: Sv8TableSet,
    left: Seq<bool>,
    l: nat,
    right: Seq<bool>,
    r: nat,
    bits: Seq<bool>,
    pos: nat,
    n: nat,
)
    requires
        tables.canonical(),
        sv8_band_header::parse_types(tables, left, l, n).0 is Ok,
        sv8_band_header::parse_types(tables, right, r, n).0 is Ok,
        bits::at(bits, pos, words_in_turn(tables, left, l, right, r, n as int)),
        pos + words_in_turn(tables, left, l, right, r, n as int).len() + 16 <= bits.len(),
    ensures
        sv8_band_header::parse_type_pairs(tables, bits, pos, n) == (
            Ok::<Seq<[i8; 2]>, Error>(
                paired(
                    sv8_band_header::parse_types(tables, left, l, n).0->Ok_0,
                    sv8_band_header::parse_types(tables, right, r, n).0->Ok_0,
                ),
            ),
            pos + words_in_turn(tables, left, l, right, r, n as int).len(),
        ),
        sv8_band_header::parse_types(tables, left, l, n).0->Ok_0.len() == n,
        sv8_band_header::parse_types(tables, right, r, n).0->Ok_0.len() == n,
{
    lemma_turns(tables, left, l, right, r, bits, pos, n, n);
    let a = sv8_band_header::types_down(tables, left, l, n).done;
    let b = sv8_band_header::types_down(tables, right, r, n).done;
    assert(paired(a, b).reverse() =~= paired(a.reverse(), b.reverse()));
}

} // verus!
