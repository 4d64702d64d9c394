//! What the bits of a packet say to the packet decoder: the used-band counts, the band types,
//! the mid/side flags, the scalefactors and the levels, by the code words and the raw bits
//! that they are read from.

use crate::bits;
use crate::coding;
use crate::error::Error;
use crate::phased;
use crate::sv8;
use crate::sv8::{StreamHeaderSv8, Sv8Vlcs, SubFrame, VlcRow, VlcTable};
use crate::sv8_stereo_frame;
use vstd::arithmetic::div_mod::*;
use vstd::arithmetic::power2::*;
use vstd::prelude::*;

verus! {

// ---------------------------------------------------------------------------
// Code words
// ---------------------------------------------------------------------------

/// A symbol is that of a row whose code word stands at `pos`, and no row has a word that the
/// bits spell earlier. The row is returned.
pub proof fn law_word(code: VlcTable, bits: Seq<bool>, pos: nat) -> (r: int)
    requires
        code.parse(bits, pos).0 is Ok,
    ensures
        ({
            let (symbol, end) = code.parse(bits, pos);
            let rows = code.rows@;
            &&& 0 <= r < rows.len()
            &&& symbol->Ok_0 == rows[r].symbol
            &&& 1 <= rows[r].length <= 16
            &&& end == pos + rows[r].length <= bits.len()
            &&& rows[r].code == bits::field_at(bits, pos, rows[r].length as nat)
            &&& forall|q: int|
                0 <= q < rows.len() && 1 <= (#[trigger] rows[q]).length < rows[r].length
                    ==> rows[q].code != bits::field_at(bits, pos, rows[q].length as nat)
            &&& forall|q: int|
                0 <= q < r && (#[trigger] rows[q]).length == rows[r].length ==> rows[q].code
                    != rows[r].code
        }),
{
    assert(bits.subrange(pos as int, pos as int) =~= Seq::<bool>::empty());
    assert(bits::field_at(bits, pos, 0) == 0);
    lemma_word_from(code.rows@, bits, pos, 0)
}

/// The first row with a code word.
proof fn lemma_row(rows: Seq<VlcRow>, from: int, code: int, length: int)
    requires
        0 <= from,
    ensures
        match sv8::row_of(rows, from, code, length) {
            Some(r) => from <= r < rows.len() && rows[r].code == code && rows[r].length == length
                && forall|q: int|
                from <= q < r && (#[trigger] rows[q]).length == length ==> rows[q].code != code,
            None => forall|q: int|
                from <= q < rows.len() && (#[trigger] rows[q]).length == length ==> rows[q].code
                    != code,
        },
    decreases rows.len() - from,
{
    if from < rows.len() && !(rows[from].code == code && rows[from].length == length) {
        lemma_row(rows, from + 1, code, length);
    }
}

proof fn lemma_word_from(rows: Seq<VlcRow>, bits: Seq<bool>, pos: nat, n: nat) -> (r: int)
    requires
        n <= 16,
        pos + n <= bits.len(),
        sv8::parse_symbol(
            rows,
            bits,
            pos + n,
            bits::field_at(bits, pos, n) as int,
            n as int,
        ).0 is Ok,
    ensures
        ({
            let (symbol, end) = sv8::parse_symbol(
                rows,
                bits,
                pos + n,
                bits::field_at(bits, pos, n) as int,
                n as int,
            );
            &&& 0 <= r < rows.len()
            &&& symbol->Ok_0 == rows[r].symbol
            &&& n < rows[r].length <= 16
            &&& end == pos + rows[r].length <= bits.len()
            &&& rows[r].code == bits::field_at(bits, pos, rows[r].length as nat)
            &&& forall|q: int|
                0 <= q < rows.len() && n < (#[trigger] rows[q]).length < rows[r].length
                    ==> rows[q].code != bits::field_at(bits, pos, rows[q].length as nat)
            &&& forall|q: int|
                0 <= q < r && (#[trigger] rows[q]).length == rows[r].length ==> rows[q].code
                    != rows[r].code
        }),
    decreases 16 - n,
{
    let p = pos + n;
    let m = n + 1;
    let a = bits.subrange(pos as int, p as int);
    let b = bits.subrange(pos as int, p + 1int);
    let one = bits.subrange(p as int, p + 1int);
    assert(one.drop_last() =~= Seq::<bool>::empty());
    assert(bits::value(one.drop_last()) == 0);
    assert(b.drop_last() =~= a);
    assert(b.last() == one.last());
    assert(bits::field_at(bits, pos, m) == 2 * bits::field_at(bits, pos, n) + bits::field_at(
        bits,
        p,
        1,
    ));
    let code = bits::field_at(bits, pos, m) as int;
    lemma_row(rows, 0, code, m as int);
    match sv8::row_of(rows, 0, code, m as int) {
        Some(r) => r,
        None => {
            let r = lemma_word_from(rows, bits, pos, m);
            assert forall|q: int|
                0 <= q < rows.len() && n < (#[trigger] rows[q]).length
                    < rows[r].length implies rows[q].code != bits::field_at(
                bits,
                pos,
                rows[q].length as nat,
            ) by {
                if rows[q].length == m {
                    assert(rows[q].length as nat == m);
                }
            }
            r
        },
    }
}

// ---------------------------------------------------------------------------
// The used-band count
// ---------------------------------------------------------------------------

/// The used-band count of the first sub-frame of a packet is one of the values up to the
/// bands that are allowed. That of another is the one before it and a code word less 13, on a
/// ring of 33, and no more than is allowed.
pub proof fn law_count(
    v: Sv8Vlcs,
    bits: Seq<bool>,
    pos: nat,
    keyframe: bool,
    allowed: int,
    last: u8,
)
    requires
        0 <= allowed <= 32,
        sv8::parse_max_band(v, bits, pos, keyframe, allowed, last).0 is Ok,
    ensures
        ({
            let (r, end) = sv8::parse_max_band(v, bits, pos, keyframe, allowed, last);
            let n = r->Ok_0;
            let (key, p) = phased::parse(bits, pos, (allowed + 1) as nat);
            let (word, q) = v.band.parse(bits, pos);
            let ring = (last + word->Ok_0 - 13) % 33;
            &&& keyframe ==> key is Ok && end == p && (key->Ok_0 < 256 ==> n == key->Ok_0)
            &&& !keyframe ==> word is Ok && end == q
            &&& !keyframe && ring <= allowed ==> n == ring
            &&& !keyframe && ring > allowed ==> n == allowed
        }),
{
}

// ---------------------------------------------------------------------------
// Band types
// ---------------------------------------------------------------------------

/// The types of a channel, from the top band down.
proof fn lemma_types(v: Sv8Vlcs, bits: Seq<bool>, pos: nat, n: nat) -> (walk: (Seq<nat>, Seq<i16>))
    requires
        sv8::parse_types(v, bits, pos, n, true).0 is Ok,
    ensures
        ({
            let (r, end) = sv8::parse_types(v, bits, pos, n, true);
            let types = r->Ok_0;
            let (stops, words) = walk;
            &&& types.len() == n
            &&& words.len() == n
            &&& stops.len() == n + 1
            &&& stops[0] == pos
            &&& stops[n as int] == end
            &&& forall|k: int|
                0 <= k < n ==> {
                    let above: int = if k == 0 {
                        0
                    } else {
                        types[k - 1] as int
                    };
                    let code = if above > 2 {
                        v.res_high
                    } else {
                        v.res_low
                    };
                    let sum = above + words[k] - 7;
                    &&& code.parse(bits, stops[k]) == (
                        Ok::<i16, Error>(#[trigger] words[k]),
                        stops[k + 1],
                    )
                    &&& types[k] == if sum > 15 {
                        sum - 17
                    } else {
                        sum
                    }
                    &&& -1 <= types[k] <= 17
                }
        }),
{
    let step = sv8::type_step(v, bits);
    let types = sv8::parse_types(v, bits, pos, n, true).0->Ok_0;
    let stops = coding::lemma_sweep_stops(step, n, pos);
    let words = Seq::new(
        n,
        |k: int|
            (if k > 0 && types[k - 1] > 2 {
                v.res_high
            } else {
                v.res_low
            }).parse(bits, stops[k]).0->Ok_0,
    );
    assert forall|k: int| 0 <= k < n implies {
        let above: int = if k == 0 {
            0
        } else {
            types[k - 1] as int
        };
        let code = if above > 2 {
            v.res_high
        } else {
            v.res_low
        };
        let sum = above + words[k] - 7;
        &&& code.parse(bits, stops[k]) == (Ok::<i16, Error>(#[trigger] words[k]), stops[k + 1])
        &&& types[k] == if sum > 15 {
            sum - 17
        } else {
            sum
        }
        &&& -1 <= types[k] <= 17
    } by {
        assert(step(types.take(k), stops[k]) == (Ok::<i8, Error>(types[k]), stops[k + 1]));
        if k > 0 {
            assert(types.take(k).last() == types[k - 1]);
        }
    }
    (stops, words)
}

/// The types of channel `ch`, from the top band down, are those that the symbols `words` at
/// `stops` lead to. The top type is read with the first code, and is the symbol less 7. Each
/// other type is that of the band above and the symbol less 7, and less 17 more where it would
/// be above 15; it is read with the second code where the type above exceeds 2, and with the
/// first where it does not.
pub open spec fn types_from(
    v: Sv8Vlcs,
    bits: Seq<bool>,
    res: Seq<[i8; 2]>,
    ch: int,
    stops: Seq<nat>,
    words: Seq<i16>,
) -> bool {
    &&& words.len() == res.len()
    &&& stops.len() == res.len() + 1
    &&& forall|k: int|
        0 <= k < res.len() ==> {
            let b = res.len() - 1 - k;
            let above: int = if k == 0 {
                0
            } else {
                res[b + 1][ch] as int
            };
            let code = if above > 2 {
                v.res_high
            } else {
                v.res_low
            };
            let sum = above + words[k] - 7;
            &&& code.parse(bits, stops[k]) == (
                Ok::<i16, Error>(#[trigger] words[k]),
                stops[k + 1],
            )
            &&& res[b][ch] == if sum > 15 {
                sum - 17
            } else {
                sum
            }
            &&& -1 <= res[b][ch] <= 17
        }
}

/// The types of a channel, counted from the lowest band up.
proof fn lemma_types_from(
    v: Sv8Vlcs,
    bits: Seq<bool>,
    pos: nat,
    n: nat,
    res: Seq<[i8; 2]>,
    ch: int,
) -> (walk: (Seq<nat>, Seq<i16>))
    requires
        sv8::parse_types(v, bits, pos, n, true).0 is Ok,
        res.len() == n,
        0 <= ch < 2,
        forall|b: int|
            0 <= b < n ==> (#[trigger] res[b])[ch] == sv8::parse_types(
                v,
                bits,
                pos,
                n,
                true,
            ).0->Ok_0[n - 1 - b],
    ensures
        types_from(v, bits, res, ch, walk.0, walk.1),
        walk.0[0] == pos,
        walk.0[n as int] == sv8::parse_types(v, bits, pos, n, true).1,
{
    let types = sv8::parse_types(v, bits, pos, n, true).0->Ok_0;
    let (stops, words) = lemma_types(v, bits, pos, n);
    assert forall|k: int| 0 <= k < n implies res[n - 1 - k][ch] == types[k] && (k > 0 ==> res[n - k][ch]
        == types[k - 1]) && #[trigger] words[k] == words[k] by {
        assert(n - 1 - (n - 1 - k) == k);
        if k > 0 {
            assert(n - 1 - (n - k) == k - 1);
        }
    }
    (stops, words)
}

/// The band types of a sub-frame are code words, those of the left channel before those of the
/// right, from the top band down. A channel that is not there has type zero. The positions and
/// the symbols of either channel are returned.
pub proof fn law_types(v: Sv8Vlcs, bits: Seq<bool>, pos: nat, n: nat, stereo: bool) -> (walk: (
    Seq<nat>,
    Seq<i16>,
    Seq<nat>,
    Seq<i16>,
))
    requires
        sv8::parse_res(v, bits, pos, n, stereo).0 is Ok,
    ensures
        ({
            let (r, end) = sv8::parse_res(v, bits, pos, n, stereo);
            let res = r->Ok_0;
            &&& res.len() == n
            &&& types_from(v, bits, res, 0, walk.0, walk.1)
            &&& walk.0[0] == pos
            &&& stereo ==> types_from(v, bits, res, 1, walk.2, walk.3)
            &&& stereo ==> walk.2[0] == walk.0[n as int] && end == walk.2[n as int]
            &&& !stereo ==> end == walk.0[n as int]
            &&& !stereo ==> forall|b: int| 0 <= b < n ==> (#[trigger] res[b])[1] == 0
        }),
{
    let (left, p) = sv8::parse_types(v, bits, pos, n, true);
    let (right, q) = sv8::parse_types(v, bits, p, n, stereo);
    let res = sv8::parse_res(v, bits, pos, n, stereo).0->Ok_0;
    let first = lemma_types(v, bits, pos, n);
    assert(res == sv8::paired(left->Ok_0, right->Ok_0));
    assert forall|b: int| 0 <= b < n implies (#[trigger] res[b])[0] == left->Ok_0[n - 1 - b]
        && res[b][1] == right->Ok_0[n - 1 - b] by {}
    let (s, w) = lemma_types_from(v, bits, pos, n, res, 0);
    if stereo {
        let (t, x) = lemma_types_from(v, bits, p, n, res, 1);
        (s, w, t, x)
    } else {
        assert forall|b: int| 0 <= b < n implies (#[trigger] res[b])[1] == 0 by {
            assert(right->Ok_0[n - 1 - b] == 0);
        }
        (s, w, Seq::empty(), Seq::empty())
    }
}

// ---------------------------------------------------------------------------
// Scalefactors
// ---------------------------------------------------------------------------

/// `s` is the scalefactor behind `before`, on a ring of 128: a code word less 25 more, or,
/// where the word is 31, six bits and 39 more.
pub open spec fn is_behind(
    code: VlcTable,
    bits: Seq<bool>,
    pos: nat,
    before: u8,
    s: u8,
    end: nat,
) -> bool {
    let (word, p) = code.parse(bits, pos);
    &&& word is Ok
    &&& s < 128
    &&& word->Ok_0 != 31 ==> end == p && (s - (before + word->Ok_0 - 25)) % 128 == 0
    &&& word->Ok_0 == 31 ==> p + 6 == end <= bits.len() && (s - (before + bits::field_at(bits, p, 6)
        + 39)) % 128 == 0
}

proof fn lemma_on_ring(x: int)
    ensures
        0 <= x % 128 < 128,
        (x % 128 - x) % 128 == 0,
{
    lemma_fundamental_div_mod(x, 128);
    let q = x / 128;
    assert(x % 128 - x == 128 * (-q));
    lemma_mod_multiples_basic(-q, 128);
    vstd::arithmetic::mul::lemma_mul_is_commutative(-q, 128);
}

proof fn lemma_is_behind(v: Sv8Vlcs, bits: Seq<bool>, pos: nat, before: u8)
    ensures
        ({
            let (s, end) = sv8::parse_delta_scf(v, bits, pos, before);
            s is Ok ==> is_behind(v.dscf, bits, pos, before, s->Ok_0, end)
        }),
{
    let (word, p) = v.dscf.parse(bits, pos);
    if word is Ok {
        lemma_on_ring(before + word->Ok_0 - 25);
        if p + 6 <= bits.len() {
            bits::lemma_value_bound(bits.subrange(p as int, p + 6int));
            lemma2_to64();
            lemma_on_ring(before + 64 + bits::field_at(bits, p, 6) - 25);
        }
    }
}

/// The scalefactors of a channel in a band: a code word for the method, the first one in seven
/// bits, and the others behind it. Method 1 codes the second, 2 the third and 3 both, behind
/// the one before; what is not coded repeats the one before. A channel that codes nothing has
/// none. The positions are returned.
pub proof fn law_scf(v: Sv8Vlcs, bits: Seq<bool>, pos: nat, band_type: i8) -> (walk: (nat, nat))
    requires
        sv8::parse_scf(v, bits, pos, band_type).0 is Ok,
    ensures
        ({
            let (r, end) = sv8::parse_scf(v, bits, pos, band_type);
            let s = r->Ok_0;
            let (p, q) = walk;
            let (word, at) = v.scfi.parse(bits, pos);
            let m = word->Ok_0;
            &&& band_type == 0 ==> end == pos && s == [0u8, 0u8, 0u8]
            &&& band_type != 0 ==> {
                &&& word is Ok
                &&& at + 7 == p <= bits.len()
                &&& s[0] == bits::field_at(bits, at, 7)
                &&& m == 1 || m == 3 ==> is_behind(v.dscf, bits, p, s[0], s[1], q)
                &&& m != 1 && m != 3 ==> s[1] == s[0] && q == p
                &&& m == 2 || m == 3 ==> is_behind(v.dscf, bits, q, s[1], s[2], end)
                &&& m != 2 && m != 3 ==> s[2] == s[1] && end == q
            }
        }),
{
    let (word, at) = v.scfi.parse(bits, pos);
    let m = word->Ok_0;
    let p = at + 7;
    let a = bits::field_at(bits, at, 7) as u8;
    let (b, q) = sv8::parse_next_scf(v, bits, p, m == 3 || m == 1, a);
    if band_type != 0 {
        bits::lemma_value_bound(bits.subrange(at as int, p as int));
        lemma2_to64();
        lemma_is_behind(v, bits, p, a);
        lemma_is_behind(v, bits, q, b->Ok_0);
    }
    (p, q)
}

// ---------------------------------------------------------------------------
// Levels
// ---------------------------------------------------------------------------

/// The noise of a band takes no bits. It comes from the low ten bits of the high half of a
/// seed, less 510. The seed starts from the number of the band, times 256, and the channel,
/// and goes on by a multiplication and an addition. The seeds are returned.
pub proof fn law_noise(v: Sv8Vlcs, bits: Seq<bool>, pos: nat, band: int, ch: int) -> (seeds: Seq<
    int,
>)
    requires
        0 <= band < 32,
        0 <= ch < 2,
    ensures
        ({
            let (r, end) = sv8::parse_levels(v, bits, pos, -1i8, band, ch);
            let levels = r->Ok_0;
            &&& r is Ok
            &&& end == pos
            &&& levels.len() == 36
            &&& seeds.len() == 37
            &&& seeds[0] == 256 * band + ch
            &&& forall|j: int|
                0 <= j < 36 ==> {
                    &&& #[trigger] levels[j] == seeds[j + 1] / 0x1_0000 % 1024 - 510
                    &&& 0 <= seeds[j + 1] < 0x1_0000_0000
                    &&& (seeds[j + 1] - (seeds[j] * 1103515245 + 12345)) % 0x1_0000_0000 == 0
                }
        }),
{
    let seeds = Seq::new(37, |j: int| sv8::seed_after(256 * band + ch, j as nat));
    let levels = sv8::fixed_noise(band, ch);
    assert forall|j: int| 0 <= j < 36 implies {
        &&& #[trigger] levels[j] == seeds[j + 1] / 0x1_0000 % 1024 - 510
        &&& 0 <= seeds[j + 1] < 0x1_0000_0000
        &&& (seeds[j + 1] - (seeds[j] * 1103515245 + 12345)) % 0x1_0000_0000 == 0
    } by {
        let x = seeds[j] * 1103515245 + 12345;
        assert(seeds[j + 1] == x % 0x1_0000_0000);
        lemma_fundamental_div_mod(x, 0x1_0000_0000);
        let q = x / 0x1_0000_0000;
        assert(seeds[j + 1] - x == 0x1_0000_0000 * (-q));
        lemma_mod_multiples_basic(-q, 0x1_0000_0000);
        vstd::arithmetic::mul::lemma_mul_is_commutative(-q, 0x1_0000_0000);
    }
    seeds
}

/// A band of the types 1 to 8 is 36 numbers of as many bits as its levels need: two for type
/// 1, three for 2 and 3, four for 4 and 5, and one less than the type above. A level is its
/// number less the largest level of the type, which is the type up to 4, and
/// `2^(type - 2) - 1` above. The positions of the numbers are returned.
pub proof fn law_small_levels(
    v: Sv8Vlcs,
    bits: Seq<bool>,
    pos: nat,
    band_type: i8,
    band: int,
    ch: int,
) -> (stops: Seq<nat>)
    requires
        1 <= band_type <= 8,
        sv8::parse_levels(v, bits, pos, band_type, band, ch).0 is Ok,
    ensures
        ({
            let (r, end) = sv8::parse_levels(v, bits, pos, band_type, band, ch);
            let levels = r->Ok_0;
            let w: nat = if band_type == 1 {
                2
            } else if band_type <= 3 {
                3
            } else if band_type <= 5 {
                4
            } else {
                (band_type - 1) as nat
            };
            let most: int = if band_type <= 4 {
                band_type as int
            } else {
                pow2((band_type - 2) as nat) - 1
            };
            &&& levels.len() == 36
            &&& stops.len() == 37
            &&& stops[0] == pos
            &&& stops[36] == end
            &&& forall|k: int|
                0 <= k < 36 ==> {
                    &&& #[trigger] levels[k] == bits::field_at(bits, stops[k], w) - most
                    &&& stops[k + 1] == stops[k] + w <= bits.len()
                }
        }),
{
    let t = band_type as int;
    let w = sv8::small_width(t);
    let step = sv8::level_step(v, bits, t);
    let levels = sv8::parse_levels(v, bits, pos, band_type, band, ch).0->Ok_0;
    let stops = coding::lemma_sweep_stops(step, 36, pos);
    lemma2_to64();
    assert forall|k: int| 0 <= k < 36 implies {
        &&& #[trigger] levels[k] == bits::field_at(bits, stops[k], w) - sv8::small_bound(t)
        &&& stops[k + 1] == stops[k] + w <= bits.len()
    } by {
        assert(step(levels.take(k), stops[k]) == (Ok::<i32, Error>(levels[k]), stops[k + 1]));
        let p = stops[k];
        bits::lemma_value_bound(bits.subrange(p as int, (p + w) as int));
        lemma_pow2_strictly_increases(w, 8);
        if t > 4 {
            lemma_pow2_strictly_increases((t - 2) as nat, 8);
        }
    }
    stops
}

/// A band of type 9 and above is 36 numbers, each a code word times `2^(type - 9)` and the
/// `type - 9` bits behind it. A level is its number less `2^(type - 2) - 1`. The positions of
/// the numbers and the symbols of the words are returned.
pub proof fn law_loud_levels(
    v: Sv8Vlcs,
    bits: Seq<bool>,
    pos: nat,
    band_type: i8,
    band: int,
    ch: int,
) -> (walk: (Seq<nat>, Seq<i16>))
    requires
        9 <= band_type <= 17,
        sv8::parse_levels(v, bits, pos, band_type, band, ch).0 is Ok,
    ensures
        ({
            let (r, end) = sv8::parse_levels(v, bits, pos, band_type, band, ch);
            let levels = r->Ok_0;
            let (stops, words) = walk;
            let low = (band_type - 9) as nat;
            &&& levels.len() == 36
            &&& words.len() == 36
            &&& stops.len() == 37
            &&& stops[0] == pos
            &&& stops[36] == end
            &&& forall|k: int|
                0 <= k < 36 ==> {
                    let raw = (stops[k + 1] - low) as nat;
                    &&& v.q9up.parse(bits, stops[k]) == (Ok::<i16, Error>(#[trigger] words[k]), raw)
                    &&& raw + low == stops[k + 1] <= bits.len()
                    &&& levels[k] == words[k] * pow2(low) + bits::field_at(bits, raw, low) - (pow2(
                        (band_type - 2) as nat,
                    ) - 1)
                }
        }),
{
    let t = band_type as int;
    let n = (t - 9) as nat;
    let step = sv8::level_step(v, bits, t);
    let levels = sv8::parse_levels(v, bits, pos, band_type, band, ch).0->Ok_0;
    let stops = coding::lemma_sweep_stops(step, 36, pos);
    let words = Seq::new(36, |k: int| v.q9up.parse(bits, stops[k]).0->Ok_0);
    lemma2_to64();
    if n < 8 {
        lemma_pow2_strictly_increases(n, 8);
        lemma_pow2_strictly_increases((t - 2) as nat, 15);
    }
    lemma_pow2_pos(n);
    assert forall|k: int| 0 <= k < 36 implies {
        let raw = (stops[k + 1] - n) as nat;
        &&& v.q9up.parse(bits, stops[k]) == (Ok::<i16, Error>(#[trigger] words[k]), raw)
        &&& raw + n == stops[k + 1] <= bits.len()
        &&& levels[k] == words[k] * pow2(n) + bits::field_at(bits, raw, n) - (pow2((t - 2) as nat)
            - 1)
    } by {
        assert(step(levels.take(k), stops[k]) == (Ok::<i32, Error>(levels[k]), stops[k + 1]));
        let p = v.q9up.parse(bits, stops[k]).1;
        let s = words[k] as int;
        bits::lemma_value_bound(bits.subrange(p as int, (p + n) as int));
        assert(-8388608 <= s * pow2(n) <= 8388608) by (nonlinear_arith)
            requires
                -32768 <= s <= 32767,
                1 <= pow2(n) <= 256,
        ;
    }
    (stops, words)
}

// ---------------------------------------------------------------------------
// Sub-frames and packets
// ---------------------------------------------------------------------------

/// A sub-frame is its used-band count, its band types, the mid/side flags of a stereo stream
/// that has them, and the scalefactors and the levels, each left and right of the lowest band,
/// then of the next, by the band types. The starts of the types and of the flags, those of the
/// scalefactors and those of the levels are returned.
pub proof fn law_sub_frame(
    v: Sv8Vlcs,
    h: StreamHeaderSv8,
    bits: Seq<bool>,
    pos: nat,
    keyframe: bool,
    last: u8,
) -> (walk: (nat, nat, Seq<nat>, Seq<nat>))
    requires
        sv8::sub_read(v, h, bits, pos, keyframe, last).result is Ok,
    ensures
        ({
            let read = sv8::sub_read(v, h, bits, pos, keyframe, last);
            let f = read.result->Ok_0;
            let n = 2 * read.last as int;
            let (types, flags, scf, levels) = walk;
            let allowed: int = if h.maxbands > 32 {
                32
            } else {
                h.maxbands as int
            };
            &&& sv8::parse_max_band(v, bits, pos, keyframe, allowed, last) == (
                Ok::<u8, Error>(read.last),
                types,
            )
            &&& sv8::parse_res(v, bits, types, read.last as nat, h.channels == 2) == (
                Ok::<Seq<[i8; 2]>, Error>(f.res),
                flags,
            )
            &&& f.res.len() == read.last
            &&& f.scf.len() == n
            &&& f.levels.len() == n
            &&& scf.len() == n + 1
            &&& levels.len() == n + 1
            &&& sv8_stereo_frame::parse_flags(
                bits,
                flags,
                f.res,
                h.mid_side && h.channels == 2,
            ) == (Ok::<Seq<bool>, Error>(f.ms_flags), scf[0])
            &&& levels[0] == scf[n]
            &&& read.pos == levels[n]
            &&& forall|i: int|
                0 <= i < n ==> sv8::parse_scf(v, bits, scf[i], f.res[i / 2][i % 2]) == (
                    Ok::<[u8; 3], Error>(#[trigger] f.scf[i]),
                    scf[i + 1],
                )
            &&& forall|i: int|
                0 <= i < n ==> sv8::parse_levels(
                    v,
                    bits,
                    levels[i],
                    f.res[i / 2][i % 2],
                    i / 2,
                    i % 2,
                ) == (Ok::<Seq<i32>, Error>(#[trigger] f.levels[i]), levels[i + 1])
        }),
{
    let read = sv8::sub_read(v, h, bits, pos, keyframe, last);
    let f = read.result->Ok_0;
    let (count, types) = sv8::parse_max_band(v, bits, pos, keyframe, h.allowed(), last);
    let stereo = h.channels == 2;
    let (r, flags) = sv8::parse_res(v, bits, types, read.last as nat, stereo);
    let res = r->Ok_0;
    let walk = law_types(v, bits, types, read.last as nat, stereo);
    let p = sv8_stereo_frame::parse_flags(bits, flags, res, h.mid_side && stereo).1;
    let n = 2 * res.len();
    let scf_step = sv8::scf_step(v, bits, res);
    let scf_run = coding::sweep(scf_step, n, Seq::empty(), p);
    let scf = coding::lemma_sweep_stops(scf_step, n, p);
    let row_step = sv8::row_step(v, bits, res);
    let row_run = coding::sweep(row_step, n, Seq::empty(), scf_run.pos);
    let levels = coding::lemma_sweep_stops(row_step, n, scf_run.pos);
    assert forall|i: int| 0 <= i < n implies sv8::parse_scf(
        v,
        bits,
        scf[i],
        f.res[i / 2][i % 2],
    ) == (Ok::<[u8; 3], Error>(#[trigger] f.scf[i]), scf[i + 1]) by {
        assert(scf_step(f.scf.take(i), scf[i]) == (Ok::<[u8; 3], Error>(f.scf[i]), scf[i + 1]));
    }
    assert forall|i: int| 0 <= i < n implies sv8::parse_levels(
        v,
        bits,
        levels[i],
        f.res[i / 2][i % 2],
        i / 2,
        i % 2,
    ) == (Ok::<Seq<i32>, Error>(#[trigger] f.levels[i]), levels[i + 1]) by {
        assert(row_step(f.levels.take(i), levels[i]) == (
            Ok::<Seq<i32>, Error>(f.levels[i]),
            levels[i + 1],
        ));
    }
    (types, flags, scf, levels)
}

/// A packet is its sub-frames in a row. The first is a key frame, and its used-band count
/// stands for itself; each other follows the count of the one before. What stays behind where
/// a sub-frame fails are those before it. The starts and the counts are returned.
pub proof fn law_packet(v: Sv8Vlcs, h: StreamHeaderSv8, bits: Seq<bool>, n: nat) -> (walk: (
    Seq<nat>,
    Seq<u8>,
))
    ensures
        ({
            let read = sv8::packet_read(v, h, bits, 0, 0, n, Seq::empty());
            let m = read.frames.len() as int;
            let (starts, counts) = walk;
            &&& m <= n
            &&& starts.len() == m + 1
            &&& counts.len() == m + 1
            &&& starts[0] == 0
            &&& counts[0] == 0
            &&& forall|i: int|
                0 <= i < m ==> {
                    let sub = sv8::sub_read(v, h, bits, starts[i], i == 0, counts[i]);
                    &&& sub.result == Ok::<SubFrame, Error>(#[trigger] read.frames[i])
                    &&& starts[i + 1] == sub.pos
                    &&& counts[i + 1] == sub.last
                }
            &&& m == n ==> read.result is Ok && read.last == counts[m]
            &&& m < n ==> {
                let sub = sv8::sub_read(v, h, bits, starts[m], m == 0, counts[m]);
                &&& sub.result is Err
                &&& read.result == Err::<(), Error>(sub.result->Err_0)
                &&& read.last == sub.last
            }
        }),
{
    lemma_packet_from(v, h, bits, n, Seq::empty(), seq![0nat], seq![0u8])
}

proof fn lemma_packet_from(
    v: Sv8Vlcs,
    h: StreamHeaderSv8,
    bits: Seq<bool>,
    n: nat,
    done: Seq<SubFrame>,
    s: Seq<nat>,
    c: Seq<u8>,
) -> (walk: (Seq<nat>, Seq<u8>))
    requires
        done.len() <= n,
        s.len() == done.len() + 1,
        c.len() == done.len() + 1,
        s[0] == 0,
        c[0] == 0,
        forall|i: int|
            0 <= i < done.len() ==> {
                let sub = sv8::sub_read(v, h, bits, s[i], i == 0, c[i]);
                &&& sub.result == Ok::<SubFrame, Error>(#[trigger] done[i])
                &&& s[i + 1] == sub.pos
                &&& c[i + 1] == sub.last
            },
    ensures
        ({
            let read = sv8::packet_read(v, h, bits, s.last(), c.last(), n, done);
            let m = read.frames.len() as int;
            let (starts, counts) = walk;
            &&& m <= n
            &&& starts.len() == m + 1
            &&& counts.len() == m + 1
            &&& starts[0] == 0
            &&& counts[0] == 0
            &&& forall|i: int|
                0 <= i < m ==> {
                    let sub = sv8::sub_read(v, h, bits, starts[i], i == 0, counts[i]);
                    &&& sub.result == Ok::<SubFrame, Error>(#[trigger] read.frames[i])
                    &&& starts[i + 1] == sub.pos
                    &&& counts[i + 1] == sub.last
                }
            &&& m == n ==> read.result is Ok && read.last == counts[m]
            &&& m < n ==> {
                let sub = sv8::sub_read(v, h, bits, starts[m], m == 0, counts[m]);
                &&& sub.result is Err
                &&& read.result == Err::<(), Error>(sub.result->Err_0)
                &&& read.last == sub.last
            }
        }),
    decreases n - done.len(),
{
    let sub = sv8::sub_read(v, h, bits, s.last(), done.len() == 0, c.last());
    if done.len() < n && sub.result is Ok {
        let more = done.push(sub.result->Ok_0);
        let s2 = s.push(sub.pos);
        let c2 = c.push(sub.last);
        assert forall|i: int| 0 <= i < more.len() implies {
            let sub = sv8::sub_read(v, h, bits, s2[i], i == 0, c2[i]);
            &&& sub.result == Ok::<SubFrame, Error>(#[trigger] more[i])
            &&& s2[i + 1] == sub.pos
            &&& c2[i + 1] == sub.last
        } by {
            if i < done.len() {
                assert(more[i] == done[i]);
            }
        }
        lemma_packet_from(v, h, bits, n, more, s2, c2)
    } else {
        (s, c)
    }
}

// ---------------------------------------------------------------------------
// What is refused
// ---------------------------------------------------------------------------

/// A code word is refused where the bits end before they spell one, or no word of up to 16 bits
/// is spelt.
pub proof fn law_word_refused(code: VlcTable, bits: Seq<bool>, pos: nat, r: int)
    requires
        code.parse(bits, pos).0 is Err,
        0 <= r < code.rows@.len(),
        1 <= code.rows@[r].length <= 16,
        pos + code.rows@[r].length <= bits.len(),
    ensures
        code.rows@[r].code != bits::field_at(bits, pos, code.rows@[r].length as nat),
{
    assert(bits.subrange(pos as int, pos as int) =~= Seq::<bool>::empty());
    assert(bits::field_at(bits, pos, 0) == 0);
    lemma_refused_from(code.rows@, bits, pos, 0, r);
}

proof fn lemma_refused_from(rows: Seq<VlcRow>, bits: Seq<bool>, pos: nat, n: nat, r: int)
    requires
        0 <= r < rows.len(),
        n < rows[r].length <= 16,
        pos + rows[r].length <= bits.len(),
        sv8::parse_symbol(
            rows,
            bits,
            pos + n,
            bits::field_at(bits, pos, n) as int,
            n as int,
        ).0 is Err,
    ensures
        rows[r].code != bits::field_at(bits, pos, rows[r].length as nat),
    decreases 16 - n,
{
    let p = pos + n;
    let m = n + 1;
    let a = bits.subrange(pos as int, p as int);
    let b = bits.subrange(pos as int, p + 1int);
    let one = bits.subrange(p as int, p + 1int);
    assert(one.drop_last() =~= Seq::<bool>::empty());
    assert(bits::value(one.drop_last()) == 0);
    assert(b.drop_last() =~= a);
    assert(b.last() == one.last());
    bits::lemma_value_bound(one);
    lemma2_to64();
    let code = bits::field_at(bits, pos, m) as int;
    assert(code == 2 * bits::field_at(bits, pos, n) + bits::field_at(bits, p, 1));
    lemma_row(rows, 0, code, m as int);
    if rows[r].length > m {
        lemma_refused_from(rows, bits, pos, m, r);
    } else {
        assert(rows[r].length as nat == m);
    }
}

/// A band type is refused where its word is, and where the type that it leads to is none:
/// below that of noise, or above 17.
pub proof fn law_type_refused(v: Sv8Vlcs, bits: Seq<bool>, pos: nat, above: int)
    requires
        -1 <= above <= 17,
    ensures
        ({
            let code = if above > 2 {
                v.res_high
            } else {
                v.res_low
            };
            let (word, p) = code.parse(bits, pos);
            let sum = above + word->Ok_0 - 7;
            &&& word is Ok && -1 <= sum <= 34 ==> sv8::parse_type(v, bits, pos, above).0 is Ok
            &&& word is Ok && (sum < -1 || sum > 34) ==> sv8::parse_type(
                v,
                bits,
                pos,
                above,
            ).0 is Err
            &&& word is Err ==> sv8::parse_type(v, bits, pos, above).0 is Err
        }),
{
}

/// The scalefactors of a channel are read where there are bits for them: those of the first
/// code words, seven bits, and the words of the others.
pub proof fn law_scf_owed(v: Sv8Vlcs, bits: Seq<bool>, pos: nat, band_type: i8)
    ensures
        ({
            let (word, p) = v.scfi.parse(bits, pos);
            let m = word->Ok_0;
            let coded = m == 1 || m == 2 || m == 3;
            let r = sv8::parse_scf(v, bits, pos, band_type).0;
            &&& band_type == 0 ==> r is Ok
            &&& word is Ok && p + 7 <= bits.len() && !coded ==> r is Ok
            &&& word is Ok && p + 7 <= bits.len() && (m == 1 || m == 2) && sv8::parse_delta_scf(
                v,
                bits,
                p + 7,
                bits::field_at(bits, p, 7) as u8,
            ).0 is Ok ==> r is Ok
        }),
{
}

/// A difference of scalefactors is read where its word is, and behind the escape its six bits
/// are there.
pub proof fn law_difference_owed(v: Sv8Vlcs, bits: Seq<bool>, pos: nat, before: u8)
    ensures
        ({
            let (word, p) = v.dscf.parse(bits, pos);
            sv8::parse_delta_scf(v, bits, pos, before).0 is Ok <==> word is Ok && (word->Ok_0 == 31
                ==> p + 6 <= bits.len())
        }),
{
}

/// The levels of a band of the types 1 to 8 are read where there are bits for all of them.
pub proof fn law_small_levels_owed(
    v: Sv8Vlcs,
    bits: Seq<bool>,
    pos: nat,
    band_type: i8,
    band: int,
    ch: int,
)
    requires
        1 <= band_type <= 8,
        pos + 36 * (if band_type == 1 {
            2int
        } else if band_type <= 3 {
            3
        } else if band_type <= 5 {
            4
        } else {
            band_type - 1
        }) <= bits.len(),
    ensures
        sv8::parse_levels(v, bits, pos, band_type, band, ch).0 is Ok,
{
    lemma_levels_owed_from(v, bits, pos, band_type as int, Seq::empty());
}

proof fn lemma_levels_owed_from(v: Sv8Vlcs, bits: Seq<bool>, pos: nat, t: int, done: Seq<i32>)
    requires
        1 <= t <= 8,
        done.len() <= 36,
        pos + (36 - done.len()) * sv8::small_width(t) <= bits.len(),
    ensures
        coding::sweep(sv8::level_step(v, bits, t), 36, done, pos).result is Ok,
    decreases 36 - done.len(),
{
    if done.len() < 36 {
        let w = sv8::small_width(t) as int;
        let left = 36 - done.len();
        assert(left * w == (left - 1) * w + w) by (nonlinear_arith);
        assert((left - 1) * w >= 0) by (nonlinear_arith)
            requires
                left >= 1,
                w >= 0,
        ;
        let (r, p) = sv8::level_step(v, bits, t)(done, pos);
        assert(r is Ok && p == pos + w);
        lemma_levels_owed_from(v, bits, p, t, done.push(r->Ok_0));
    }
}

/// A level of type 9 and above is read where its word is and the bits behind it are there.
pub proof fn law_loud_level_owed(v: Sv8Vlcs, bits: Seq<bool>, pos: nat, band_type: int)
    requires
        9 <= band_type <= 17,
    ensures
        ({
            let (word, p) = v.q9up.parse(bits, pos);
            sv8::parse_level(v, bits, pos, band_type).0 is Ok <==> word is Ok && p + band_type - 9
                <= bits.len()
        }),
{
}

/// A sub-frame is refused for one of its parts: the count, the types, the flags, or the
/// scalefactors or levels of one of its channels. Its number and its position are returned.
pub proof fn law_sub_frame_refused(
    v: Sv8Vlcs,
    h: StreamHeaderSv8,
    bits: Seq<bool>,
    pos: nat,
    keyframe: bool,
    last: u8,
) -> (at: (int, nat))
    requires
        sv8::sub_read(v, h, bits, pos, keyframe, last).result is Err,
    ensures
        ({
            let e = sv8::sub_read(v, h, bits, pos, keyframe, last).result->Err_0;
            let (count, p) = sv8::parse_max_band(v, bits, pos, keyframe, h.allowed(), last);
            let (types, q) = sv8::parse_res(v, bits, p, count->Ok_0 as nat, h.channels == 2);
            let res = types->Ok_0;
            let flags = sv8_stereo_frame::parse_flags(
                bits,
                q,
                res,
                h.mid_side && h.channels == 2,
            ).0;
            let (i, r) = at;
            let t = res[i / 2][i % 2];
            ||| count == Err::<u8, Error>(e)
            ||| count is Ok && types == Err::<Seq<[i8; 2]>, Error>(e)
            ||| count is Ok && types is Ok && flags == Err::<Seq<bool>, Error>(e)
            ||| count is Ok && types is Ok && flags is Ok && 0 <= i < 2 * res.len() && (
            sv8::parse_scf(v, bits, r, t).0 == Err::<[u8; 3], Error>(e) || sv8::parse_levels(
                v,
                bits,
                r,
                t,
                i / 2,
                i % 2,
            ).0 == Err::<Seq<i32>, Error>(e))
        }),
{
    let (count, p) = sv8::parse_max_band(v, bits, pos, keyframe, h.allowed(), last);
    let (types, q) = sv8::parse_res(v, bits, p, count->Ok_0 as nat, h.channels == 2);
    let res = types->Ok_0;
    let (flags, s) = sv8_stereo_frame::parse_flags(bits, q, res, h.mid_side && h.channels == 2);
    let scf = coding::sweep(sv8::scf_step(v, bits, res), 2 * res.len(), Seq::empty(), s);
    if count is Ok && types is Ok && flags is Ok {
        if scf.result is Err {
            let (done, r) = coding::lemma_sweep_fails(
                sv8::scf_step(v, bits, res),
                2 * res.len(),
                Seq::empty(),
                s,
            );
            (done.len() as int, r)
        } else {
            let (done, r) = coding::lemma_sweep_fails(
                sv8::row_step(v, bits, res),
                2 * res.len(),
                Seq::empty(),
                scf.pos,
            );
            (done.len() as int, r)
        }
    } else {
        (0, 0)
    }
}

} // verus!
