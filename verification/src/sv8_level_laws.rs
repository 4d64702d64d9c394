//! What the bits of an SV8 band say: the level of every sample, by the code words and the raw
//! bits that it is read from.

use crate::bits;
use crate::cns::CnsPrng;
use crate::coding;
use crate::combinadic;
use crate::error::Error;
use crate::sv8_band_decode;
use crate::sv8_context;
use crate::sv8_huffman::{Sv8CanonicalTable, Sv8TableSet};
use crate::sv8_sample_decode;
use crate::sv8_stereo_frame;
use vstd::arithmetic::div_mod::*;
use vstd::arithmetic::mul::*;
use vstd::arithmetic::power2::*;
use vstd::math::abs;
use vstd::prelude::*;

verus! {

/// Bands without levels of their own take no bits: noise is what the generator gives, and
/// silence is zero.
pub proof fn law_uncoded_levels(
    tables: Sv8TableSet,
    bits: Seq<bool>,
    pos: nat,
    noise: CnsPrng,
)
    ensures
        sv8_stereo_frame::parse_channel_levels(tables, bits, pos, -1i8, noise) == (
            Ok::<Seq<i32>, Error>(noise.noise()),
            pos,
        ),
        ({
            let (r, end) = sv8_stereo_frame::parse_channel_levels(tables, bits, pos, 0, noise);
            &&& end == pos
            &&& r is Ok
            &&& r->Ok_0.len() == 36
            &&& forall|k: int| 0 <= k < 36 ==> #[trigger] r->Ok_0[k] == 0
        }),
{
}

/// A number with a signed byte in front of `n` bits, modulo eight bits more.
proof fn lemma_high_byte(s: int, x: int, n: nat)
    requires
        0 <= x < pow2(n),
    ensures
        (s * pow2(n) + x) % pow2(n + 8) as int == (s % 256) * pow2(n) + x,
        0 <= (s % 256) * pow2(n) + x < pow2(n + 8),
{
    lemma_pow2_adds(n, 8);
    lemma2_to64();
    let u = pow2(n) as int;
    let q = s / 256;
    let r = s % 256;
    lemma_fundamental_div_mod(s, 256);
    assert(0 <= r * u + x < 256 * u) by (nonlinear_arith)
        requires
            0 <= r <= 255,
            0 <= x < u,
    ;
    assert(s * u + x == q * (256 * u) + (r * u + x)) by (nonlinear_arith)
        requires
            s == 256 * q + r,
    ;
    assert(pow2(n + 8) == 256 * u) by {
        lemma_mul_is_commutative(u, 256);
    }
    lemma_fundamental_div_mod_converse(s * u + x, 256 * u, q, r * u + x);
}

/// A band of type 9 and above is 36 numbers, each of a code word for its high eight bits and
/// of the `type - 9` bits behind it. A level is its number less the middle of the range,
/// `2^(type - 2) - 1`. The positions of the numbers and the symbols of the words are returned.
pub proof fn law_loud_levels(
    tables: Sv8TableSet,
    bits: Seq<bool>,
    pos: nat,
    band_type: i8,
    noise: CnsPrng,
) -> (walk: (Seq<nat>, Seq<i8>))
    requires
        9 <= band_type <= 17,
        sv8_stereo_frame::parse_channel_levels(tables, bits, pos, band_type, noise).0 is Ok,
    ensures
        ({
            let (r, end) = sv8_stereo_frame::parse_channel_levels(
                tables,
                bits,
                pos,
                band_type,
                noise,
            );
            let levels = r->Ok_0;
            let (stops, words) = walk;
            let low = (band_type - 9) as nat;
            &&& levels.len() == 36
            &&& words.len() == 36
            &&& stops.len() == 37
            &&& stops[0] == pos
            &&& stops[36] == end
            &&& forall|k: int|
                0 <= k < 36 ==> {
                    let raw = (stops[k + 1] - low) as nat;
                    &&& tables.q9up.parse(bits, stops[k]) == (
                        Ok::<i8, Error>(#[trigger] words[k]),
                        raw,
                    )
                    &&& raw + low == stops[k + 1] <= bits.len()
                    &&& levels[k] == (words[k] as int % 256) * pow2(low) + bits::field_at(
                        bits,
                        raw,
                        low,
                    ) - (pow2((band_type - 2) as nat) - 1)
                }
        }),
{
    let t = band_type as int;
    let n = (t - 9) as nat;
    let step = sv8_sample_decode::escape_step(tables.q9up, bits, n);
    let band = sv8_sample_decode::escape_band(tables, bits, pos, t);
    let stops = coding::lemma_sweep_stops(step, 36, pos);
    let before = sv8_band_decode::silence();
    assert(coding::overwritten(before, band.done) =~= band.done);
    let levels = sv8_stereo_frame::frame_levels(t, band.done);
    let words = Seq::new(36, |k: int| tables.q9up.parse(bits, stops[k]).0->Ok_0);
    assert forall|k: int| 0 <= k < 36 implies {
        let raw = (stops[k + 1] - n) as nat;
        &&& tables.q9up.parse(bits, stops[k]) == (Ok::<i8, Error>(#[trigger] words[k]), raw)
        &&& raw + n == stops[k + 1] <= bits.len()
        &&& levels[k] == (words[k] as int % 256) * pow2(n) + bits::field_at(bits, raw, n) - (pow2(
            (t - 2) as nat,
        ) - 1)
    } by {
        assert(step(band.done.take(k), stops[k]) == (Ok::<i32, Error>(band.done[k]), stops[k + 1]));
        lemma_loud_level(tables.q9up, bits, stops[k], t, band.done, k);
    }
    assert(sv8_stereo_frame::parse_channel_levels(tables, bits, pos, band_type, noise) == (
        Ok::<Seq<i32>, Error>(levels),
        band.pos,
    ));
    (stops, words)
}

/// The level of a number that was read.
proof fn lemma_loud_level(
    code: Sv8CanonicalTable,
    bits: Seq<bool>,
    at: nat,
    t: int,
    raw: Seq<i32>,
    k: int,
)
    requires
        9 <= t <= 17,
        0 <= k < raw.len(),
        sv8_sample_decode::parse_escape(code, bits, at, (t - 9) as nat).0 == Ok::<i32, Error>(
            raw[k],
        ),
    ensures
        ({
            let n = (t - 9) as nat;
            let (s, p) = code.parse(bits, at);
            &&& s is Ok
            &&& p + n <= bits.len()
            &&& sv8_sample_decode::parse_escape(code, bits, at, n).1 == p + n
            &&& sv8_stereo_frame::frame_levels(t, raw)[k] == (s->Ok_0 as int % 256) * pow2(n)
                + bits::field_at(bits, p, n) - (pow2((t - 2) as nat) - 1)
        }),
{
    let n = (t - 9) as nat;
    let (word, p) = code.parse(bits, at);
    let s = word->Ok_0 as int;
    lemma2_to64();
    bits::lemma_value_bound(bits.subrange(p as int, (p + n) as int));
    let x = bits::field_at(bits, p, n) as int;
    if n < 8 {
        lemma_pow2_strictly_increases(n, 8);
        lemma_pow2_strictly_increases((t - 2) as nat, 15);
        lemma_pow2_strictly_increases((t - 1) as nat, 16);
    }
    lemma_pow2_pos(n);
    lemma_pow2_pos((t - 2) as nat);
    lemma_high_byte(s, x, n);
    assert(-32768 <= s * pow2(n) <= 32512) by (nonlinear_arith)
        requires
            -128 <= s <= 127,
            1 <= pow2(n) <= 256,
    ;
    assert(raw[k] == s * pow2(n) + x);
}

/// A band of the types 5 to 8 is 36 code words, and each is a level. The type says of which
/// two codes they are. The second code is for words behind loud ones: a running magnitude,
/// which starts at twice the type's threshold, is halved and takes in each level, and lies
/// above the threshold. The positions, the symbols and the magnitudes are returned.
pub proof fn law_single_levels(
    tables: Sv8TableSet,
    bits: Seq<bool>,
    pos: nat,
    band_type: i8,
    noise: CnsPrng,
) -> (walk: (Seq<nat>, Seq<i8>, Seq<nat>))
    requires
        5 <= band_type <= 8,
        sv8_stereo_frame::parse_channel_levels(tables, bits, pos, band_type, noise).0 is Ok,
    ensures
        ({
            let (r, end) = sv8_stereo_frame::parse_channel_levels(
                tables,
                bits,
                pos,
                band_type,
                noise,
            );
            let levels = r->Ok_0;
            let (stops, words, loud) = walk;
            let codes = if band_type == 5 {
                tables.q5
            } else if band_type == 6 {
                tables.q6
            } else if band_type == 7 {
                tables.q7
            } else {
                tables.q8
            };
            let threshold: int = if band_type == 5 {
                1
            } else if band_type == 6 {
                3
            } else if band_type == 7 {
                4
            } else {
                8
            };
            &&& levels.len() == 36
            &&& words.len() == 36
            &&& stops.len() == 37
            &&& loud.len() == 37
            &&& stops[0] == pos
            &&& stops[36] == end
            &&& loud[0] == 2 * threshold
            &&& forall|k: int|
                0 <= k < 36 ==> {
                    let code = if loud[k] > threshold {
                        codes[1]
                    } else {
                        codes[0]
                    };
                    &&& code.parse(bits, stops[k]) == (
                        Ok::<i8, Error>(#[trigger] words[k]),
                        stops[k + 1],
                    )
                    &&& levels[k] == words[k]
                    &&& loud[k + 1] == loud[k] as int / 2 + abs(words[k] as int)
                }
        }),
{
    let band = sv8_sample_decode::sample_band(tables, bits, pos, band_type as int);
    let codes = if band_type == 5 {
        tables.q5
    } else if band_type == 6 {
        tables.q6
    } else if band_type == 7 {
        tables.q7
    } else {
        tables.q8
    };
    let th: nat = if band_type == 5 {
        1
    } else if band_type == 6 {
        3
    } else if band_type == 7 {
        4
    } else {
        8
    };
    let levels = sv8_band_decode::widened(band.done);
    assert(sv8_stereo_frame::parse_channel_levels(tables, bits, pos, band_type, noise) == (
        Ok::<Seq<i32>, Error>(levels),
        band.pos,
    ));
    assert forall|ctx: int| 0 <= ctx < 2 implies tables.table(
        sv8_sample_decode::sample_role(band_type as int),
        ctx,
    ) == #[trigger] codes[ctx] by {}
    let (stops, loud) = lemma_single_words(tables, bits, pos, band_type as int, codes, th);
    assert forall|k: int| 0 <= k < 36 implies levels[k] == #[trigger] band.done[k] by {}
    (stops, band.done, loud)
}

/// The words of one level of a band.
proof fn lemma_single_words(
    tables: Sv8TableSet,
    bits: Seq<bool>,
    pos: nat,
    t: int,
    codes: [Sv8CanonicalTable; 2],
    th: nat,
) -> (walk: (Seq<nat>, Seq<nat>))
    requires
        sv8_context::threshold(t) == Some(th as u32),
        th < 100,
        forall|ctx: int|
            0 <= ctx < 2 ==> tables.table(sv8_sample_decode::sample_role(t), ctx)
                == #[trigger] codes[ctx],
        sv8_sample_decode::sample_band(tables, bits, pos, t).result is Ok,
    ensures
        ({
            let band = sv8_sample_decode::sample_band(tables, bits, pos, t);
            let words = band.done;
            let (stops, loud) = walk;
            &&& words.len() == 36
            &&& stops.len() == 37
            &&& loud.len() == 37
            &&& stops[0] == pos
            &&& stops[36] == band.pos
            &&& loud[0] == 2 * th
            &&& forall|k: int|
                0 <= k < 36 ==> {
                    let code = if loud[k] > th {
                        codes[1]
                    } else {
                        codes[0]
                    };
                    &&& code.parse(bits, stops[k]) == (
                        Ok::<i8, Error>(#[trigger] words[k]),
                        stops[k + 1],
                    )
                    &&& loud[k + 1] == loud[k] as int / 2 + abs(words[k] as int)
                }
        }),
{
    let step = sv8_sample_decode::sample_context_step(tables, bits, t);
    let words = sv8_sample_decode::sample_band(tables, bits, pos, t).done;
    let stops = coding::lemma_sweep_stops(step, 36, pos);
    let loud = Seq::new(37, |k: int| sv8_context::after_samples(th, words.take(k)).idx);
    assert(words.take(0) =~= Seq::<i8>::empty());
    assert forall|k: int| 0 <= k < 36 implies {
        let code = if loud[k] > th {
            codes[1]
        } else {
            codes[0]
        };
        &&& code.parse(bits, stops[k]) == (Ok::<i8, Error>(#[trigger] words[k]), stops[k + 1])
        &&& loud[k + 1] == loud[k] as int / 2 + abs(words[k] as int)
    } by {
        assert(step(words.take(k), stops[k]) == (Ok::<i8, Error>(words[k]), stops[k + 1]));
        lemma_same_threshold(th, words.take(k));
        assert(words.take(k + 1).drop_last() =~= words.take(k));
        assert(words.take(k + 1).last() == words[k]);
        assert(codes[0] == codes[0] && codes[1] == codes[1]);
    }
    (stops, loud)
}

proof fn lemma_same_threshold(t: nat, q: Seq<i8>)
    ensures
        sv8_context::after_samples(t, q).thres == t,
        sv8_context::after_triples(t, q).thres == t,
    decreases q.len(),
{
    if q.len() > 0 {
        lemma_same_threshold(t, q.drop_last());
    }
}

/// A band of type 2 is twelve code words of three levels each, in base five, the first level
/// the lowest digit. The second code is for words behind loud ones: a running magnitude,
/// which starts at six, is halved and takes in the levels of each word, and lies above three.
/// The positions, the symbols and the magnitudes are returned.
pub proof fn law_triple_levels(
    tables: Sv8TableSet,
    bits: Seq<bool>,
    pos: nat,
    noise: CnsPrng,
) -> (walk: (Seq<nat>, Seq<i8>, Seq<nat>))
    requires
        sv8_stereo_frame::parse_channel_levels(tables, bits, pos, 2, noise).0 is Ok,
    ensures
        ({
            let (r, end) = sv8_stereo_frame::parse_channel_levels(tables, bits, pos, 2, noise);
            let levels = r->Ok_0;
            let (stops, words, loud) = walk;
            &&& levels.len() == 36
            &&& words.len() == 12
            &&& stops.len() == 13
            &&& loud.len() == 13
            &&& stops[0] == pos
            &&& stops[12] == end
            &&& loud[0] == 6
            &&& forall|k: int| 0 <= k < 36 ==> -2 <= #[trigger] levels[k] <= 2
            &&& forall|g: int|
                0 <= g < 12 ==> {
                    let code = if loud[g] > 3 {
                        tables.q2[1]
                    } else {
                        tables.q2[0]
                    };
                    let (a, b, c) = (levels[3 * g], levels[3 * g + 1], levels[3 * g + 2]);
                    &&& code.parse(bits, stops[g]) == (
                        Ok::<i8, Error>(#[trigger] words[g]),
                        stops[g + 1],
                    )
                    &&& words[g] == (a + 2) + 5 * (b + 2) + 25 * (c + 2)
                    &&& loud[g + 1] == loud[g] as int / 2 + abs(a as int) + abs(b as int) + abs(
                        c as int,
                    )
                }
        }),
{
    let band = sv8_sample_decode::triple_context_band(tables, bits, pos);
    let (stops, loud) = lemma_triple_words(tables, bits, pos);
    let levels = sv8_band_decode::widened(sv8_sample_decode::spread3(band.done));
    lemma_spread3(band.done, levels);
    assert(sv8_stereo_frame::parse_channel_levels(tables, bits, pos, 2, noise) == (
        Ok::<Seq<i32>, Error>(levels),
        band.pos,
    ));
    (stops, band.done, loud)
}

/// The words of three levels of a band.
proof fn lemma_triple_words(tables: Sv8TableSet, bits: Seq<bool>, pos: nat) -> (walk: (
    Seq<nat>,
    Seq<nat>,
))
    requires
        sv8_sample_decode::triple_context_band(tables, bits, pos).result is Ok,
    ensures
        ({
            let band = sv8_sample_decode::triple_context_band(tables, bits, pos);
            let (stops, loud) = walk;
            &&& band.done.len() == 12
            &&& stops.len() == 13
            &&& loud.len() == 13
            &&& stops[0] == pos
            &&& stops[12] == band.pos
            &&& loud[0] == 6
            &&& forall|g: int|
                0 <= g < 12 ==> {
                    let code = if loud[g] > 3 {
                        tables.q2[1]
                    } else {
                        tables.q2[0]
                    };
                    &&& 0 <= #[trigger] band.done[g] <= 124
                    &&& code.parse(bits, stops[g]) == (
                        Ok::<i8, Error>(band.done[g]),
                        stops[g + 1],
                    )
                    &&& loud[g + 1] == loud[g] as int / 2 + sv8_context::triple_magnitude(
                        band.done[g] as int,
                    )
                }
        }),
{
    let step = sv8_sample_decode::triple_context_step(tables, bits);
    let band = sv8_sample_decode::triple_context_band(tables, bits, pos);
    let words = band.done;
    let stops = coding::lemma_sweep_stops(step, 12, pos);
    let loud = Seq::new(13, |k: int| sv8_context::after_triples(3, words.take(k)).idx);
    assert(words.take(0) =~= Seq::<i8>::empty());
    assert forall|g: int| 0 <= g < 12 implies {
        let code = if loud[g] > 3 {
            tables.q2[1]
        } else {
            tables.q2[0]
        };
        &&& 0 <= #[trigger] words[g] <= 124
        &&& code.parse(bits, stops[g]) == (Ok::<i8, Error>(words[g]), stops[g + 1])
        &&& loud[g + 1] == loud[g] as int / 2 + sv8_context::triple_magnitude(words[g] as int)
    } by {
        assert(step(words.take(g), stops[g]) == (Ok::<i8, Error>(words[g]), stops[g + 1]));
        lemma_same_threshold(3, words.take(g));
        assert(words.take(g + 1).drop_last() =~= words.take(g));
        assert(words.take(g + 1).last() == words[g]);
    }
    (stops, loud)
}

/// Words of three levels as levels.
pub proof fn lemma_spread3(words: Seq<i8>, levels: Seq<i32>)
    requires
        words.len() == 12,
        forall|g: int| 0 <= g < 12 ==> 0 <= #[trigger] words[g] <= 124,
        levels == sv8_band_decode::widened(sv8_sample_decode::spread3(words)),
    ensures
        levels.len() == 36,
        forall|k: int| 0 <= k < 36 ==> -2 <= #[trigger] levels[k] <= 2,
        forall|g: int|
            0 <= g < 12 ==> {
                let (a, b, c) = (levels[3 * g], levels[3 * g + 1], levels[3 * g + 2]);
                &&& #[trigger] words[g] == (a + 2) + 5 * (b + 2) + 25 * (c + 2)
                &&& sv8_context::triple_magnitude(words[g] as int) == abs(a as int) + abs(b as int)
                    + abs(c as int)
            },
{
    assert forall|g: int| 0 <= g < 12 implies {
        let (a, b, c) = (levels[3 * g], levels[3 * g + 1], levels[3 * g + 2]);
        &&& #[trigger] words[g] == (a + 2) + 5 * (b + 2) + 25 * (c + 2)
        &&& sv8_context::triple_magnitude(words[g] as int) == abs(a as int) + abs(b as int) + abs(
            c as int,
        )
    } by {
        let s = words[g] as int;
        lemma_thirds(g);
        lemma_base_five(s);
        assert(levels[3 * g] == sv8_context::triple_digit(s, 0));
        assert(levels[3 * g + 1] == sv8_context::triple_digit(s, 1));
        assert(levels[3 * g + 2] == sv8_context::triple_digit(s, 2));
    }
    assert forall|k: int| 0 <= k < 36 implies -2 <= #[trigger] levels[k] <= 2 by {
        assert(0 <= words[k / 3] <= 124);
        lemma_base_five(words[k / 3] as int);
        assert(k % 3 == 0 || k % 3 == 1 || k % 3 == 2);
        assert(levels[k] == sv8_context::triple_digit(words[k / 3] as int, k % 3));
    }
}

/// Where the levels of a word of three stand.
proof fn lemma_thirds(g: int)
    ensures
        (3 * g) / 3 == g && (3 * g + 1) / 3 == g && (3 * g + 2) / 3 == g,
        (3 * g) % 3 == 0 && (3 * g + 1) % 3 == 1 && (3 * g + 2) % 3 == 2,
{
}

/// A symbol of three levels is made of its digits in base five.
proof fn lemma_base_five(s: int)
    requires
        0 <= s <= 124,
    ensures
        ({
            let a = sv8_context::triple_digit(s, 0);
            let b = sv8_context::triple_digit(s, 1);
            let c = sv8_context::triple_digit(s, 2);
            &&& -2 <= a <= 2
            &&& -2 <= b <= 2
            &&& -2 <= c <= 2
            &&& s == (a + 2) + 5 * (b + 2) + 25 * (c + 2)
            &&& sv8_context::triple_magnitude(s) == abs(a) + abs(b) + abs(c)
        }),
{
    assert(s == s % 5 + 5 * (s / 5));
    assert(s / 5 == s / 5 % 5 + 5 * (s / 25));
}

/// A byte is made of two signed nibbles.
proof fn lemma_nibbles(s: i8)
    ensures
        ({
            let lo = sv8_sample_decode::pair_digit(s as int, 0);
            let hi = sv8_sample_decode::pair_digit(s as int, 1);
            &&& -8 <= lo < 8
            &&& -8 <= hi < 8
            &&& s as int % 256 == (16 * (hi % 16) + lo % 16)
        }),
{
    let b = s as int % 256;
    assert(b == 16 * (b / 16) + b % 16);
}

/// A band of type 3 or 4 is eighteen code words of two levels each: the low four bits of the
/// symbol are the first level, the high four bits the second, both signed. The type says of
/// which code they are. The positions and the symbols of the words are returned.
pub proof fn law_pair_levels(
    tables: Sv8TableSet,
    bits: Seq<bool>,
    pos: nat,
    band_type: i8,
    noise: CnsPrng,
) -> (walk: (Seq<nat>, Seq<i8>))
    requires
        3 <= band_type <= 4,
        sv8_stereo_frame::parse_channel_levels(tables, bits, pos, band_type, noise).0 is Ok,
    ensures
        ({
            let (r, end) = sv8_stereo_frame::parse_channel_levels(
                tables,
                bits,
                pos,
                band_type,
                noise,
            );
            let levels = r->Ok_0;
            let (stops, words) = walk;
            let code = if band_type == 3 {
                tables.q3
            } else {
                tables.q4
            };
            &&& levels.len() == 36
            &&& words.len() == 18
            &&& stops.len() == 19
            &&& stops[0] == pos
            &&& stops[18] == end
            &&& forall|k: int| 0 <= k < 36 ==> -band_type <= #[trigger] levels[k] <= band_type
            &&& forall|g: int|
                0 <= g < 18 ==> {
                    &&& code.parse(bits, stops[g]) == (
                        Ok::<i8, Error>(#[trigger] words[g]),
                        stops[g + 1],
                    )
                    &&& words[g] as int % 256 == levels[2 * g] as int % 16 + 16 * (levels[2 * g
                        + 1] as int % 16)
                }
        }),
{
    let t = band_type as int;
    let step = sv8_sample_decode::pair_step(tables, bits, t);
    let band = sv8_sample_decode::pair_band(tables, bits, pos, t);
    let words = band.done;
    let stops = coding::lemma_sweep_stops(step, 18, pos);
    let levels = sv8_band_decode::widened(sv8_sample_decode::spread2(words));
    let code = if t == 3 {
        tables.q3
    } else {
        tables.q4
    };
    assert forall|g: int| 0 <= g < 18 implies sv8_sample_decode::is_pair(
        #[trigger] words[g] as int,
        t,
    ) && code.parse(bits, stops[g]) == (Ok::<i8, Error>(words[g]), stops[g + 1]) by {
        assert(step(words.take(g), stops[g]) == (Ok::<i8, Error>(words[g]), stops[g + 1]));
    }
    lemma_spread2(words, levels, t);
    assert(sv8_stereo_frame::parse_channel_levels(tables, bits, pos, band_type, noise) == (
        Ok::<Seq<i32>, Error>(levels),
        band.pos,
    ));
    (stops, words)
}

/// Words of two levels as levels.
proof fn lemma_spread2(words: Seq<i8>, levels: Seq<i32>, t: int)
    requires
        words.len() == 18,
        forall|g: int|
            0 <= g < 18 ==> sv8_sample_decode::is_pair(#[trigger] words[g] as int, t),
        levels == sv8_band_decode::widened(sv8_sample_decode::spread2(words)),
    ensures
        levels.len() == 36,
        forall|k: int| 0 <= k < 36 ==> -t <= #[trigger] levels[k] <= t,
        forall|g: int|
            0 <= g < 18 ==> #[trigger] words[g] as int % 256 == levels[2 * g] as int % 16 + 16 * (
            levels[2 * g + 1] as int % 16),
{
    assert forall|g: int| 0 <= g < 18 implies #[trigger] words[g] as int % 256 == levels[2 * g] as int
        % 16 + 16 * (levels[2 * g + 1] as int % 16) by {
        assert((2 * g) / 2 == g && (2 * g + 1) / 2 == g);
        assert((2 * g) % 2 == 0 && (2 * g + 1) % 2 == 1);
        lemma_nibbles(words[g]);
    }
    assert forall|k: int| 0 <= k < 36 implies -t <= #[trigger] levels[k] <= t by {
        let g = k / 2;
        lemma_nibbles(words[g]);
        assert(k % 2 == 0 || k % 2 == 1);
        assert(sv8_sample_decode::is_pair(words[g] as int, t));
    }
}

/// A set that was read has as many flags as it was to have.
proof fn lemma_set_len(bits: Seq<bool>, pos: nat, cnt: nat, n: nat)
    ensures
        ({
            let r = combinadic::parse_set(bits, pos, cnt, n).0;
            r is Ok ==> r->Ok_0.len() == n
        }),
{
    if 0 < cnt < n {
        let k = if cnt > n / 2 {
            (n - cnt) as nat
        } else {
            cnt
        };
        let r = crate::phased::parse(bits, pos, combinadic::choose_count(n, k)).0;
        combinadic::lemma_subset_len(r->Ok_0 as nat, k, n);
    }
}

/// The signs of a half: one bit for each flag that is set, in their order.
proof fn lemma_signs(bits: Seq<bool>, flags: Seq<bool>, q: nat)
    requires
        flags.len() == 18,
        coding::sweep(
            sv8_sample_decode::sign_step(bits, flags),
            18,
            Seq::empty(),
            q,
        ).result is Ok,
    ensures
        ({
            let run = coding::sweep(
                sv8_sample_decode::sign_step(bits, flags),
                18,
                Seq::empty(),
                q,
            );
            &&& run.done.len() == 18
            &&& run.pos == q + combinadic::ones(flags)
            &&& forall|j: int|
                0 <= j < 18 ==> #[trigger] run.done[j] == if !flags[j] {
                    0int
                } else if bits[(q + combinadic::ones(flags.take(j))) as int] {
                    1
                } else {
                    -1
                }
        }),
{
    let step = sv8_sample_decode::sign_step(bits, flags);
    let run = coding::sweep(step, 18, Seq::empty(), q);
    let stops = coding::lemma_sweep_stops(step, 18, q);
    assert forall|j: int| 0 <= j <= 18 implies #[trigger] stops[j] == q + combinadic::ones(
        flags.take(j),
    ) by {
        lemma_sign_stop(bits, flags, q, stops, run.done, j);
    }
    assert(flags.take(18) =~= flags);
    assert forall|j: int| 0 <= j < 18 implies #[trigger] run.done[j] == if !flags[j] {
        0int
    } else if bits[(q + combinadic::ones(flags.take(j))) as int] {
        1
    } else {
        -1
    } by {
        assert(step(run.done.take(j), stops[j]) == (Ok::<i8, Error>(run.done[j]), stops[j + 1]));
        if flags[j] {
            bits::lemma_one_bit(bits, stops[j]);
        }
    }
}

/// Where the sign of a flag stands.
proof fn lemma_sign_stop(
    bits: Seq<bool>,
    flags: Seq<bool>,
    q: nat,
    stops: Seq<nat>,
    done: Seq<i8>,
    j: int,
)
    requires
        flags.len() == 18,
        done.len() == 18,
        0 <= j <= 18,
        stops.len() == 19,
        stops[0] == q,
        forall|k: int|
            0 <= k < 18 ==> sv8_sample_decode::sign_step(bits, flags)(done.take(k), stops[k]) == (
                Ok::<i8, Error>(#[trigger] done[k]),
                stops[k + 1],
            ),
    ensures
        stops[j] == q + combinadic::ones(flags.take(j)),
    decreases j,
{
    if j == 0 {
        assert(flags.take(0) =~= Seq::<bool>::empty());
        assert(combinadic::ones(flags.take(0)) == 0);
    } else {
        lemma_sign_stop(bits, flags, q, stops, done, j - 1);
        let s = flags.take(j);
        combinadic::lemma_ones_last(s);
        assert(s.drop_last() =~= flags.take(j - 1));
        assert(s.last() == flags[j - 1]);
        assert(sv8_sample_decode::sign_step(bits, flags)(done.take(j - 1), stops[j - 1]) == (
            Ok::<i8, Error>(done[j - 1]),
            stops[j],
        ));
        assert(done.take(j - 1).len() == j - 1);
    }
}

/// A band of type 1 is two halves of eighteen levels, each zero, one or minus one. A half is
/// a code word for how many are not zero, the set of those, and a bit for the sign of each of
/// them, set where it is one. The start of each half, its set and the start of its signs are
/// returned.
pub proof fn law_sparse_levels(
    tables: Sv8TableSet,
    bits: Seq<bool>,
    pos: nat,
    noise: CnsPrng,
) -> (walk: (Seq<nat>, Seq<Seq<bool>>, Seq<nat>))
    requires
        sv8_stereo_frame::parse_channel_levels(tables, bits, pos, 1, noise).0 is Ok,
    ensures
        ({
            let (r, end) = sv8_stereo_frame::parse_channel_levels(tables, bits, pos, 1, noise);
            let levels = r->Ok_0;
            let (stops, sets, signs) = walk;
            &&& levels.len() == 36
            &&& stops.len() == 3
            &&& sets.len() == 2
            &&& signs.len() == 2
            &&& stops[0] == pos
            &&& stops[2] == end
            &&& forall|h: int|
                0 <= h < 2 ==> {
                    let (count, p) = tables.q1.parse(bits, stops[h]);
                    &&& count is Ok
                    &&& 0 <= count->Ok_0 <= 18
                    &&& #[trigger] sets[h].len() == 18
                    &&& combinadic::parse_set(bits, p, count->Ok_0 as nat, 18) == (
                        Ok::<Seq<bool>, Error>(sets[h]),
                        signs[h],
                    )
                    &&& stops[h + 1] == signs[h] + combinadic::ones(sets[h])
                }
            &&& forall|k: int|
                0 <= k < 36 ==> {
                    let set = sets[k / 18];
                    #[trigger] levels[k] == if !set[k % 18] {
                        0int
                    } else if bits[(signs[k / 18] + combinadic::ones(set.take(k % 18))) as int] {
                        1
                    } else {
                        -1
                    }
                }
        }),
{
    let step = sv8_sample_decode::group_step(tables.q1, bits);
    let band = sv8_sample_decode::sparse_band(tables, bits, pos);
    let stops = coding::lemma_sweep_stops(step, 2, pos);
    let halves = band.done;
    let count = |h: int| tables.q1.parse(bits, stops[h]);
    let set_read = |h: int|
        combinadic::parse_set(bits, count(h).1, count(h).0->Ok_0 as nat, 18);
    let sets = Seq::new(2, |h: int| set_read(h).0->Ok_0);
    let signs = Seq::new(2, |h: int| set_read(h).1);
    let raw = sv8_band_decode::widened(sv8_sample_decode::by_position(halves));
    let levels = sv8_stereo_frame::frame_levels(1, raw);
    assert forall|h: int| 0 <= h < 2 implies {
        let run = coding::sweep(
            sv8_sample_decode::sign_step(bits, sets[h]),
            18,
            Seq::empty(),
            signs[h],
        );
        &&& #[trigger] sets[h].len() == 18
        &&& run.result is Ok
        &&& run.done == halves[h]
        &&& run.pos == stops[h + 1]
    } by {
        assert(step(halves.take(h), stops[h]) == (Ok::<Seq<i8>, Error>(halves[h]), stops[h + 1]));
        lemma_set_len(bits, count(h).1, count(h).0->Ok_0 as nat, 18);
    }
    assert(sets[0].len() == 18 && sets[1].len() == 18);
    lemma_signs(bits, sets[0], signs[0]);
    lemma_signs(bits, sets[1], signs[1]);
    assert forall|k: int| 0 <= k < 36 implies {
        let set = sets[k / 18];
        #[trigger] levels[k] == if !set[k % 18] {
            0int
        } else if bits[(signs[k / 18] + combinadic::ones(set.take(k % 18))) as int] {
            1
        } else {
            -1
        }
    } by {
        let h = k / 18;
        let j = k % 18;
        let m = 18 * h + 17 - j;
        assert(m / 18 == h && m % 18 == 17 - j);
        assert(levels[k] == raw[m]);
        assert(raw[m] == halves[h][j]);
        assert(h == 0 || h == 1);
    }
    (stops, sets, signs)
}

/// A band that is decoded by itself has the levels of a frame's band, but for two kinds of
/// types: in type 1 the levels of each half come in reverse, and from type 9 up a level is
/// the coded number itself, as a signed number of `type - 1` bits. The noise generator goes
/// on at a noise band, and at no other.
pub proof fn law_single_band(
    tables: Sv8TableSet,
    bits: Seq<bool>,
    pos: nat,
    band_type: i8,
    noise: CnsPrng,
)
    requires
        sv8_band_decode::band_read(
            tables,
            bits,
            pos,
            band_type as int,
            noise,
            sv8_band_decode::silence(),
        ).result is Ok,
    ensures
        ({
            let read = sv8_band_decode::band_read(
                tables,
                bits,
                pos,
                band_type as int,
                noise,
                sv8_band_decode::silence(),
            );
            let (r, end) = sv8_stereo_frame::parse_channel_levels(
                tables,
                bits,
                pos,
                band_type,
                noise,
            );
            let levels = r->Ok_0;
            let half = pow2((band_type - 2) as nat) as int;
            &&& -1 <= band_type <= 17
            &&& r is Ok
            &&& end == read.pos
            &&& read.levels.len() == 36
            &&& read.noise == if band_type == -1 {
                noise.steps(36)
            } else {
                noise
            }
            &&& band_type != 1 && band_type < 9 ==> read.levels == levels
            &&& band_type == 1 ==> forall|k: int|
                0 <= k < 36 ==> #[trigger] read.levels[k] == levels[if k < 18 {
                    17 - k
                } else {
                    53 - k
                }]
            &&& band_type >= 9 ==> forall|k: int|
                0 <= k < 36 ==> -half <= #[trigger] read.levels[k] < half && (read.levels[k] - (
                levels[k] + half - 1)) % (2 * half) == 0
        }),
{
    let t = band_type as int;
    let read = sv8_band_decode::band_read(
        tables,
        bits,
        pos,
        t,
        noise,
        sv8_band_decode::silence(),
    );
    if t >= 9 {
        lemma_raw_numbers(tables, bits, pos, band_type, noise);
    } else if t == 1 {
        let band = sv8_sample_decode::sparse_band(tables, bits, pos);
        let stops = coding::lemma_sweep_stops(
            sv8_sample_decode::group_step(tables.q1, bits),
            2,
            pos,
        );
        let levels = sv8_stereo_frame::frame_levels(1, read.levels);
        assert forall|k: int| 0 <= k < 36 implies #[trigger] read.levels[k] == levels[if k < 18 {
            17 - k
        } else {
            53 - k
        }] by {
            let j = if k < 18 {
                17 - k
            } else {
                53 - k
            };
            assert(18 * (j / 18) + 17 - j % 18 == k);
        }
    } else if t == 2 {
        let walk = lemma_triple_words(tables, bits, pos);
    } else if t == 3 || t == 4 {
        let walk = law_pair_levels(tables, bits, pos, band_type, noise);
    } else if t >= 5 {
        let walk = law_single_levels(tables, bits, pos, band_type, noise);
    }
}

/// The numbers of a band of type 9 and above.
proof fn lemma_raw_numbers(
    tables: Sv8TableSet,
    bits: Seq<bool>,
    pos: nat,
    band_type: i8,
    noise: CnsPrng,
)
    requires
        band_type >= 9,
        sv8_band_decode::band_read(
            tables,
            bits,
            pos,
            band_type as int,
            noise,
            sv8_band_decode::silence(),
        ).result is Ok,
    ensures
        ({
            let read = sv8_band_decode::band_read(
                tables,
                bits,
                pos,
                band_type as int,
                noise,
                sv8_band_decode::silence(),
            );
            let levels = sv8_stereo_frame::frame_levels(band_type as int, read.levels);
            let half = pow2((band_type - 2) as nat) as int;
            &&& band_type <= 17
            &&& read.noise == noise
            &&& read.levels.len() == 36
            &&& forall|k: int|
                0 <= k < 36 ==> -half <= #[trigger] read.levels[k] < half && (read.levels[k] - (
                levels[k] + half - 1)) % (2 * half) == 0
        }),
{
    let t = band_type as int;
    let n = (t - 9) as nat;
    let half = pow2((t - 2) as nat) as int;
    let step = sv8_sample_decode::escape_step(tables.q9up, bits, n);
    let band = sv8_sample_decode::escape_band(tables, bits, pos, t);
    let stops = coding::lemma_sweep_stops(step, 36, pos);
    assert(coding::overwritten(sv8_band_decode::silence(), band.done) =~= band.done);
    let raw = band.done;
    let levels = sv8_stereo_frame::frame_levels(t, raw);
    lemma2_to64();
    lemma_pow2_unfold((t - 1) as nat);
    lemma_pow2_adds(n, 7);
    if n < 8 {
        lemma_pow2_strictly_increases(n, 8);
        lemma_pow2_strictly_increases((t - 2) as nat, 15);
    }
    lemma_pow2_pos(n);
    lemma_pow2_pos((t - 2) as nat);
    assert forall|k: int| 0 <= k < 36 implies -half <= #[trigger] raw[k] < half && (raw[k] - (
    levels[k] + half - 1)) % (2 * half) == 0 by {
        assert(step(raw.take(k), stops[k]) == (Ok::<i32, Error>(raw[k]), stops[k + 1]));
        let (word, p) = tables.q9up.parse(bits, stops[k]);
        let s = word->Ok_0 as int;
        bits::lemma_value_bound(bits.subrange(p as int, (p + n) as int));
        let x = bits::field_at(bits, p, n) as int;
        let u = pow2(n) as int;
        assert(-128 * u <= s * u + x < 128 * u) by (nonlinear_arith)
            requires
                -128 <= s <= 127,
                0 <= x < u,
        ;
        assert(half == 128 * u) by {
            lemma_mul_is_commutative(u, 128);
        }
        let m = 2 * half;
        let v = raw[k] as int;
        lemma_fundamental_div_mod(v, m);
        lemma_mod_bound(v, m);
        let q = v / m;
        assert(levels[k] == v % m - (half - 1));
        assert(v - (levels[k] + half - 1) == m * q);
        lemma_mod_multiples_basic(q, m);
        lemma_mul_is_commutative(q, m);
    }
}

} // verus!
