//! What the bits of an SV7 frame say: band types, mid/side flags, scalefactors and levels, by
//! the code words and the raw bits that they are read from.

use crate::bits;
use crate::cns::CnsPrng;
use crate::coding;
use crate::error::Error;
use crate::sv7_band_decode;
use crate::sv7_band_decode::Sv7TableSet;
use crate::sv7_band_header;
use crate::sv7_band_header::Sv7ResBand;
use crate::sv7_huffman;
use crate::sv7_huffman::Sv7HuffmanEntry;
use crate::sv7_scf_decode;
use crate::sv7_stereo_frame;
use crate::sv7_stereo_frame::ScfMemory;
use crate::sv8_stereo_frame;
use vstd::arithmetic::mul::*;
use vstd::arithmetic::power2::*;
use vstd::prelude::*;

verus! {

// ---------------------------------------------------------------------------
// Levels
// ---------------------------------------------------------------------------

/// Bands without levels of their own take no bits: noise is what the generator gives, and
/// silence is zero.
pub proof fn law_uncoded_levels(tables: Sv7TableSet, bits: Seq<bool>, pos: nat, noise: CnsPrng)
    ensures
        sv7_band_decode::parse_channel(tables, bits, pos, -1i8, noise) == (
            Ok::<Seq<i32>, Error>(noise.noise()),
            pos,
        ),
        ({
            let (r, end) = sv7_band_decode::parse_channel(tables, bits, pos, 0, noise);
            &&& end == pos
            &&& r is Ok
            &&& r->Ok_0.len() == 36
            &&& forall|k: int| 0 <= k < 36 ==> #[trigger] r->Ok_0[k] == 0
        }),
{
}

/// Words of three levels as levels.
proof fn lemma_threes(words: Seq<i8>, levels: Seq<i32>)
    requires
        words.len() == 12,
        forall|g: int| 0 <= g < 12 ==> 0 <= #[trigger] words[g] <= 26,
        levels == sv7_band_decode::levels_of(1, words),
    ensures
        forall|k: int| 0 <= k < 36 ==> -1 <= #[trigger] levels[k] <= 1,
        forall|g: int|
            0 <= g < 12 ==> #[trigger] words[g] == (levels[3 * g] + 1) + 3 * (levels[3 * g + 1] + 1)
                + 9 * (levels[3 * g + 2] + 1),
{
    assert forall|g: int| 0 <= g < 12 implies #[trigger] words[g] == (levels[3 * g] + 1) + 3 * (
    levels[3 * g + 1] + 1) + 9 * (levels[3 * g + 2] + 1) by {
        let s = words[g] as int;
        assert((3 * g) / 3 == g && (3 * g + 1) / 3 == g && (3 * g + 2) / 3 == g);
        assert((3 * g) % 3 == 0 && (3 * g + 1) % 3 == 1 && (3 * g + 2) % 3 == 2);
        assert(levels[3 * g] == s % 3 - 1);
        assert(levels[3 * g + 1] == s / 3 % 3 - 1);
        assert(levels[3 * g + 2] == s / 9 - 1);
        assert(s == s % 3 + 3 * (s / 3));
        assert(s / 3 == s / 3 % 3 + 3 * (s / 9));
    }
    assert forall|k: int| 0 <= k < 36 implies -1 <= #[trigger] levels[k] <= 1 by {
        assert(0 <= words[k / 3] <= 26);
    }
}

/// Words of two levels as levels.
proof fn lemma_twos(words: Seq<i8>, levels: Seq<i32>)
    requires
        words.len() == 18,
        forall|g: int| 0 <= g < 18 ==> 0 <= #[trigger] words[g] <= 24,
        levels == sv7_band_decode::levels_of(2, words),
    ensures
        forall|k: int| 0 <= k < 36 ==> -2 <= #[trigger] levels[k] <= 2,
        forall|g: int|
            0 <= g < 18 ==> #[trigger] words[g] == (levels[2 * g] + 2) + 5 * (levels[2 * g + 1] + 2),
{
    assert forall|g: int| 0 <= g < 18 implies #[trigger] words[g] == (levels[2 * g] + 2) + 5 * (
    levels[2 * g + 1] + 2) by {
        let s = words[g] as int;
        assert((2 * g) / 2 == g && (2 * g + 1) / 2 == g);
        assert((2 * g) % 2 == 0 && (2 * g + 1) % 2 == 1);
        assert(levels[2 * g] == s % 5 - 2);
        assert(levels[2 * g + 1] == s / 5 - 2);
        assert(s == s % 5 + 5 * (s / 5));
    }
    assert forall|k: int| 0 <= k < 36 implies -2 <= #[trigger] levels[k] <= 2 by {
        assert(0 <= words[k / 2] <= 24);
    }
}

/// A band of the types 1 to 7 is a bit, which picks one of the two codes of its type, and code
/// words of that code. Type 1 has twelve words of three levels each, in base three, and type
/// 2 eighteen words of two levels each, in base five, the first level the lowest digit; the
/// others have a word for each level. The positions and the values of the words are returned.
pub proof fn law_coded_levels(
    tables: Sv7TableSet,
    bits: Seq<bool>,
    pos: nat,
    band_type: i8,
    noise: CnsPrng,
) -> (walk: (Seq<nat>, Seq<i8>))
    requires
        1 <= band_type <= 7,
        sv7_band_decode::parse_channel(tables, bits, pos, band_type, noise).0 is Ok,
    ensures
        ({
            let (r, end) = sv7_band_decode::parse_channel(tables, bits, pos, band_type, noise);
            let levels = r->Ok_0;
            let (stops, words) = walk;
            let codes = if band_type == 1 {
                tables.q1
            } else if band_type == 2 {
                tables.q2
            } else if band_type == 3 {
                tables.q3
            } else if band_type == 4 {
                tables.q4
            } else if band_type == 5 {
                tables.q5
            } else if band_type == 6 {
                tables.q6
            } else {
                tables.q7
            };
            let rows = if bits[pos as int] {
                codes[1]@
            } else {
                codes[0]@
            };
            let n: int = if band_type == 1 {
                12
            } else if band_type == 2 {
                18
            } else {
                36
            };
            &&& pos < bits.len()
            &&& levels.len() == 36
            &&& words.len() == n
            &&& stops.len() == n + 1
            &&& stops[0] == pos + 1
            &&& stops[n] == end
            &&& forall|g: int|
                0 <= g < n ==> {
                    &&& sv7_huffman::parse(rows, bits, stops[g]) == (
                        Ok::<i8, Error>(#[trigger] words[g]),
                        stops[g + 1],
                    )
                    &&& band_type == 1 ==> words[g] == (levels[3 * g] + 1) + 3 * (levels[3 * g + 1]
                        + 1) + 9 * (levels[3 * g + 2] + 1)
                    &&& band_type == 2 ==> words[g] == (levels[2 * g] + 2) + 5 * (levels[2 * g + 1]
                        + 2)
                    &&& band_type >= 3 ==> levels[g] == words[g]
                }
            &&& forall|k: int|
                0 <= k < 36 && band_type <= 2 ==> -band_type <= #[trigger] levels[k] <= band_type
        }),
{
    let t = band_type as int;
    bits::lemma_one_bit(bits, pos);
    let ctx: int = if bits[pos as int] {
        1
    } else {
        0
    };
    let rows = tables.code(t, ctx);
    let n = sv7_band_decode::symbol_count(t);
    let step = sv7_band_decode::symbol_step(rows, bits, t);
    let run = coding::sweep(step, n, Seq::empty(), pos + 1);
    let words = run.done;
    let levels = sv7_band_decode::levels_of(t, words);
    assert(sv7_band_decode::parse_channel(tables, bits, pos, band_type, noise) == (
        Ok::<Seq<i32>, Error>(levels),
        run.pos,
    ));
    let stops = coding::lemma_sweep_stops(step, n, pos + 1);
    assert forall|g: int| 0 <= g < n implies sv7_huffman::parse(rows, bits, stops[g]) == (
        Ok::<i8, Error>(#[trigger] words[g]),
        stops[g + 1],
    ) && sv7_band_decode::is_symbol(t, words[g] as int) by {
        assert(step(words.take(g), stops[g]) == (Ok::<i8, Error>(words[g]), stops[g + 1]));
    }
    if t == 1 {
        lemma_threes(words, levels);
    } else if t == 2 {
        lemma_twos(words, levels);
    }
    (stops, words)
}

/// A band of type 8 and above is 36 numbers of `type - 1` bits, one behind the other.
pub proof fn law_plain_levels(
    tables: Sv7TableSet,
    bits: Seq<bool>,
    pos: nat,
    band_type: i8,
    noise: CnsPrng,
)
    requires
        8 <= band_type <= 17,
        sv7_band_decode::parse_channel(tables, bits, pos, band_type, noise).0 is Ok,
    ensures
        ({
            let (r, end) = sv7_band_decode::parse_channel(tables, bits, pos, band_type, noise);
            let levels = r->Ok_0;
            let w = (band_type - 1) as nat;
            &&& levels.len() == 36
            &&& end == pos + 36 * w <= bits.len()
            &&& forall|k: int|
                0 <= k < 36 ==> #[trigger] levels[k] == bits::field_at(bits, (pos + k * w) as nat, w)
        }),
{
    let t = band_type as int;
    let w = (t - 1) as nat;
    let step = sv7_band_decode::plain_step(bits, t);
    let run = coding::sweep(step, 36, Seq::empty(), pos);
    let levels = run.done;
    let stops = coding::lemma_sweep_stops(step, 36, pos);
    assert forall|k: int| 0 <= k <= 36 implies #[trigger] stops[k] == pos + k * w by {
        lemma_plain_stop(bits, t, pos, stops, levels, k);
    }
    lemma2_to64();
    lemma_pow2_strictly_increases(w, 31);
    assert forall|k: int| 0 <= k < 36 implies #[trigger] levels[k] == bits::field_at(
        bits,
        (pos + k * w) as nat,
        w,
    ) && pos + (k + 1) * w <= bits.len() by {
        assert(step(levels.take(k), stops[k]) == (Ok::<i32, Error>(levels[k]), stops[k + 1]));
        assert(stops[k] == pos + k * w);
        assert(stops[k + 1] == pos + (k + 1) * w);
        let p = stops[k];
        bits::lemma_value_bound(bits.subrange(p as int, (p + w) as int));
    }
    assert(step(levels.take(35), stops[35]) == (Ok::<i32, Error>(levels[35]), stops[36]));
    assert(stops[36] == pos + 36 * w);
    assert(sv7_band_decode::parse_channel(tables, bits, pos, band_type, noise) == (
        Ok::<Seq<i32>, Error>(levels),
        run.pos,
    ));
}

/// Where a number stands.
proof fn lemma_plain_stop(
    bits: Seq<bool>,
    t: int,
    pos: nat,
    stops: Seq<nat>,
    done: Seq<i32>,
    k: int,
)
    requires
        8 <= t <= 17,
        0 <= k <= 36,
        done.len() == 36,
        stops.len() == 37,
        stops[0] == pos,
        forall|j: int|
            0 <= j < 36 ==> sv7_band_decode::plain_step(bits, t)(done.take(j), stops[j]) == (
                Ok::<i32, Error>(#[trigger] done[j]),
                stops[j + 1],
            ),
    ensures
        stops[k] == pos + k * (t - 1),
    decreases k,
{
    if k > 0 {
        lemma_plain_stop(bits, t, pos, stops, done, k - 1);
        assert(sv7_band_decode::plain_step(bits, t)(done.take(k - 1), stops[k - 1]) == (
            Ok::<i32, Error>(done[k - 1]),
            stops[k],
        ));
        let w = t - 1;
        assert(stops[k] == stops[k - 1] + w);
        assert(k * w == (k - 1) * w + w) by (nonlinear_arith);
        assert(stops[k - 1] == pos + (k - 1) * w);
    }
}

// ---------------------------------------------------------------------------
// Band types and flags
// ---------------------------------------------------------------------------

/// A band type: four bits in the lowest band and behind the escape 4, and else a code word
/// more than the type of the band below.
pub open spec fn is_type(
    hdr: Seq<Sv7HuffmanEntry>,
    bits: Seq<bool>,
    pos: nat,
    below: Option<i8>,
    t: i8,
    end: nat,
) -> bool {
    let (word, p) = sv7_huffman::parse(hdr, bits, pos);
    &&& below is None ==> pos + 4 == end <= bits.len() && t == bits::field_at(bits, pos, 4)
    &&& below is Some ==> {
        let sum = below->0 + word->Ok_0;
        &&& word is Ok
        &&& word->Ok_0 == 4 ==> p + 4 == end <= bits.len() && t == bits::field_at(bits, p, 4)
        &&& word->Ok_0 != 4 ==> end == p && (-128 <= sum <= 127 ==> t == sum)
    }
}

proof fn lemma_is_type(hdr: Seq<Sv7HuffmanEntry>, bits: Seq<bool>, pos: nat, below: Option<i8>)
    ensures
        ({
            let (t, end) = sv7_band_header::parse_type(hdr, bits, pos, below);
            t is Ok ==> is_type(hdr, bits, pos, below, t->Ok_0, end)
        }),
{
    lemma_four_bits(bits, pos);
    lemma_four_bits(bits, sv7_huffman::parse(hdr, bits, pos).1);
}

proof fn lemma_four_bits(bits: Seq<bool>, p: nat)
    ensures
        p + 4 <= bits.len() ==> bits::field_at(bits, p, 4) < 16,
{
    if p + 4 <= bits.len() {
        bits::lemma_value_bound(bits.subrange(p as int, p + 4int));
        lemma2_to64();
    }
}

/// The heads of the bands, from the lowest up: the type of the left channel, that of the
/// right one, and a mid/side flag where the stream has them and the band codes something. The
/// positions of the types and of the flag are returned, for each band.
pub proof fn law_heads(
    hdr: Seq<Sv7HuffmanEntry>,
    bits: Seq<bool>,
    pos: nat,
    n: nat,
    stream_ms: bool,
) -> (walk: (Seq<nat>, Seq<nat>, Seq<nat>))
    requires
        sv7_band_header::parse_heads(hdr, bits, pos, n, stream_ms).0 is Ok,
    ensures
        ({
            let (r, end) = sv7_band_header::parse_heads(hdr, bits, pos, n, stream_ms);
            let heads = r->Ok_0;
            let (left, right, flag) = walk;
            &&& heads.len() == n
            &&& left.len() == n + 1
            &&& right.len() == n
            &&& flag.len() == n
            &&& left[0] == pos
            &&& left[n as int] == end
            &&& forall|b: int|
                0 <= b < n ==> {
                    let h = #[trigger] heads[b];
                    let under = |ch: int|
                        if b == 0 {
                            None::<i8>
                        } else {
                            Some(heads[b - 1].res[ch])
                        };
                    let flagged = stream_ms && (h.res[0] != 0 || h.res[1] != 0);
                    &&& is_type(hdr, bits, left[b], under(0), h.res[0], right[b])
                    &&& is_type(hdr, bits, right[b], under(1), h.res[1], flag[b])
                    &&& flagged ==> flag[b] < bits.len() && h.ms_flag == Some(bits[flag[b] as int])
                        && left[b + 1] == flag[b] + 1
                    &&& !flagged ==> h.ms_flag is None && left[b + 1] == flag[b]
                }
        }),
{
    let step = sv7_band_header::head_step(hdr, bits, stream_ms);
    let heads = sv7_band_header::parse_heads(hdr, bits, pos, n, stream_ms).0->Ok_0;
    let left = coding::lemma_sweep_stops(step, n, pos);
    let below = |b: int, ch: int| sv7_band_header::type_below(heads.take(b), ch);
    let right = Seq::new(n, |b: int| sv7_band_header::parse_type(hdr, bits, left[b], below(b, 0)).1);
    let flag = Seq::new(
        n,
        |b: int| sv7_band_header::parse_type(hdr, bits, right[b], below(b, 1)).1,
    );
    assert forall|b: int| 0 <= b < n implies {
        let h = #[trigger] heads[b];
        let under = |ch: int|
            if b == 0 {
                None::<i8>
            } else {
                Some(heads[b - 1].res[ch])
            };
        let flagged = stream_ms && (h.res[0] != 0 || h.res[1] != 0);
        &&& is_type(hdr, bits, left[b], under(0), h.res[0], right[b])
        &&& is_type(hdr, bits, right[b], under(1), h.res[1], flag[b])
        &&& flagged ==> flag[b] < bits.len() && h.ms_flag == Some(bits[flag[b] as int]) && left[b
            + 1] == flag[b] + 1
        &&& !flagged ==> h.ms_flag is None && left[b + 1] == flag[b]
    } by {
        assert(step(heads.take(b), left[b]) == (
            Ok::<Sv7ResBand, Error>(heads[b]),
            left[b + 1],
        ));
        lemma_is_type(hdr, bits, left[b], below(b, 0));
        lemma_is_type(hdr, bits, right[b], below(b, 1));
        if b > 0 {
            assert(heads.take(b).last() == heads[b - 1]);
        }
        if flag[b] < bits.len() {
            bits::lemma_one_bit(bits, flag[b]);
        }
    }
    (left, right, flag)
}

// ---------------------------------------------------------------------------
// Scalefactors
// ---------------------------------------------------------------------------

/// A scalefactor: a code word more than `before`, or behind the escape 8 six bits.
pub open spec fn is_index(bits: Seq<bool>, pos: nat, before: i32, s: i32, end: nat) -> bool {
    let (word, p) = sv7_huffman::parse(sv7_scf_decode::difference_rows(), bits, pos);
    let sum = before + word->Ok_0;
    &&& word is Ok
    &&& word->Ok_0 == 8 ==> p + 6 == end <= bits.len() && s == bits::field_at(bits, p, 6)
    &&& word->Ok_0 != 8 ==> end == p && (i32::MIN <= sum <= i32::MAX ==> s == sum)
}

proof fn lemma_is_index(bits: Seq<bool>, pos: nat, before: i32)
    ensures
        ({
            let (s, end) = sv7_scf_decode::parse_index(bits, pos, before);
            s is Ok ==> is_index(bits, pos, before, s->Ok_0, end)
        }),
{
    let p = sv7_huffman::parse(sv7_scf_decode::difference_rows(), bits, pos).1;
    if p + 6 <= bits.len() {
        bits::lemma_value_bound(bits.subrange(p as int, p + 6int));
        lemma2_to64();
    }
}

/// The scalefactors of a band. The first follows `reference`. The second follows the first,
/// and the third the second, or repeat it: method 1 repeats the third, 2 the second, 3 both.
/// The positions are returned.
pub proof fn law_scalefactors(bits: Seq<bool>, pos: nat, scfi: u8, reference: i32) -> (walk: (
    nat,
    nat,
))
    requires
        sv7_scf_decode::parse_scalefactors(bits, pos, scfi, reference).0 is Ok,
    ensures
        ({
            let (r, end) = sv7_scf_decode::parse_scalefactors(bits, pos, scfi, reference);
            let s = r->Ok_0.indices;
            let (p, q) = walk;
            &&& scfi <= 3
            &&& r->Ok_0.scfi == scfi
            &&& r->Ok_0.clamped <==> s[0] > 1024 || s[1] > 1024 || s[2] > 1024
            &&& is_index(bits, pos, reference, s[0], p)
            &&& scfi == 2 || scfi == 3 ==> s[1] == s[0] && q == p
            &&& scfi == 0 || scfi == 1 ==> is_index(bits, p, s[0], s[1], q)
            &&& scfi == 1 || scfi == 3 ==> s[2] == s[1] && end == q
            &&& scfi == 0 || scfi == 2 ==> is_index(bits, q, s[1], s[2], end)
        }),
{
    let (a, p) = sv7_scf_decode::parse_index(bits, pos, reference);
    let coded = crate::sv8_dscf_loop::is_coded(scfi as int, 1);
    let (b, q) = sv7_scf_decode::parse_later(bits, p, coded, a->Ok_0);
    lemma_is_index(bits, pos, reference);
    lemma_is_index(bits, p, a->Ok_0);
    lemma_is_index(bits, q, b->Ok_0);
    (p, q)
}

// ---------------------------------------------------------------------------
// The whole body
// ---------------------------------------------------------------------------

/// What a frame body was read from.
pub struct BodyParts {
    pub heads: Seq<Sv7ResBand>,
    pub scfi: Seq<u8>,
    pub methods: nat,
    pub scf: nat,
    pub levels: nat,
}

/// A frame body that was read is its parts in a row.
pub proof fn lemma_body_parts(
    tables: Sv7TableSet,
    bits: Seq<bool>,
    pos: nat,
    max_band: u8,
    stream_ms: bool,
    memory: ScfMemory,
    noise: CnsPrng,
) -> (parts: BodyParts)
    requires
        sv7_stereo_frame::body_read(
            tables,
            bits,
            pos,
            max_band,
            stream_ms,
            memory,
            noise,
        ).result is Ok,
    ensures
        ({
            let read = sv7_stereo_frame::body_read(
                tables,
                bits,
                pos,
                max_band,
                stream_ms,
                memory,
                noise,
            );
            let f = read.result->Ok_0;
            let methods = sv7_stereo_frame::method_sweep(bits, parts.methods, f.res);
            let scf = sv7_stereo_frame::scf_sweep(bits, parts.scf, memory, f.res, parts.scfi);
            let levels = sv7_stereo_frame::level_sweep(tables, bits, parts.levels, noise, f.res);
            &&& max_band <= 31
            &&& sv7_band_header::parse_heads(
                tables.hdr@,
                bits,
                pos,
                (max_band + 1) as nat,
                stream_ms,
            ) == (Ok::<Seq<Sv7ResBand>, Error>(parts.heads), parts.methods)
            &&& f.res == sv7_stereo_frame::types_of(parts.heads)
            &&& f.ms_flags == sv7_stereo_frame::flags_of(parts.heads)
            &&& methods.parsed() == (Ok::<Seq<u8>, Error>(parts.scfi), parts.scf)
            &&& scf.result is Ok
            &&& scf.done == f.scf
            &&& scf.pos == parts.levels
            &&& levels.result is Ok
            &&& levels.done == f.levels
            &&& levels.pos == read.pos
            &&& read.memory == sv7_stereo_frame::memory_after(memory, f.res, f.scf)
            &&& read.noise == sv8_stereo_frame::noise_after(
                noise,
                f.res,
                levels.done.len() as int,
            )
        }),
{
    reveal(sv7_stereo_frame::body_read);
    let (h, p) = sv7_band_header::parse_heads(
        tables.hdr@,
        bits,
        pos,
        (max_band + 1) as nat,
        stream_ms,
    );
    let heads = h->Ok_0;
    let res = sv7_stereo_frame::types_of(heads);
    let m = sv7_stereo_frame::method_sweep(bits, p, res);
    let s = sv7_stereo_frame::scf_sweep(bits, m.pos, memory, res, m.done);
    BodyParts { heads, scfi: m.done, methods: p, scf: m.pos, levels: s.pos }
}

/// The levels of a frame are those of its channels and bands, left and right of the lowest
/// band, then of the next, each by its own band type, one behind the other up to the end of
/// the frame. The noise generator goes on by a band's worth at each noise band, and at no
/// other. The starts and the generators are returned.
pub proof fn law_body_levels(
    tables: Sv7TableSet,
    bits: Seq<bool>,
    pos: nat,
    max_band: u8,
    stream_ms: bool,
    memory: ScfMemory,
    noise: CnsPrng,
) -> (walk: (Seq<nat>, Seq<CnsPrng>))
    requires
        sv7_stereo_frame::body_read(
            tables,
            bits,
            pos,
            max_band,
            stream_ms,
            memory,
            noise,
        ).result is Ok,
    ensures
        ({
            let read = sv7_stereo_frame::body_read(
                tables,
                bits,
                pos,
                max_band,
                stream_ms,
                memory,
                noise,
            );
            let f = read.result->Ok_0;
            let n = 2 * f.res.len() as int;
            let (starts, noises) = walk;
            &&& f.levels.len() == n
            &&& starts.len() == n + 1
            &&& noises.len() == n + 1
            &&& starts[n] == read.pos
            &&& noises[0] == noise
            &&& noises[n] == read.noise
            &&& forall|i: int|
                0 <= i < n ==> {
                    let t = f.res[i / 2][i % 2];
                    &&& sv7_band_decode::parse_channel(tables, bits, starts[i], t, noises[i]) == (
                        Ok::<Seq<i32>, Error>(#[trigger] f.levels[i]),
                        starts[i + 1],
                    )
                    &&& noises[i + 1] == if t == -1 {
                        noises[i].steps(36)
                    } else {
                        noises[i]
                    }
                }
        }),
{
    let parts = lemma_body_parts(tables, bits, pos, max_band, stream_ms, memory, noise);
    let f = sv7_stereo_frame::body_read(
        tables,
        bits,
        pos,
        max_band,
        stream_ms,
        memory,
        noise,
    ).result->Ok_0;
    lemma_level_starts(tables, bits, parts.levels, noise, f.res)
}

/// A frame has a head for each band up to the highest, and its flags are clear where the heads
/// have none. The heads are returned.
pub proof fn law_body_heads(
    tables: Sv7TableSet,
    bits: Seq<bool>,
    pos: nat,
    max_band: u8,
    stream_ms: bool,
    memory: ScfMemory,
    noise: CnsPrng,
) -> (heads: Seq<Sv7ResBand>)
    requires
        sv7_stereo_frame::body_read(
            tables,
            bits,
            pos,
            max_band,
            stream_ms,
            memory,
            noise,
        ).result is Ok,
    ensures
        ({
            let f = sv7_stereo_frame::body_read(
                tables,
                bits,
                pos,
                max_band,
                stream_ms,
                memory,
                noise,
            ).result->Ok_0;
            &&& max_band <= 31
            &&& f.res.len() == max_band + 1
            &&& f.ms_flags.len() == max_band + 1
            &&& heads.len() == max_band + 1
            &&& sv7_band_header::parse_heads(
                tables.hdr@,
                bits,
                pos,
                (max_band + 1) as nat,
                stream_ms,
            ).0 == Ok::<Seq<Sv7ResBand>, Error>(heads)
            &&& forall|b: int|
                0 <= b <= max_band ==> #[trigger] f.res[b] == heads[b].res && (f.ms_flags[b]
                    <==> heads[b].ms_flag == Some(true))
        }),
{
    let parts = lemma_body_parts(tables, bits, pos, max_band, stream_ms, memory, noise);
    let walk = law_heads(tables.hdr@, bits, pos, (max_band + 1) as nat, stream_ms);
    parts.heads
}

/// The scalefactors of a frame are those of the channels that code something, left and right
/// of the lowest band, then of the next, behind the methods of all of them. They follow the
/// channel's last one in the band, and leave their own last one. The methods, their starts
/// and those of the scalefactors are returned.
pub proof fn law_body_scf(
    tables: Sv7TableSet,
    bits: Seq<bool>,
    pos: nat,
    max_band: u8,
    stream_ms: bool,
    memory: ScfMemory,
    noise: CnsPrng,
) -> (walk: (Seq<u8>, Seq<nat>, Seq<nat>))
    requires
        sv7_stereo_frame::body_read(
            tables,
            bits,
            pos,
            max_band,
            stream_ms,
            memory,
            noise,
        ).result is Ok,
    ensures
        ({
            let read = sv7_stereo_frame::body_read(
                tables,
                bits,
                pos,
                max_band,
                stream_ms,
                memory,
                noise,
            );
            let f = read.result->Ok_0;
            let (scfi, methods, starts) = walk;
            let n = 2 * f.res.len() as int;
            &&& f.scf.len() == n
            &&& scfi.len() == n
            &&& methods.len() == n + 1
            &&& starts.len() == n + 1
            &&& starts[0] == methods[n]
            &&& forall|i: int|
                0 <= i < n && f.res[i / 2][i % 2] == 0 ==> {
                    &&& #[trigger] f.scf[i] == [0i32, 0i32, 0i32]
                    &&& methods[i + 1] == methods[i]
                    &&& starts[i + 1] == starts[i]
                    &&& (read.memory)(i % 2, i / 2) == memory(i % 2, i / 2)
                }
            &&& forall|i: int|
                0 <= i < n && f.res[i / 2][i % 2] != 0 ==> {
                    let (s, p) = sv7_scf_decode::parse_scalefactors(
                        bits,
                        starts[i],
                        scfi[i],
                        memory(i % 2, i / 2),
                    );
                    &&& #[trigger] f.scf[i] == s->Ok_0.indices
                    &&& s is Ok
                    &&& starts[i + 1] == p
                    &&& sv7_scf_decode::parse_method(bits, methods[i]) == (
                        Ok::<u8, Error>(scfi[i]),
                        methods[i + 1],
                    )
                    &&& (read.memory)(i % 2, i / 2) == f.scf[i][2]
                }
        }),
{
    let parts = lemma_body_parts(tables, bits, pos, max_band, stream_ms, memory, noise);
    let f = sv7_stereo_frame::body_read(
        tables,
        bits,
        pos,
        max_band,
        stream_ms,
        memory,
        noise,
    ).result->Ok_0;
    let n = 2 * f.res.len() as int;
    let methods = lemma_method_starts(bits, parts.methods, f.res);
    let starts = lemma_scf_starts(bits, parts.scf, memory, f.res, parts.scfi);
    let read = sv7_stereo_frame::body_read(
        tables,
        bits,
        pos,
        max_band,
        stream_ms,
        memory,
        noise,
    );
    let scfi = parts.scfi;
    assert forall|i: int| 0 <= i < n implies #[trigger] f.scf[i] == f.scf[i]
        && sv7_stereo_frame::parse_scf(
        bits,
        starts[i],
        f.res[i / 2][i % 2],
        scfi[i],
        memory(i % 2, i / 2),
    ) == (Ok::<[i32; 3], Error>(f.scf[i]), starts[i + 1]) by {}
    assert forall|i: int| 0 <= i < n && f.res[i / 2][i % 2] == 0 implies {
        &&& #[trigger] f.scf[i] == [0i32, 0i32, 0i32]
        &&& methods[i + 1] == methods[i]
        &&& starts[i + 1] == starts[i]
        &&& (read.memory)(i % 2, i / 2) == memory(i % 2, i / 2)
    } by {
        assert(scfi[i] == scfi[i]);
        assert(2 * (i / 2) + i % 2 == i);
    }
    assert forall|i: int| 0 <= i < n && f.res[i / 2][i % 2] != 0 implies {
        let (s, p) = sv7_scf_decode::parse_scalefactors(
            bits,
            starts[i],
            scfi[i],
            memory(i % 2, i / 2),
        );
        &&& #[trigger] f.scf[i] == s->Ok_0.indices
        &&& s is Ok
        &&& starts[i + 1] == p
        &&& sv7_scf_decode::parse_method(bits, methods[i]) == (
            Ok::<u8, Error>(scfi[i]),
            methods[i + 1],
        )
        &&& (read.memory)(i % 2, i / 2) == f.scf[i][2]
    } by {
        assert(scfi[i] == scfi[i]);
        assert(2 * (i / 2) + i % 2 == i);
    }
    (parts.scfi, methods, starts)
}

proof fn lemma_method_starts(bits: Seq<bool>, pos: nat, res: Seq<[i8; 2]>) -> (starts: Seq<nat>)
    requires
        sv7_stereo_frame::method_sweep(bits, pos, res).result is Ok,
    ensures
        ({
            let run = sv7_stereo_frame::method_sweep(bits, pos, res);
            let n = 2 * res.len() as int;
            &&& run.done.len() == n
            &&& starts.len() == n + 1
            &&& starts[0] == pos
            &&& starts[n] == run.pos
            &&& forall|i: int|
                0 <= i < n ==> (if res[i / 2][i % 2] == 0 {
                    #[trigger] run.done[i] == 0 && starts[i + 1] == starts[i]
                } else {
                    sv7_scf_decode::parse_method(bits, starts[i]) == (
                        Ok::<u8, Error>(run.done[i]),
                        starts[i + 1],
                    )
                })
        }),
{
    let step = sv7_stereo_frame::method_step(bits, res);
    let run = sv7_stereo_frame::method_sweep(bits, pos, res);
    let starts = coding::lemma_sweep_stops(step, 2 * res.len(), pos);
    assert forall|i: int| 0 <= i < 2 * res.len() implies (if res[i / 2][i % 2] == 0 {
        #[trigger] run.done[i] == 0 && starts[i + 1] == starts[i]
    } else {
        sv7_scf_decode::parse_method(bits, starts[i]) == (
            Ok::<u8, Error>(run.done[i]),
            starts[i + 1],
        )
    }) by {
        assert(step(run.done.take(i), starts[i]) == (Ok::<u8, Error>(run.done[i]), starts[i + 1]));
    }
    starts
}

proof fn lemma_scf_starts(
    bits: Seq<bool>,
    pos: nat,
    memory: ScfMemory,
    res: Seq<[i8; 2]>,
    scfi: Seq<u8>,
) -> (starts: Seq<nat>)
    requires
        sv7_stereo_frame::scf_sweep(bits, pos, memory, res, scfi).result is Ok,
    ensures
        ({
            let run = sv7_stereo_frame::scf_sweep(bits, pos, memory, res, scfi);
            let n = 2 * res.len() as int;
            &&& run.done.len() == n
            &&& starts.len() == n + 1
            &&& starts[0] == pos
            &&& starts[n] == run.pos
            &&& forall|i: int|
                0 <= i < n ==> sv7_stereo_frame::parse_scf(
                    bits,
                    starts[i],
                    res[i / 2][i % 2],
                    scfi[i],
                    memory(i % 2, i / 2),
                ) == (Ok::<[i32; 3], Error>(#[trigger] run.done[i]), starts[i + 1])
        }),
{
    let step = sv7_stereo_frame::scf_step(bits, memory, res, scfi);
    let run = sv7_stereo_frame::scf_sweep(bits, pos, memory, res, scfi);
    let starts = coding::lemma_sweep_stops(step, 2 * res.len(), pos);
    assert forall|i: int| 0 <= i < 2 * res.len() implies sv7_stereo_frame::parse_scf(
        bits,
        starts[i],
        res[i / 2][i % 2],
        scfi[i],
        memory(i % 2, i / 2),
    ) == (Ok::<[i32; 3], Error>(#[trigger] run.done[i]), starts[i + 1]) by {
        assert(step(run.done.take(i), starts[i]) == (
            Ok::<[i32; 3], Error>(run.done[i]),
            starts[i + 1],
        ));
    }
    starts
}

proof fn lemma_level_starts(
    tables: Sv7TableSet,
    bits: Seq<bool>,
    pos: nat,
    noise: CnsPrng,
    res: Seq<[i8; 2]>,
) -> (walk: (Seq<nat>, Seq<CnsPrng>))
    requires
        sv7_stereo_frame::level_sweep(tables, bits, pos, noise, res).result is Ok,
    ensures
        ({
            let run = sv7_stereo_frame::level_sweep(tables, bits, pos, noise, res);
            let n = 2 * res.len() as int;
            let (starts, noises) = walk;
            &&& run.done.len() == n
            &&& starts.len() == n + 1
            &&& noises.len() == n + 1
            &&& starts[0] == pos
            &&& starts[n] == run.pos
            &&& noises[0] == noise
            &&& noises[n] == sv8_stereo_frame::noise_after(noise, res, n)
            &&& forall|i: int|
                0 <= i < n ==> {
                    let t = res[i / 2][i % 2];
                    &&& sv7_band_decode::parse_channel(tables, bits, starts[i], t, noises[i]) == (
                        Ok::<Seq<i32>, Error>(#[trigger] run.done[i]),
                        starts[i + 1],
                    )
                    &&& noises[i + 1] == if t == -1 {
                        noises[i].steps(36)
                    } else {
                        noises[i]
                    }
                }
        }),
{
    let n = 2 * res.len();
    let step = sv7_stereo_frame::level_step(tables, bits, noise, res);
    let run = sv7_stereo_frame::level_sweep(tables, bits, pos, noise, res);
    let starts = coding::lemma_sweep_stops(step, n, pos);
    let noises = Seq::new(n + 1, |i: int| sv8_stereo_frame::noise_after(noise, res, i));
    assert forall|i: int| 0 <= i < n implies {
        let t = res[i / 2][i % 2];
        &&& sv7_band_decode::parse_channel(tables, bits, starts[i], t, noises[i]) == (
            Ok::<Seq<i32>, Error>(#[trigger] run.done[i]),
            starts[i + 1],
        )
        &&& noises[i + 1] == if t == -1 {
            noises[i].steps(36)
        } else {
            noises[i]
        }
    } by {
        assert(step(run.done.take(i), starts[i]) == (
            Ok::<Seq<i32>, Error>(run.done[i]),
            starts[i + 1],
        ));
    }
    (starts, noises)
}

} // verus!
