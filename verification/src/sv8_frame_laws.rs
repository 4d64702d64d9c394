//! What the bits of an SV8 frame say: the used-band count, the band types, the mid/side flags,
//! the scalefactor methods and the scalefactors, by the code words and the raw bits that they
//! are read from.

use crate::bits;
use crate::cns::CnsPrng;
use crate::coding;
use crate::combinadic;
use crate::error::Error;
use crate::phased;
use crate::sv8_band_decode;
use crate::sv8_band_header;
use crate::sv8_dscf_loop;
use crate::sv8_frame_decode;
use crate::sv8_frame_decode::BandRecord;
use crate::sv8_huffman::{Sv8CanonicalTable, Sv8TableSet};
use crate::sv8_stereo_frame;
use crate::sv8_stereo_frame::FrameMemory;
use vstd::arithmetic::power2::*;
use vstd::prelude::*;

verus! {

/// Where the parts of a frame start.
pub struct FrameParts {
    pub types: nat,
    pub flags: nat,
    pub methods: nat,
    pub scf: nat,
    pub levels: nat,
}

/// A frame that was read is its parts in a row.
pub proof fn lemma_frame_parts(
    tables: Sv8TableSet,
    bits: Seq<bool>,
    pos: nat,
    max_band: u8,
    keyframe: bool,
    stream_ms: bool,
    memory: FrameMemory,
    noise: CnsPrng,
) -> (parts: FrameParts)
    requires
        sv8_stereo_frame::frame_read(
            tables,
            bits,
            pos,
            max_band,
            keyframe,
            stream_ms,
            memory,
            noise,
        ).result is Ok,
    ensures
        ({
            let read = sv8_stereo_frame::frame_read(
                tables,
                bits,
                pos,
                max_band,
                keyframe,
                stream_ms,
                memory,
                noise,
            );
            let f = read.result->Ok_0;
            let m = memory.with_count(f.nbands);
            let scf = sv8_stereo_frame::scf_sweep(
                tables,
                bits,
                parts.scf,
                keyframe,
                m,
                f.res,
                f.scfi,
            );
            let levels = sv8_stereo_frame::level_sweep(tables, bits, parts.levels, noise, f.res);
            &&& sv8_stereo_frame::parse_used_bands(
                tables,
                bits,
                pos,
                max_band,
                keyframe,
                memory.last_nbands,
            ) == (Ok::<u8, Error>(f.nbands), parts.types)
            &&& f.nbands <= 32
            &&& sv8_band_header::parse_type_pairs(tables, bits, parts.types, f.nbands as nat) == (
                Ok::<Seq<[i8; 2]>, Error>(f.res),
                parts.flags,
            )
            &&& sv8_stereo_frame::parse_flags(bits, parts.flags, f.res, stream_ms) == (
                Ok::<Seq<bool>, Error>(f.ms_flags),
                parts.methods,
            )
            &&& sv8_stereo_frame::method_sweep(tables, bits, parts.methods, f.res).parsed() == (
                Ok::<Seq<[u8; 2]>, Error>(f.scfi),
                parts.scf,
            )
            &&& scf.result is Ok
            &&& scf.done == f.scf
            &&& scf.pos == parts.levels
            &&& levels.result is Ok
            &&& levels.done == f.levels
            &&& levels.pos == read.pos
            &&& read.memory == sv8_stereo_frame::memory_after(m, f.res, f.scf)
            &&& read.noise == sv8_stereo_frame::noise_after(
                noise,
                f.res,
                levels.done.len() as int,
            )
        }),
{
    reveal(sv8_stereo_frame::frame_read);
    let count = sv8_stereo_frame::parse_used_bands(
        tables,
        bits,
        pos,
        max_band,
        keyframe,
        memory.last_nbands,
    );
    let m = memory.with_count(count.0->Ok_0);
    let types = sv8_band_header::parse_type_pairs(tables, bits, count.1, m.last_nbands as nat);
    let res = types.0->Ok_0;
    let flags = sv8_stereo_frame::parse_flags(bits, types.1, res, stream_ms);
    let methods = sv8_stereo_frame::method_sweep(tables, bits, flags.1, res).parsed();
    let scf = sv8_stereo_frame::scf_sweep(
        tables,
        bits,
        methods.1,
        keyframe,
        m,
        res,
        methods.0->Ok_0,
    );
    FrameParts {
        types: count.1,
        flags: types.1,
        methods: flags.1,
        scf: methods.1,
        levels: scf.pos,
    }
}

/// The levels of a frame are those of its channels and bands, left and right of the lowest
/// band, then of the next, each by its own band type, one behind the other up to the end of
/// the frame. The noise generator goes on by a band's worth at each noise band, and at no
/// other. The starts and the generators are returned.
pub proof fn law_frame_levels(
    tables: Sv8TableSet,
    bits: Seq<bool>,
    pos: nat,
    max_band: u8,
    keyframe: bool,
    stream_ms: bool,
    memory: FrameMemory,
    noise: CnsPrng,
) -> (walk: (Seq<nat>, Seq<CnsPrng>))
    requires
        sv8_stereo_frame::frame_read(
            tables,
            bits,
            pos,
            max_band,
            keyframe,
            stream_ms,
            memory,
            noise,
        ).result is Ok,
    ensures
        ({
            let read = sv8_stereo_frame::frame_read(
                tables,
                bits,
                pos,
                max_band,
                keyframe,
                stream_ms,
                memory,
                noise,
            );
            let f = read.result->Ok_0;
            let n = 2 * f.res.len() as int;
            let (starts, noises) = walk;
            &&& f.levels.len() == n
            &&& starts.len() == n + 1
            &&& noises.len() == n + 1
            &&& starts[n] == read.pos
            &&& noises[0] == noise
            &&& noises[n] == read.noise
            &&& forall|i: int|
                0 <= i < n ==> {
                    let band_type = f.res[i / 2][i % 2];
                    &&& sv8_stereo_frame::parse_channel_levels(
                        tables,
                        bits,
                        starts[i],
                        band_type,
                        noises[i],
                    ) == (Ok::<Seq<i32>, Error>(#[trigger] f.levels[i]), starts[i + 1])
                    &&& noises[i + 1] == if band_type == -1 {
                        noises[i].steps(36)
                    } else {
                        noises[i]
                    }
                }
        }),
{
    let parts = lemma_frame_parts(
        tables,
        bits,
        pos,
        max_band,
        keyframe,
        stream_ms,
        memory,
        noise,
    );
    let read = sv8_stereo_frame::frame_read(
        tables,
        bits,
        pos,
        max_band,
        keyframe,
        stream_ms,
        memory,
        noise,
    );
    let f = read.result->Ok_0;
    let (starts, noises) = lemma_level_starts(tables, bits, parts.levels, noise, f.res);
    (starts, noises)
}

/// The starts of the levels of the third sweep.
proof fn lemma_level_starts(
    tables: Sv8TableSet,
    bits: Seq<bool>,
    pos: nat,
    noise: CnsPrng,
    res: Seq<[i8; 2]>,
) -> (walk: (Seq<nat>, Seq<CnsPrng>))
    requires
        sv8_stereo_frame::level_sweep(tables, bits, pos, noise, res).result is Ok,
    ensures
        ({
            let run = sv8_stereo_frame::level_sweep(tables, bits, pos, noise, res);
            let n = 2 * res.len() as int;
            let (starts, noises) = walk;
            &&& run.done.len() == n
            &&& starts.len() == n + 1
            &&& noises.len() == n + 1
            &&& starts[n] == run.pos
            &&& noises[0] == noise
            &&& noises[n] == sv8_stereo_frame::noise_after(noise, res, n)
            &&& forall|i: int|
                0 <= i < n ==> {
                    let band_type = res[i / 2][i % 2];
                    &&& sv8_stereo_frame::parse_channel_levels(
                        tables,
                        bits,
                        starts[i],
                        band_type,
                        noises[i],
                    ) == (Ok::<Seq<i32>, Error>(#[trigger] run.done[i]), starts[i + 1])
                    &&& noises[i + 1] == if band_type == -1 {
                        noises[i].steps(36)
                    } else {
                        noises[i]
                    }
                }
        }),
{
    let n = 2 * res.len();
    let step = sv8_stereo_frame::level_step(tables, bits, noise, res);
    let run = sv8_stereo_frame::level_sweep(tables, bits, pos, noise, res);
    let starts = coding::lemma_sweep_stops(step, n, pos);
    let noises = Seq::new(n + 1, |i: int| sv8_stereo_frame::noise_after(noise, res, i));
    assert forall|i: int| 0 <= i < n implies {
        let band_type = res[i / 2][i % 2];
        &&& sv8_stereo_frame::parse_channel_levels(tables, bits, starts[i], band_type, noises[i])
            == (Ok::<Seq<i32>, Error>(#[trigger] run.done[i]), starts[i + 1])
        &&& noises[i + 1] == if band_type == -1 {
            noises[i].steps(36)
        } else {
            noises[i]
        }
    } by {
        assert(step(run.done.take(i), starts[i]) == (
            Ok::<Seq<i32>, Error>(run.done[i]),
            starts[i + 1],
        ));
    }
    (starts, noises)
}

/// The used-band count of a key frame is one of the values up to one more than the highest
/// band. That of another frame is the one of the frame before it and a code word, less 33
/// where it would be above 32.
pub proof fn law_frame_count(
    tables: Sv8TableSet,
    bits: Seq<bool>,
    pos: nat,
    max_band: u8,
    keyframe: bool,
    stream_ms: bool,
    memory: FrameMemory,
    noise: CnsPrng,
)
    requires
        sv8_stereo_frame::frame_read(
            tables,
            bits,
            pos,
            max_band,
            keyframe,
            stream_ms,
            memory,
            noise,
        ).result is Ok,
    ensures
        ({
            let f = sv8_stereo_frame::frame_read(
                tables,
                bits,
                pos,
                max_band,
                keyframe,
                stream_ms,
                memory,
                noise,
            ).result->Ok_0;
            let (key, p) = phased::parse(bits, pos, (max_band + 2) as nat);
            let (word, q) = tables.bands.parse(bits, pos);
            let sum = memory.last_nbands + word->Ok_0;
            &&& f.nbands <= 32
            &&& f.res.len() == f.nbands
            &&& keyframe ==> key is Ok && (key->Ok_0 < 256 ==> f.nbands == key->Ok_0)
            &&& !keyframe ==> word is Ok && (f.nbands == sum || f.nbands == sum - 33)
            &&& !keyframe && sum <= 32 ==> f.nbands == sum
        }),
{
    let parts = lemma_frame_parts(
        tables,
        bits,
        pos,
        max_band,
        keyframe,
        stream_ms,
        memory,
        noise,
    );
    let f = sv8_stereo_frame::frame_read(
        tables,
        bits,
        pos,
        max_band,
        keyframe,
        stream_ms,
        memory,
        noise,
    ).result->Ok_0;
    let step = sv8_band_header::type_pair_step(tables, bits);
    let run = sv8_band_header::type_pairs_down(tables, bits, parts.types, f.nbands as nat);
    let stops = coding::lemma_sweep_stops(step, f.nbands as nat, parts.types);
}

/// The band types of a frame are code words, from the top band down, left before right. Each
/// adds to the type of the band above it in its channel, and is less 17 where it would be
/// above 15. The second code is for bands under a type above 2. The positions and the symbols
/// are returned.
#[verifier::rlimit(50)]
pub proof fn law_type_pairs(tables: Sv8TableSet, bits: Seq<bool>, pos: nat, n: nat) -> (walk: (
    Seq<nat>,
    Seq<i8>,
))
    requires
        sv8_band_header::parse_type_pairs(tables, bits, pos, n).0 is Ok,
    ensures
        ({
            let (r, end) = sv8_band_header::parse_type_pairs(tables, bits, pos, n);
            let res = r->Ok_0;
            let (stops, words) = walk;
            &&& res.len() == n
            &&& words.len() == 2 * n
            &&& stops.len() == 2 * n + 1
            &&& stops[0] == pos
            &&& stops[2 * n as int] == end
            &&& forall|k: int|
                0 <= k < 2 * n ==> {
                    let b = n - 1 - k / 2;
                    let above: int = if k < 2 {
                        0
                    } else {
                        res[b + 1][k % 2] as int
                    };
                    let code = if above > 2 {
                        tables.res[1]
                    } else {
                        tables.res[0]
                    };
                    let sum = above + words[k];
                    let t = if sum > 15 {
                        sum - 17
                    } else {
                        sum
                    };
                    &&& code.parse(bits, stops[k]) == (
                        Ok::<i8, Error>(#[trigger] words[k]),
                        stops[k + 1],
                    )
                    &&& -128 <= t <= 127 ==> res[b][k % 2] == t
                }
        }),
{
    let step = sv8_band_header::type_pair_step(tables, bits);
    let run = sv8_band_header::type_pairs_down(tables, bits, pos, n);
    let done = run.done;
    let at = coding::lemma_sweep_stops(step, n, pos);
    let res = sv8_band_header::parse_type_pairs(tables, bits, pos, n).0->Ok_0;
    assert(res == done.reverse());
    let stops = Seq::new(
        (2 * n + 1) as nat,
        |k: int|
            if k % 2 == 0 {
                at[k / 2]
            } else {
                sv8_band_header::parse_type(tables, bits, at[k / 2], above_in(done, k / 2, 0)).1
            },
    );
    let words = Seq::new(
        (2 * n) as nat,
        |k: int| word_under(tables, bits, stops[k], above_in(done, k / 2, k % 2)),
    );
    assert forall|k: int| 0 <= k < 2 * n implies {
        let b = n - 1 - k / 2;
        let up: int = if k < 2 {
            0
        } else {
            res[b + 1][k % 2] as int
        };
        let code = if up > 2 {
            tables.res[1]
        } else {
            tables.res[0]
        };
        let sum = up + words[k];
        let t = if sum > 15 {
            sum - 17
        } else {
            sum
        };
        &&& code.parse(bits, stops[k]) == (Ok::<i8, Error>(#[trigger] words[k]), stops[k + 1])
        &&& -128 <= t <= 127 ==> res[b][k % 2] == t
    } by {
        let j = k / 2;
        assert(step(done.take(j), at[j]) == (Ok::<[i8; 2], Error>(done[j]), at[j + 1]));
        if j > 0 {
            assert(done.take(j).last() == done[j - 1]);
            assert(res[n - 1 - j + 1] == done[j - 1]);
        }
        assert(res[n - 1 - j] == done[j]);
        let left = above_in(done, j, 0);
        let right = above_in(done, j, 1);
        assert(sv8_band_header::pair_above(done.take(j), 0) == left);
        assert(sv8_band_header::pair_above(done.take(j), 1) == right);
        let (l, p) = sv8_band_header::parse_type(tables, bits, at[j], left);
        let (r, q) = sv8_band_header::parse_type(tables, bits, p, right);
        assert(done[j][0] == l->Ok_0 && done[j][1] == r->Ok_0 && at[j + 1] == q);
        lemma_type_word(tables, bits, at[j], left);
        lemma_type_word(tables, bits, p, right);
        if k % 2 == 0 {
            assert(k == 2 * j && (k + 1) / 2 == j);
            assert(stops[k] == at[j] && stops[k + 1] == p);
        } else {
            assert(k == 2 * j + 1 && (k + 1) / 2 == j + 1);
            assert(stops[k] == p && stops[k + 1] == at[j + 1]);
        }
    }
    (stops, words)
}

/// The type above band `j` from the top, where there is one.
spec fn above_in(done: Seq<[i8; 2]>, j: int, ch: int) -> Option<i8> {
    if j <= 0 {
        None
    } else {
        Some(done[j - 1][ch])
    }
}

/// The symbol of a type under `above`.
spec fn word_under(tables: Sv8TableSet, bits: Seq<bool>, pos: nat, above: Option<i8>) -> i8 {
    tables.res[sv8_band_header::context_under(above)].parse(bits, pos).0->Ok_0
}

proof fn lemma_type_word(tables: Sv8TableSet, bits: Seq<bool>, pos: nat, above: Option<i8>)
    requires
        sv8_band_header::parse_type(tables, bits, pos, above).0 is Ok,
    ensures
        ({
            let (t, end) = sv8_band_header::parse_type(tables, bits, pos, above);
            let up: int = if above is Some {
                above->0 as int
            } else {
                0
            };
            let word = word_under(tables, bits, pos, above);
            let code = if up > 2 {
                tables.res[1]
            } else {
                tables.res[0]
            };
            let sum = up + word;
            &&& code.parse(bits, pos) == (Ok::<i8, Error>(word), end)
            &&& sum > 15 && sum - 17 <= 127 ==> t->Ok_0 == sum - 17
            &&& -128 <= sum <= 15 ==> t->Ok_0 == sum
        }),
{
}

/// Flags are read for the bands that code something, from the lowest up: first how many are
/// set, then the set. Other bands have none, and nothing is read where the stream has none.
/// The number of such bands below each band, and their flags, are returned.
pub proof fn law_flags(bits: Seq<bool>, pos: nat, res: Seq<[i8; 2]>, stream_ms: bool) -> (walk: (
    Seq<nat>,
    Seq<bool>,
))
    requires
        sv8_stereo_frame::parse_flags(bits, pos, res, stream_ms).0 is Ok,
    ensures
        ({
            let (r, end) = sv8_stereo_frame::parse_flags(bits, pos, res, stream_ms);
            let flags = r->Ok_0;
            let (below, set) = walk;
            let n = res.len() as int;
            let (count, p) = phased::parse(bits, pos, below[n] + 1);
            &&& flags.len() == n
            &&& below.len() == n + 1
            &&& below[0] == 0
            &&& forall|b: int|
                0 <= b < n ==> {
                    let coded = res[b][0] != 0 || res[b][1] != 0;
                    &&& #[trigger] flags[b] <==> stream_ms && coded && set[below[b] as int]
                    &&& below[b + 1] == below[b] + if coded {
                        1nat
                    } else {
                        0
                    }
                }
            &&& !stream_ms || below[n] == 0 ==> end == pos
            &&& stream_ms && below[n] > 0 ==> count is Ok && combinadic::parse_set(
                bits,
                p,
                count->Ok_0 as nat,
                below[n],
            ) == (Ok::<Seq<bool>, Error>(set), end)
        }),
{
    let n = res.len();
    let below = Seq::new(n + 1, |b: int| sv8_stereo_frame::scope_below(res, b));
    let set = sv8_band_header::parse_ms_flags(bits, pos, below[n as int]).0->Ok_0;
    let flags = sv8_stereo_frame::parse_flags(bits, pos, res, stream_ms).0->Ok_0;
    assert forall|b: int| 0 <= b < n implies {
        let coded = res[b][0] != 0 || res[b][1] != 0;
        &&& #[trigger] flags[b] <==> stream_ms && coded && set[below[b] as int]
        &&& below[b + 1] == below[b] + if coded {
            1nat
        } else {
            0
        }
    } by {}
    (below, set)
}

/// The scalefactor methods of a band whose two channels code something are a code word of the
/// second code, four times the left one and the right one. Where only one does, its method is
/// a code word of the first code. Where none does, there is no word.
pub proof fn law_methods(tables: Sv8TableSet, bits: Seq<bool>, pos: nat, types: [i8; 2])
    requires
        sv8_stereo_frame::parse_band_methods(tables, bits, pos, types).0 is Ok,
    ensures
        ({
            let (r, end) = sv8_stereo_frame::parse_band_methods(tables, bits, pos, types);
            let m = r->Ok_0;
            let (one, p) = tables.scfi[0].parse(bits, pos);
            let (two, q) = tables.scfi[1].parse(bits, pos);
            let (left, right) = (types[0] != 0, types[1] != 0);
            &&& m[0] < 4 && m[1] < 4
            &&& left && right ==> two is Ok && end == q && two->Ok_0 as int % 16 == 4 * m[0] + m[1]
            &&& left && !right ==> one is Ok && end == p && one->Ok_0 as int % 4 == m[0] && m[1]
                == 0
            &&& !left && right ==> one is Ok && end == p && one->Ok_0 as int % 4 == m[1] && m[0]
                == 0
            &&& !left && !right ==> end == pos && m[0] == 0 && m[1] == 0
        }),
{
    let s = tables.scfi[1].parse(bits, pos).0->Ok_0 as int;
    assert(s % 16 == 4 * (s / 4 % 4) + s % 4);
}

/// A scalefactor difference: a code word, or behind the escape 64 more than six bits.
pub open spec fn is_difference(
    code: Sv8CanonicalTable,
    escape: i8,
    bits: Seq<bool>,
    pos: nat,
    delta: int,
    end: nat,
) -> bool {
    let (word, p) = code.parse(bits, pos);
    &&& word is Ok
    &&& word->Ok_0 != escape ==> delta == word->Ok_0 && end == p
    &&& word->Ok_0 == escape ==> p + 6 == end <= bits.len() && delta == 64 + bits::field_at(
        bits,
        p,
        6,
    )
}

/// `s` is the scalefactor that lies `delta - 31` behind `before`, on a ring of 128 from minus
/// six up.
pub open spec fn is_behind(before: int, delta: int, s: int) -> bool {
    -6 <= s <= 121 && (s - (before + delta - 31)) % 128 == 0
}

proof fn lemma_fold_is_behind(prev: int, delta: int)
    ensures
        is_behind(prev, delta, sv8_dscf_loop::fold(prev, delta)),
{
    let x = prev - 25 + delta;
    assert((x % 128 - 6 - (prev + delta - 31)) % 128 == 0) by {
        vstd::arithmetic::div_mod::lemma_fundamental_div_mod(x, 128);
        let q = x / 128;
        assert(x % 128 - 6 - (prev + delta - 31) == 128 * (-q));
        vstd::arithmetic::div_mod::lemma_mod_multiples_basic(-q, 128);
        vstd::arithmetic::mul::lemma_mul_is_commutative(-q, 128);
    }
}

/// The scalefactors of a band. The first is written out in seven bits, from minus six up, in
/// a new block, and is a difference of the second code behind `prev` in another; 64 escapes
/// there. The second and the third are differences of the first code, which 31 escapes, or
/// repeat the one before: method 1 repeats the third, 2 the second, 3 both. The positions and
/// the differences are returned.
pub proof fn law_band_scf(
    tables: Sv8TableSet,
    bits: Seq<bool>,
    pos: nat,
    scfi: u8,
    new_block: bool,
    prev: int,
) -> (walk: (nat, nat, int, int, int))
    requires
        sv8_dscf_loop::parse_band_scf(tables, bits, pos, scfi, new_block, prev).0 is Ok,
    ensures
        ({
            let (r, end) = sv8_dscf_loop::parse_band_scf(tables, bits, pos, scfi, new_block, prev);
            let s = r->Ok_0;
            let (p, q, d, e, f) = walk;
            &&& scfi <= 3
            &&& new_block ==> p == pos + 7 <= bits.len() && s[0] == bits::field_at(bits, pos, 7) - 6
            &&& !new_block ==> is_difference(tables.dscf[1], 64, bits, pos, d, p) && is_behind(
                prev,
                d,
                s[0] as int,
            )
            &&& scfi == 2 || scfi == 3 ==> s[1] == s[0] && q == p
            &&& scfi == 0 || scfi == 1 ==> is_difference(tables.dscf[0], 31, bits, p, e, q)
                && is_behind(s[0] as int, e, s[1] as int)
            &&& scfi == 1 || scfi == 3 ==> s[2] == s[1] && end == q
            &&& scfi == 0 || scfi == 2 ==> is_difference(tables.dscf[0], 31, bits, q, f, end)
                && is_behind(s[1] as int, f, s[2] as int)
        }),
{
    let (a, p) = sv8_dscf_loop::parse_first(tables, bits, pos, new_block, prev);
    let c1 = sv8_dscf_loop::is_coded(scfi as int, 1);
    let (b, q) = sv8_dscf_loop::parse_later(tables, bits, p, c1, a->Ok_0);
    let d = sv8_dscf_loop::parse_first_delta(tables, bits, pos).0->Ok_0 as int;
    let e = sv8_dscf_loop::parse_later_delta(tables, bits, p).0->Ok_0 as int;
    let f = sv8_dscf_loop::parse_later_delta(tables, bits, q).0->Ok_0 as int;
    lemma_fold_is_behind(prev, d);
    lemma_fold_is_behind(a->Ok_0 as int, e);
    lemma_fold_is_behind(b->Ok_0 as int, f);
    lemma2_to64();
    lemma_seven_bits(bits, pos);
    lemma_six_bits(bits, tables.dscf[1].parse(bits, pos).1);
    lemma_six_bits(bits, tables.dscf[0].parse(bits, p).1);
    lemma_six_bits(bits, tables.dscf[0].parse(bits, q).1);
    (p, q, d, e, f)
}

proof fn lemma_seven_bits(bits: Seq<bool>, p: nat)
    ensures
        p + 7 <= bits.len() ==> bits::field_at(bits, p, 7) < 128,
{
    if p + 7 <= bits.len() {
        bits::lemma_value_bound(bits.subrange(p as int, p + 7int));
        lemma2_to64();
    }
}

proof fn lemma_six_bits(bits: Seq<bool>, p: nat)
    ensures
        p + 6 <= bits.len() ==> bits::field_at(bits, p, 6) < 64,
{
    if p + 6 <= bits.len() {
        bits::lemma_value_bound(bits.subrange(p as int, p + 6int));
        lemma2_to64();
    }
}

/// The scalefactors of a frame are those of the channels that code something, left and right
/// of the lowest band, then of the next. A block is new in a key frame, and where the channel
/// codes the band for the first time since one; in another the first scalefactor follows the
/// last one of the band. What stays behind for the next frame is the last scalefactor of each
/// channel that was coded. The starts are returned.
pub proof fn law_frame_scf(
    tables: Sv8TableSet,
    bits: Seq<bool>,
    pos: nat,
    max_band: u8,
    keyframe: bool,
    stream_ms: bool,
    memory: FrameMemory,
    noise: CnsPrng,
) -> (starts: Seq<nat>)
    requires
        sv8_stereo_frame::frame_read(
            tables,
            bits,
            pos,
            max_band,
            keyframe,
            stream_ms,
            memory,
            noise,
        ).result is Ok,
    ensures
        ({
            let read = sv8_stereo_frame::frame_read(
                tables,
                bits,
                pos,
                max_band,
                keyframe,
                stream_ms,
                memory,
                noise,
            );
            let f = read.result->Ok_0;
            let n = 2 * f.res.len() as int;
            &&& f.scf.len() == n
            &&& f.scfi.len() == f.res.len()
            &&& starts.len() == n + 1
            &&& read.memory.last_nbands == f.nbands
            &&& forall|i: int|
                0 <= i < n ==> {
                    let (b, ch) = (i / 2, i % 2);
                    let before = (memory.scf)(ch, b);
                    &&& f.res[b][ch] == 0 ==> (#[trigger] f.scf[i]) == [0i32, 0i32, 0i32]
                        && starts[i + 1] == starts[i] && (read.memory.scf)(ch, b) == before
                    &&& f.res[b][ch] != 0 ==> (read.memory.scf)(ch, b) == Some(f.scf[i][2])
                        && sv8_dscf_loop::parse_band_scf(
                        tables,
                        bits,
                        starts[i],
                        f.scfi[b][ch],
                        keyframe || before is None,
                        if before is Some {
                            before->0 as int
                        } else {
                            0
                        },
                    ) == (Ok::<[i32; 3], Error>(f.scf[i]), starts[i + 1])
                }
        }),
{
    let parts = lemma_frame_parts(
        tables,
        bits,
        pos,
        max_band,
        keyframe,
        stream_ms,
        memory,
        noise,
    );
    let f = sv8_stereo_frame::frame_read(
        tables,
        bits,
        pos,
        max_band,
        keyframe,
        stream_ms,
        memory,
        noise,
    ).result->Ok_0;
    let m = memory.with_count(f.nbands);
    let n = 2 * f.res.len();
    let step = sv8_stereo_frame::scf_step(tables, bits, keyframe, m, f.res, f.scfi);
    let run = sv8_stereo_frame::scf_sweep(tables, bits, parts.scf, keyframe, m, f.res, f.scfi);
    let starts = coding::lemma_sweep_stops(step, n, parts.scf);
    let methods = sv8_stereo_frame::method_step(tables, bits, f.res);
    let stops = coding::lemma_sweep_stops(methods, f.res.len(), parts.methods);
    assert forall|i: int| 0 <= i < n implies sv8_stereo_frame::parse_channel_scf(
        tables,
        bits,
        starts[i],
        keyframe,
        m,
        i % 2,
        i / 2,
        f.res[i / 2][i % 2],
        f.scfi[i / 2][i % 2],
    ) == (Ok::<[i32; 3], Error>(#[trigger] f.scf[i]), starts[i + 1]) && 2 * (i / 2) + i % 2 == i by {
        assert(step(run.done.take(i), starts[i]) == (
            Ok::<[i32; 3], Error>(run.done[i]),
            starts[i + 1],
        ));
    }
    starts
}

/// The methods of a frame are those of its bands, from the lowest up. The starts are returned.
pub proof fn law_frame_methods(
    tables: Sv8TableSet,
    bits: Seq<bool>,
    pos: nat,
    max_band: u8,
    keyframe: bool,
    stream_ms: bool,
    memory: FrameMemory,
    noise: CnsPrng,
) -> (starts: Seq<nat>)
    requires
        sv8_stereo_frame::frame_read(
            tables,
            bits,
            pos,
            max_band,
            keyframe,
            stream_ms,
            memory,
            noise,
        ).result is Ok,
    ensures
        ({
            let f = sv8_stereo_frame::frame_read(
                tables,
                bits,
                pos,
                max_band,
                keyframe,
                stream_ms,
                memory,
                noise,
            ).result->Ok_0;
            let n = f.res.len() as int;
            &&& f.scfi.len() == n
            &&& starts.len() == n + 1
            &&& forall|b: int|
                0 <= b < n ==> sv8_stereo_frame::parse_band_methods(
                    tables,
                    bits,
                    starts[b],
                    f.res[b],
                ) == (Ok::<[u8; 2], Error>(#[trigger] f.scfi[b]), starts[b + 1])
        }),
{
    let parts = lemma_frame_parts(
        tables,
        bits,
        pos,
        max_band,
        keyframe,
        stream_ms,
        memory,
        noise,
    );
    let f = sv8_stereo_frame::frame_read(
        tables,
        bits,
        pos,
        max_band,
        keyframe,
        stream_ms,
        memory,
        noise,
    ).result->Ok_0;
    let step = sv8_stereo_frame::method_step(tables, bits, f.res);
    let run = sv8_stereo_frame::method_sweep(tables, bits, parts.methods, f.res);
    let starts = coding::lemma_sweep_stops(step, f.res.len(), parts.methods);
    assert forall|b: int| 0 <= b < f.res.len() implies sv8_stereo_frame::parse_band_methods(
        tables,
        bits,
        starts[b],
        f.res[b],
    ) == (Ok::<[u8; 2], Error>(#[trigger] f.scfi[b]), starts[b + 1]) by {
        assert(step(run.done.take(b), starts[b]) == (
            Ok::<[u8; 2], Error>(run.done[b]),
            starts[b + 1],
        ));
    }
    starts
}

/// A channel by itself is its band types and then its bands, from the lowest up. Scalefactors
/// follow the last one of the bands of a type above zero below, or start from zero where there
/// is none. The noise generator goes on by a band's worth at each noise band. The starts, the
/// last scalefactors and the generators are returned.
pub proof fn law_channel_bands(
    tables: Sv8TableSet,
    bits: Seq<bool>,
    pos: nat,
    nbands: u8,
    new_block: bool,
    noise: CnsPrng,
) -> (walk: (Seq<nat>, Seq<int>, Seq<CnsPrng>))
    requires
        sv8_frame_decode::channel_read(tables, bits, pos, nbands, new_block, noise).result is Ok,
    ensures
        ({
            let run = sv8_frame_decode::channel_read(
                tables,
                bits,
                pos,
                nbands,
                new_block,
                noise,
            );
            let (types, p) = sv8_band_header::parse_types(tables, bits, pos, nbands as nat);
            let (starts, last, noises) = walk;
            let n = nbands as int;
            &&& n <= 32
            &&& types is Ok
            &&& run.done.len() == n
            &&& starts.len() == n + 1 && last.len() == n + 1 && noises.len() == n + 1
            &&& starts[0] == p
            &&& starts[n] == run.pos
            &&& last[0] == 0
            &&& noises[0] == noise
            &&& forall|b: int|
                0 <= b < n ==> sv8_frame_decode::parse_band(
                    tables,
                    bits,
                    starts[b],
                    b,
                    types->Ok_0[b],
                    new_block,
                    last[b],
                    noises[b],
                ) == (Ok::<BandRecord, Error>(#[trigger] run.done[b]), starts[b + 1])
            &&& forall|b: int|
                0 <= b < n ==> last[b + 1] == if (#[trigger] run.done[b]).band_type > 0 {
                    run.done[b].granule_scf[2] as int
                } else {
                    last[b]
                }
            &&& forall|b: int|
                0 <= b < n ==> noises[b + 1] == if (#[trigger] run.done[b]).band_type == -1 {
                    noises[b].steps(36)
                } else {
                    noises[b]
                }
        }),
{
    let (types, p) = sv8_band_header::parse_types(tables, bits, pos, nbands as nat);
    let step = sv8_frame_decode::band_step(tables, bits, types->Ok_0, new_block, noise);
    let done = sv8_frame_decode::channel_read(tables, bits, pos, nbands, new_block, noise).done;
    let n = nbands as nat;
    let starts = coding::lemma_sweep_stops(step, n, p);
    let last = Seq::new(n + 1, |b: int| sv8_frame_decode::last_scalefactor(done.take(b)));
    let noises = Seq::new(n + 1, |b: int| sv8_frame_decode::noise_after(noise, done.take(b)));
    assert(done.take(0) =~= Seq::<BandRecord>::empty());
    assert forall|b: int| 0 <= b < n implies sv8_frame_decode::parse_band(
        tables,
        bits,
        starts[b],
        b,
        types->Ok_0[b],
        new_block,
        last[b],
        noises[b],
    ) == (Ok::<BandRecord, Error>(#[trigger] done[b]), starts[b + 1]) by {
        assert(step(done.take(b), starts[b]) == (
            Ok::<BandRecord, Error>(done[b]),
            starts[b + 1],
        ));
        assert(done.take(b).len() == b);
    }
    assert forall|b: int| 0 <= b < n implies last[b + 1] == (if (#[trigger] done[b]).band_type > 0 {
        done[b].granule_scf[2] as int
    } else {
        last[b]
    }) && noises[b + 1] == (if done[b].band_type == -1 {
        noises[b].steps(36)
    } else {
        noises[b]
    }) by {
        assert(done.take(b + 1).drop_last() =~= done.take(b));
        assert(done.take(b + 1).last() == done[b]);
    }
    (starts, last, noises)
}

/// A band of a channel by itself: one of a type above zero has a method, of the first code,
/// its scalefactors and its levels; silence and noise have neither.
pub proof fn law_channel_band(
    tables: Sv8TableSet,
    bits: Seq<bool>,
    pos: nat,
    b: int,
    t: i8,
    new_block: bool,
    last: int,
    noise: CnsPrng,
)
    requires
        sv8_frame_decode::parse_band(tables, bits, pos, b, t, new_block, last, noise).0 is Ok,
    ensures
        ({
            let (r, end) = sv8_frame_decode::parse_band(
                tables,
                bits,
                pos,
                b,
                t,
                new_block,
                last,
                noise,
            );
            let band = r->Ok_0;
            let (method, q) = tables.scfi[0].parse(bits, pos);
            let (scf, s) = sv8_dscf_loop::parse_band_scf(
                tables,
                bits,
                q,
                (method->Ok_0 as int % 4) as u8,
                new_block,
                last,
            );
            let read = sv8_band_decode::band_read(
                tables,
                bits,
                s,
                t as int,
                noise,
                sv8_band_decode::silence(),
            );
            &&& band.subband == b
            &&& band.band_type == t
            &&& t >= -1
            &&& t > 0 ==> method is Ok && scf is Ok && read.result is Ok && band.granule_scf
                == scf->Ok_0@ && band.levels == read.levels && end == read.pos
            &&& t <= 0 ==> end == pos && band.granule_scf == seq![0i32, 0i32, 0i32]
            &&& t == -1 ==> band.levels == noise.noise()
            &&& t == 0 ==> band.levels == sv8_band_decode::silence()
        }),
{
}

} // verus!
