//! Encoding and decoding a frame body undo each other.

use crate::bit_reader;
use crate::bits;
use crate::cns::CnsPrng;
use crate::coding;
use crate::coding::Emit;
use crate::combinadic;
use crate::error::Error;
use crate::phased;
use crate::sv8_band_decode;
use crate::sv8_band_header;
use crate::sv8_dscf_loop;
use crate::sv8_huffman::{Sv8CanonicalTable, Sv8TableRole, Sv8TableSet};
use crate::sv8_huffman_encode;
use crate::sv8_sample_laws;
use crate::sv8_stereo_frame;
use crate::sv8_stereo_frame::{FrameMemory, FrameRead, StereoFrame};
use crate::sv8_stereo_frame_encode;
use vstd::arithmetic::power2::*;
use vstd::prelude::*;

verus! {

// ---------------------------------------------------------------------------
// Frames that a decoder yields
// ---------------------------------------------------------------------------

/// Everything in the frame has a code, and what has none is what a decoder fills in:
/// band types are in range; an empty channel has the method 0 and zero scalefactors and
/// levels; a noise channel has the generator's levels; flags outside the scope are clear.
#[verifier::opaque]
pub open spec fn plain(f: StereoFrame, stream_ms: bool, noise: CnsPrng) -> bool {
    let n = f.nbands as nat;
    &&& n <= 32
    &&& f.res.len() == n
    &&& f.ms_flags.len() == n
    &&& f.scfi.len() == n
    &&& f.scf.len() == 2 * n
    &&& f.levels.len() == 2 * n
    &&& forall|b: int, ch: int|
        0 <= b < n && 0 <= ch < 2 ==> -1 <= #[trigger] f.res[b][ch] <= 15
    &&& forall|b: int|
        0 <= b < n && #[trigger] f.ms_flags[b] ==> stream_ms && sv8_stereo_frame::in_scope(f.res[b])
    &&& forall|b: int, ch: int|
        0 <= b < n && 0 <= ch < 2 && f.res[b][ch] == 0 ==> #[trigger] f.scfi[b][ch] == 0
    &&& forall|i: int|
        0 <= i < 2 * n ==> plain_scf(f.res[i / 2][i % 2], #[trigger] f.scf[i])
    &&& forall|i: int|
        0 <= i < 2 * n ==> plain_levels(
            f.res[i / 2][i % 2],
            #[trigger] f.levels[i],
            sv8_stereo_frame::noise_after(noise, f.res, i),
        )
}

/// The scalefactors are ones that a decoder yields.
pub open spec fn plain_scf(band_type: i8, scf: [i32; 3]) -> bool {
    if band_type == 0 {
        scf == [0i32, 0i32, 0i32]
    } else {
        -6 <= scf[0] <= 121 && -6 <= scf[1] <= 121 && -6 <= scf[2] <= 121
    }
}

/// The levels are ones that a decoder yields, in so far as they are not coded.
pub open spec fn plain_levels(band_type: i8, levels: Seq<i32>, noise: CnsPrng) -> bool {
    if band_type == 0 {
        levels == sv8_band_decode::silence()
    } else if band_type == -1 {
        levels == noise.noise()
    } else {
        levels.len() == 36
    }
}

// ---------------------------------------------------------------------------
// What was written reads back
// ---------------------------------------------------------------------------

/// A written used-band count reads back.
pub proof fn law_count_reads_back(
    tables: Sv8TableSet,
    bits: Seq<bool>,
    pos: nat,
    max_band: u8,
    keyframe: bool,
    last: u8,
    nbands: u8,
)
    requires
        tables.canonical(),
        nbands <= 32,
        keyframe || last <= 32,
        sv8_stereo_frame_encode::emit_count(tables, max_band, keyframe, last, nbands).result is Ok,
        coding::readable(
            bits,
            pos,
            sv8_stereo_frame_encode::emit_count(tables, max_band, keyframe, last, nbands).code,
        ),
    ensures
        sv8_stereo_frame::parse_used_bands(tables, bits, pos, max_band, keyframe, last) == (
            Ok::<u8, Error>(nbands),
            pos + sv8_stereo_frame_encode::emit_count(
                tables,
                max_band,
                keyframe,
                last,
                nbands,
            ).code.len(),
        ),
{
    if keyframe {
        phased::lemma_reads_back(bits, pos, nbands as nat, (max_band + 2) as nat);
    } else {
        let t = tables.table(Sv8TableRole::Bands, 0);
        assert(t.canonical());
        let d = nbands - last;
        assert(sv8_stereo_frame_encode::low_byte(d) == d);
        if sv8_huffman_encode::position(t.symbols@, 0, d as i8) is Some {
            sv8_huffman_encode::lemma_symbol_reads_back(t, bits, pos, d as i8);
        } else {
            sv8_huffman_encode::lemma_symbol_reads_back(t, bits, pos, (d + 33) as i8);
        }
    }
}

/// A written band type reads back.
proof fn lemma_type_reads_back(
    tables: Sv8TableSet,
    bits: Seq<bool>,
    pos: nat,
    above: Option<i8>,
    t: i8,
)
    requires
        tables.canonical(),
        -1 <= t <= 15,
        above is Some ==> -1 <= above->0 <= 15,
        sv8_stereo_frame_encode::emit_type(tables, above, t).result is Ok,
        coding::readable(bits, pos, sv8_stereo_frame_encode::emit_type(tables, above, t).code),
    ensures
        sv8_band_header::parse_type(tables, bits, pos, above) == (
            Ok::<i8, Error>(t),
            pos + sv8_stereo_frame_encode::emit_type(tables, above, t).code.len(),
        ),
{
    let table = tables.table(Sv8TableRole::Res, sv8_band_header::context_under(above));
    assert(table.canonical());
    let s = sv8_stereo_frame_encode::type_symbol(above, t);
    sv8_huffman_encode::lemma_symbol_reads_back(table, bits, pos, s);
}

/// Written band types read back.
pub proof fn law_types_read_back(
    tables: Sv8TableSet,
    bits: Seq<bool>,
    pos: nat,
    res: Seq<[i8; 2]>,
)
    requires
        tables.canonical(),
        forall|b: int, ch: int|
            0 <= b < res.len() && 0 <= ch < 2 ==> -1 <= #[trigger] res[b][ch] <= 15,
        ({
            let e = coding::emit_each(
                sv8_stereo_frame_encode::type_emit(tables, res, res.len() as int),
                0,
                res.len() as int,
            );
            e.result is Ok && coding::readable(bits, pos, e.code)
        }),
    ensures
        sv8_band_header::parse_type_pairs(tables, bits, pos, res.len()) == (
            Ok::<Seq<[i8; 2]>, Error>(res),
            pos + coding::emit_each(
                sv8_stereo_frame_encode::type_emit(tables, res, res.len() as int),
                0,
                res.len() as int,
            ).code.len(),
        ),
{
    let n = res.len() as int;
    let items = res.reverse();
    let parse = sv8_band_header::type_pair_step(tables, bits);
    let emit = sv8_stereo_frame_encode::type_emit(tables, res, n);
    assert forall|j: int, p: nat|
        0 <= j < items.len() && emit(j).result is Ok && coding::readable(
            bits,
            p,
            emit(j).code,
        ) implies #[trigger] parse(items.take(j), p) == (
        Ok::<[i8; 2], Error>(items[j]),
        (p + emit(j).code.len()) as nat,
    ) by {
        let b = n - 1 - j;
        let left = sv8_stereo_frame_encode::type_above(res, n, b, 0);
        let right = sv8_stereo_frame_encode::type_above(res, n, b, 1);
        if j > 0 {
            assert(items.take(j).last() == res[b + 1]);
            assert(-1 <= res[b + 1][0] <= 15 && -1 <= res[b + 1][1] <= 15);
        }
        assert(-1 <= res[b][0] <= 15 && -1 <= res[b][1] <= 15);
        assert(sv8_band_header::pair_above(items.take(j), 0) == left);
        assert(sv8_band_header::pair_above(items.take(j), 1) == right);
        let first = sv8_stereo_frame_encode::emit_type(tables, left, res[b][0]);
        let second = sv8_stereo_frame_encode::emit_type(tables, right, res[b][1]);
        assert(emit(j) == first.chain(second));
        bits::lemma_at_concat(bits, p, first.code, second.code);
        lemma_type_reads_back(tables, bits, p, left, res[b][0]);
        lemma_type_reads_back(tables, bits, p + first.code.len(), right, res[b][1]);
        coding::lemma_pair(res[b]);
    }
    assert(items.take(0) =~= Seq::<[i8; 2]>::empty());
    coding::lemma_sweep_reads_back(bits, parse, emit, items, 0, pos);
    assert(items.reverse() =~= res);
}

/// The flags in the scope, by their place in it.
proof fn lemma_scoped(res: Seq<[i8; 2]>, flags: Seq<bool>, n: int)
    requires
        0 <= n,
    ensures
        sv8_stereo_frame_encode::scoped(res, flags, n).len() == sv8_stereo_frame::scope_below(
            res,
            n,
        ),
        forall|b: int|
            0 <= b < n && sv8_stereo_frame::in_scope(#[trigger] res[b]) ==> ({
                let i = sv8_stereo_frame::scope_below(res, b) as int;
                &&& 0 <= i < sv8_stereo_frame::scope_below(res, n)
                &&& sv8_stereo_frame_encode::scoped(res, flags, n)[i] == flags[b]
            }),
    decreases n,
{
    if n > 0 {
        lemma_scoped(res, flags, n - 1);
        let less = sv8_stereo_frame_encode::scoped(res, flags, n - 1);
        let more = sv8_stereo_frame_encode::scoped(res, flags, n);
        assert forall|b: int| 0 <= b < n && sv8_stereo_frame::in_scope(#[trigger] res[b]) implies ({
            let i = sv8_stereo_frame::scope_below(res, b) as int;
            &&& 0 <= i < sv8_stereo_frame::scope_below(res, n)
            &&& more[i] == flags[b]
        }) by {
            if b < n - 1 {
                let i = sv8_stereo_frame::scope_below(res, b) as int;
                assert(less[i] == flags[b]);
            }
        }
    }
}

/// Every place in the scope is a band's.
proof fn lemma_scope_onto(res: Seq<[i8; 2]>, n: int, i: int) -> (b: int)
    requires
        0 <= n,
        0 <= i < sv8_stereo_frame::scope_below(res, n),
    ensures
        0 <= b < n,
        sv8_stereo_frame::in_scope(res[b]),
        sv8_stereo_frame::scope_below(res, b) == i,
    decreases n,
{
    if sv8_stereo_frame::in_scope(res[n - 1]) && sv8_stereo_frame::scope_below(res, n - 1) == i {
        n - 1
    } else {
        lemma_scope_onto(res, n - 1, i)
    }
}

/// Written mid/side flags read back.
pub proof fn law_flags_read_back(
    bits: Seq<bool>,
    pos: nat,
    res: Seq<[i8; 2]>,
    flags: Seq<bool>,
    stream_ms: bool,
)
    requires
        flags.len() == res.len() <= 32,
        forall|b: int|
            0 <= b < res.len() && #[trigger] flags[b] ==> stream_ms && sv8_stereo_frame::in_scope(
                res[b],
            ),
        coding::readable(
            bits,
            pos,
            sv8_stereo_frame_encode::emit_flags(res, flags, res.len() as int, stream_ms).code,
        ),
    ensures
        sv8_stereo_frame::parse_flags(bits, pos, res, stream_ms) == (
            Ok::<Seq<bool>, Error>(flags),
            pos + sv8_stereo_frame_encode::emit_flags(
                res,
                flags,
                res.len() as int,
                stream_ms,
            ).code.len(),
        ),
{
    let n = res.len() as int;
    if stream_ms {
        let set = sv8_stereo_frame_encode::scoped(res, flags, n);
        lemma_scoped(res, flags, n);
        sv8_stereo_frame::lemma_scope_bound(res, n);
        combinadic::lemma_ones_bound(set);
        let counted = phased::code(combinadic::ones(set), set.len() + 1);
        let named = combinadic::set_code(set);
        bits::lemma_at_concat(bits, pos, counted, named);
        phased::lemma_reads_back(bits, pos, combinadic::ones(set), set.len() + 1);
        combinadic::lemma_set_reads_back(bits, pos + counted.len(), set);
        if set.len() == 0 {
            assert(set =~= Seq::<bool>::empty());
        }
        assert(sv8_stereo_frame::spread_flags(res, set) =~= flags) by {
            assert forall|b: int| 0 <= b < n implies sv8_stereo_frame::spread_flags(res, set)[b]
                == flags[b] by {
                let band = res[b];
                if flags[b] {
                    assert(sv8_stereo_frame::in_scope(band));
                }
            }
        }
    } else {
        assert(Seq::new(res.len(), |b: int| false) =~= flags);
    }
}

/// Written methods of a band read back.
proof fn lemma_methods_read_back(
    tables: Sv8TableSet,
    bits: Seq<bool>,
    pos: nat,
    types: [i8; 2],
    scfi: [u8; 2],
)
    requires
        tables.canonical(),
        types[0] == 0 ==> scfi[0] == 0,
        types[1] == 0 ==> scfi[1] == 0,
        sv8_stereo_frame_encode::emit_methods(tables, types, scfi).result is Ok,
        coding::readable(
            bits,
            pos,
            sv8_stereo_frame_encode::emit_methods(tables, types, scfi).code,
        ),
    ensures
        sv8_stereo_frame::parse_band_methods(tables, bits, pos, types) == (
            Ok::<[u8; 2], Error>(scfi),
            pos + sv8_stereo_frame_encode::emit_methods(tables, types, scfi).code.len(),
        ),
{
    coding::lemma_pair(scfi);
    if sv8_stereo_frame::in_scope(types) {
        if types[0] != 0 && types[1] != 0 {
            let t = tables.table(Sv8TableRole::Scfi, 1);
            assert(t.canonical());
            let s = 4 * scfi[0] + scfi[1];
            assert(s / 4 % 4 == scfi[0] && s % 4 == scfi[1]);
            sv8_huffman_encode::lemma_symbol_reads_back(t, bits, pos, s as i8);
        } else {
            let t = tables.table(Sv8TableRole::Scfi, 0);
            assert(t.canonical());
            let s = if types[0] != 0 {
                scfi[0]
            } else {
                scfi[1]
            };
            sv8_huffman_encode::lemma_symbol_reads_back(t, bits, pos, s as i8);
        }
    }
}

/// Written methods read back.
pub proof fn law_methods_read_back(
    tables: Sv8TableSet,
    bits: Seq<bool>,
    pos: nat,
    res: Seq<[i8; 2]>,
    scfi: Seq<[u8; 2]>,
)
    requires
        tables.canonical(),
        scfi.len() == res.len(),
        forall|b: int, ch: int|
            0 <= b < res.len() && 0 <= ch < 2 && res[b][ch] == 0 ==> #[trigger] scfi[b][ch] == 0,
        ({
            let e = coding::emit_each(
                sv8_stereo_frame_encode::method_emit(tables, res, scfi),
                0,
                res.len() as int,
            );
            e.result is Ok && coding::readable(bits, pos, e.code)
        }),
    ensures
        sv8_stereo_frame::method_sweep(tables, bits, pos, res).parsed() == (
            Ok::<Seq<[u8; 2]>, Error>(scfi),
            pos + coding::emit_each(
                sv8_stereo_frame_encode::method_emit(tables, res, scfi),
                0,
                res.len() as int,
            ).code.len(),
        ),
{
    let parse = sv8_stereo_frame::method_step(tables, bits, res);
    let emit = sv8_stereo_frame_encode::method_emit(tables, res, scfi);
    assert forall|j: int, p: nat|
        0 <= j < scfi.len() && emit(j).result is Ok && coding::readable(
            bits,
            p,
            emit(j).code,
        ) implies #[trigger] parse(scfi.take(j), p) == (
        Ok::<[u8; 2], Error>(scfi[j]),
        (p + emit(j).code.len()) as nat,
    ) by {
        assert(scfi.take(j).len() == j);
        assert(res[j][0] == 0 ==> scfi[j][0] == 0);
        assert(res[j][1] == 0 ==> scfi[j][1] == 0);
        lemma_methods_read_back(tables, bits, p, res[j], scfi[j]);
    }
    assert(scfi.take(0) =~= Seq::<[u8; 2]>::empty());
    coding::lemma_sweep_reads_back(bits, parse, emit, scfi, 0, pos);
}

/// Stepping on by the difference to a scalefactor leads to it.
pub proof fn law_fold_delta(prev: int, target: int)
    requires
        -6 <= target <= 121,
    ensures
        sv8_dscf_loop::fold(prev, sv8_stereo_frame_encode::delta_for(prev, target)) == target,
{
}

/// The difference to a scalefactor that a difference of 0 to 127 led to is that
/// difference.
pub proof fn law_delta_fold(prev: int, delta: int)
    requires
        0 <= delta <= 127,
    ensures
        sv8_stereo_frame_encode::delta_for(prev, sv8_dscf_loop::fold(prev, delta)) == delta,
{
}

/// An announcing symbol and the bits behind it read back.
proof fn lemma_escape_reads_back(
    t: Sv8CanonicalTable,
    bits: Seq<bool>,
    pos: nat,
    symbol: i8,
    raw: nat,
)
    requires
        t.canonical(),
        raw < 64,
        t.emit(symbol).chain(Emit::of(bits::field(raw, 6))).result is Ok,
        coding::readable(bits, pos, t.emit(symbol).chain(Emit::of(bits::field(raw, 6))).code),
    ensures
        t.parse(bits, pos) == (Ok::<i8, Error>(symbol), pos + t.emit(symbol).code.len()),
        bit_reader::read_field(bits, pos + t.emit(symbol).code.len(), 6) == (
            Ok::<u32, Error>(raw as u32),
            pos + t.emit(symbol).chain(Emit::of(bits::field(raw, 6))).code.len(),
        ),
{
    bits::lemma_field_len(raw, 6);
    lemma2_to64();
    bits::lemma_at_concat(bits, pos, t.emit(symbol).code, bits::field(raw, 6));
    sv8_huffman_encode::lemma_symbol_reads_back(t, bits, pos, symbol);
    bits::lemma_field_at(bits, pos + t.emit(symbol).code.len(), raw, 6);
}

proof fn lemma_first_reads_back(
    tables: Sv8TableSet,
    bits: Seq<bool>,
    pos: nat,
    new_block: bool,
    prev: int,
    scf: i32,
)
    requires
        tables.canonical(),
        -6 <= scf <= 121,
        sv8_stereo_frame_encode::emit_first(tables, new_block, prev, scf).result is Ok,
        coding::readable(
            bits,
            pos,
            sv8_stereo_frame_encode::emit_first(tables, new_block, prev, scf).code,
        ),
    ensures
        sv8_dscf_loop::parse_first(tables, bits, pos, new_block, prev) == (
            Ok::<i32, Error>(scf),
            pos + sv8_stereo_frame_encode::emit_first(tables, new_block, prev, scf).code.len(),
        ),
{
    if new_block {
        bits::lemma_field_len((scf + 6) as nat, 7);
        lemma2_to64();
        bits::lemma_field_at(bits, pos, (scf + 6) as nat, 7);
    } else {
        let d = sv8_stereo_frame_encode::delta_for(prev, scf as int);
        law_fold_delta(prev, scf as int);
        let t = tables.table(Sv8TableRole::Dscf, 1);
        assert(t.canonical());
        if d <= 63 {
            sv8_huffman_encode::lemma_symbol_reads_back(t, bits, pos, d as i8);
        } else {
            lemma_escape_reads_back(t, bits, pos, 64, (d - 64) as nat);
        }
    }
}

proof fn lemma_later_reads_back(
    tables: Sv8TableSet,
    bits: Seq<bool>,
    pos: nat,
    coded: bool,
    prev: i32,
    scf: i32,
)
    requires
        tables.canonical(),
        -6 <= scf <= 121,
        sv8_stereo_frame_encode::emit_later(tables, coded, prev, scf).result is Ok,
        coding::readable(
            bits,
            pos,
            sv8_stereo_frame_encode::emit_later(tables, coded, prev, scf).code,
        ),
    ensures
        sv8_dscf_loop::parse_later(tables, bits, pos, coded, prev) == (
            Ok::<i32, Error>(scf),
            pos + sv8_stereo_frame_encode::emit_later(tables, coded, prev, scf).code.len(),
        ),
{
    if coded {
        let d = sv8_stereo_frame_encode::delta_for(prev as int, scf as int);
        law_fold_delta(prev as int, scf as int);
        let t = tables.table(Sv8TableRole::Dscf, 0);
        assert(t.canonical());
        if d <= 63 {
            sv8_huffman_encode::lemma_symbol_reads_back(t, bits, pos, d as i8);
        } else {
            lemma_escape_reads_back(t, bits, pos, 31, (d - 64) as nat);
        }
    }
}

/// Written scalefactors of a channel and band read back.
pub proof fn law_band_scf_reads_back(
    tables: Sv8TableSet,
    bits: Seq<bool>,
    pos: nat,
    new_block: bool,
    prev: int,
    scfi: u8,
    scf: [i32; 3],
)
    requires
        tables.canonical(),
        -6 <= scf[0] <= 121,
        -6 <= scf[1] <= 121,
        -6 <= scf[2] <= 121,
        sv8_stereo_frame_encode::emit_scf(tables, new_block, prev, 1, scfi, scf).result is Ok,
        coding::readable(
            bits,
            pos,
            sv8_stereo_frame_encode::emit_scf(tables, new_block, prev, 1, scfi, scf).code,
        ),
    ensures
        sv8_dscf_loop::parse_band_scf(tables, bits, pos, scfi, new_block, prev) == (
            Ok::<[i32; 3], Error>(scf),
            pos + sv8_stereo_frame_encode::emit_scf(
                tables,
                new_block,
                prev,
                1,
                scfi,
                scf,
            ).code.len(),
        ),
{
    let a = sv8_stereo_frame_encode::emit_first(tables, new_block, prev, scf[0]);
    let two = sv8_dscf_loop::is_coded(scfi as int, 1);
    let three = sv8_dscf_loop::is_coded(scfi as int, 2);
    let b = sv8_stereo_frame_encode::emit_later(tables, two, scf[0], scf[1]);
    let c = sv8_stereo_frame_encode::emit_later(tables, three, scf[1], scf[2]);
    bits::lemma_at_concat(bits, pos, a.code + b.code, c.code);
    bits::lemma_at_concat(bits, pos, a.code, b.code);
    lemma_first_reads_back(tables, bits, pos, new_block, prev, scf[0]);
    let p = pos + a.code.len();
    lemma_later_reads_back(tables, bits, p, two, scf[0], scf[1]);
    let q = p + b.code.len();
    lemma_later_reads_back(tables, bits, q, three, scf[1], scf[2]);
    coding::lemma_triple(scf);
}

/// Written scalefactors read back.
proof fn lemma_scf_read_back(
    tables: Sv8TableSet,
    bits: Seq<bool>,
    pos: nat,
    keyframe: bool,
    memory: FrameMemory,
    res: Seq<[i8; 2]>,
    scfi: Seq<[u8; 2]>,
    scf: Seq<[i32; 3]>,
)
    requires
        tables.canonical(),
        scf.len() == 2 * res.len(),
        forall|i: int| 0 <= i < scf.len() ==> plain_scf(res[i / 2][i % 2], #[trigger] scf[i]),
        ({
            let e = coding::emit_each(
                sv8_stereo_frame_encode::scf_emit(tables, keyframe, memory, res, scfi, scf),
                0,
                scf.len() as int,
            );
            e.result is Ok && coding::readable(bits, pos, e.code)
        }),
    ensures
        sv8_stereo_frame::scf_sweep(tables, bits, pos, keyframe, memory, res, scfi) == (
        coding::Swept {
            done: scf,
            result: Ok(()),
            pos: pos + coding::emit_each(
                sv8_stereo_frame_encode::scf_emit(tables, keyframe, memory, res, scfi, scf),
                0,
                scf.len() as int,
            ).code.len(),
        }),
{
    let parse = sv8_stereo_frame::scf_step(tables, bits, keyframe, memory, res, scfi);
    let emit = sv8_stereo_frame_encode::scf_emit(tables, keyframe, memory, res, scfi, scf);
    assert forall|j: int, p: nat|
        0 <= j < scf.len() && emit(j).result is Ok && coding::readable(
            bits,
            p,
            emit(j).code,
        ) implies #[trigger] parse(scf.take(j), p) == (
        Ok::<[i32; 3], Error>(scf[j]),
        (p + emit(j).code.len()) as nat,
    ) by {
        assert(scf.take(j).len() == j);
        assert(plain_scf(res[j / 2][j % 2], scf[j]));
        if res[j / 2][j % 2] != 0 {
            law_band_scf_reads_back(
                tables,
                bits,
                p,
                sv8_stereo_frame::is_new_block(keyframe, memory, j % 2, j / 2),
                sv8_stereo_frame::reference(memory, j % 2, j / 2),
                scfi[j / 2][j % 2],
                scf[j],
            );
        }
    }
    assert(scf.take(0) =~= Seq::<[i32; 3]>::empty());
    coding::lemma_sweep_reads_back(bits, parse, emit, scf, 0, pos);
}

/// Written levels read back, with what a decoder fills in for those that have no code.
proof fn lemma_levels_read_back(
    tables: Sv8TableSet,
    bits: Seq<bool>,
    pos: nat,
    noise: CnsPrng,
    res: Seq<[i8; 2]>,
    levels: Seq<Seq<i32>>,
)
    requires
        tables.canonical(),
        levels.len() == 2 * res.len(),
        forall|b: int, ch: int|
            0 <= b < res.len() && 0 <= ch < 2 ==> -1 <= #[trigger] res[b][ch] <= 15,
        forall|i: int|
            0 <= i < levels.len() ==> plain_levels(
                res[i / 2][i % 2],
                #[trigger] levels[i],
                sv8_stereo_frame::noise_after(noise, res, i),
            ),
        ({
            let e = coding::emit_each(
                sv8_stereo_frame_encode::level_emit(tables, res, levels),
                0,
                levels.len() as int,
            );
            e.result is Ok && coding::readable(bits, pos, e.code)
        }),
    ensures
        sv8_stereo_frame::level_sweep(tables, bits, pos, noise, res) == (coding::Swept {
            done: levels,
            result: Ok(()),
            pos: pos + coding::emit_each(
                sv8_stereo_frame_encode::level_emit(tables, res, levels),
                0,
                levels.len() as int,
            ).code.len(),
        }),
{
    let parse = sv8_stereo_frame::level_step(tables, bits, noise, res);
    let emit = sv8_stereo_frame_encode::level_emit(tables, res, levels);
    assert forall|j: int, p: nat|
        0 <= j < levels.len() && emit(j).result is Ok && coding::readable(
            bits,
            p,
            emit(j).code,
        ) implies #[trigger] parse(levels.take(j), p) == (
        Ok::<Seq<i32>, Error>(levels[j]),
        (p + emit(j).code.len()) as nat,
    ) by {
        assert(levels.take(j).len() == j);
        let here = sv8_stereo_frame::noise_after(noise, res, j);
        let t = res[j / 2][j % 2];
        assert(-1 <= t <= 15);
        assert(plain_levels(t, levels[j], here));
        if t > 0 {
            sv8_sample_laws::law_levels_read_back(tables, bits, p, t, levels[j], here);
        }
    }
    assert(levels.take(0) =~= Seq::<Seq<i32>>::empty());
    coding::lemma_sweep_reads_back(bits, parse, emit, levels, 0, pos);
}

/// A run that succeeds stops nowhere.
proof fn lemma_never_stopped(step: spec_fn(int) -> Emit, from: int, n: int)
    requires
        from <= n,
        coding::emit_each(step, from, n).result is Ok,
    ensures
        coding::stopped(step, from, n) == n,
    decreases n - from,
{
    if from < n {
        lemma_never_stopped(step, from + 1, n);
    }
}

/// A written head reads back.
proof fn lemma_head_reads_back(
    tables: Sv8TableSet,
    bits: Seq<bool>,
    pos: nat,
    f: StereoFrame,
    stream_ms: bool,
    noise: CnsPrng,
)
    requires
        tables.canonical(),
        plain(f, stream_ms, noise),
        ({
            let e = sv8_stereo_frame_encode::emit_head(tables, f, stream_ms);
            e.result is Ok && coding::readable(bits, pos, e.code)
        }),
    ensures
        ({
            let e = sv8_stereo_frame_encode::emit_head(tables, f, stream_ms);
            let types = sv8_band_header::parse_type_pairs(tables, bits, pos, f.nbands as nat);
            let flags = sv8_stereo_frame::parse_flags(bits, types.1, f.res, stream_ms);
            let methods = sv8_stereo_frame::method_sweep(tables, bits, flags.1, f.res).parsed();
            &&& types.0 == Ok::<Seq<[i8; 2]>, Error>(f.res)
            &&& flags.0 == Ok::<Seq<bool>, Error>(f.ms_flags)
            &&& methods.0 == Ok::<Seq<[u8; 2]>, Error>(f.scfi)
            &&& methods.1 == pos + e.code.len()
        }),
{
    reveal(plain);
    let n = f.nbands as int;
    let types = coding::emit_each(sv8_stereo_frame_encode::type_emit(tables, f.res, n), 0, n);
    let flags = sv8_stereo_frame_encode::emit_flags(f.res, f.ms_flags, n, stream_ms);
    let methods = coding::emit_each(
        sv8_stereo_frame_encode::method_emit(tables, f.res, f.scfi),
        0,
        n,
    );
    bits::lemma_at_concat(bits, pos, types.code + flags.code, methods.code);
    bits::lemma_at_concat(bits, pos, types.code, flags.code);
    let p1 = pos + types.code.len();
    let p2 = p1 + flags.code.len();
    law_types_read_back(tables, bits, pos, f.res);
    law_flags_read_back(bits, p1, f.res, f.ms_flags, stream_ms);
    law_methods_read_back(tables, bits, p2, f.res, f.scfi);
}

/// Written scalefactors and levels read back.
proof fn lemma_values_read_back(
    tables: Sv8TableSet,
    bits: Seq<bool>,
    pos: nat,
    f: StereoFrame,
    keyframe: bool,
    stream_ms: bool,
    memory: FrameMemory,
    noise: CnsPrng,
)
    requires
        tables.canonical(),
        plain(f, stream_ms, noise),
        memory.last_nbands == f.nbands,
        ({
            let n = 2 * f.nbands as int;
            let scf = coding::emit_each(
                sv8_stereo_frame_encode::scf_emit(
                    tables,
                    keyframe,
                    memory,
                    f.res,
                    f.scfi,
                    f.scf,
                ),
                0,
                n,
            );
            let levels = coding::emit_each(
                sv8_stereo_frame_encode::level_emit(tables, f.res, f.levels),
                0,
                n,
            );
            &&& scf.result is Ok
            &&& levels.result is Ok
            &&& coding::readable(bits, pos, scf.code + levels.code)
        }),
    ensures
        ({
            let n = 2 * f.nbands as int;
            let step = sv8_stereo_frame_encode::scf_emit(
                tables,
                keyframe,
                memory,
                f.res,
                f.scfi,
                f.scf,
            );
            let scf = coding::emit_each(step, 0, n);
            let levels = coding::emit_each(
                sv8_stereo_frame_encode::level_emit(tables, f.res, f.levels),
                0,
                n,
            );
            sv8_stereo_frame::values_read(
                tables,
                bits,
                pos,
                keyframe,
                memory,
                noise,
                f.res,
                f.ms_flags,
                f.scfi,
            ) == (FrameRead {
                result: Ok(f),
                pos: pos + scf.code.len() + levels.code.len(),
                memory: sv8_stereo_frame::memory_after(
                    memory,
                    f.res,
                    f.scf.take(coding::stopped(step, 0, n)),
                ),
                noise: sv8_stereo_frame::noise_after(noise, f.res, n),
            })
        }),
{
    reveal(plain);
    let n = 2 * f.nbands as int;
    let step = sv8_stereo_frame_encode::scf_emit(
        tables,
        keyframe,
        memory,
        f.res,
        f.scfi,
        f.scf,
    );
    let scf = coding::emit_each(step, 0, n);
    let levels = coding::emit_each(
        sv8_stereo_frame_encode::level_emit(tables, f.res, f.levels),
        0,
        n,
    );
    bits::lemma_at_concat(bits, pos, scf.code, levels.code);
    lemma_scf_read_back(tables, bits, pos, keyframe, memory, f.res, f.scfi, f.scf);
    lemma_levels_read_back(
        tables,
        bits,
        pos + scf.code.len(),
        noise,
        f.res,
        f.levels,
    );
    lemma_never_stopped(step, 0, n);
    assert(f.scf.take(n) =~= f.scf);
}

/// What was written behind the used-band count reads back.
proof fn lemma_body_reads_back(
    tables: Sv8TableSet,
    bits: Seq<bool>,
    pos: nat,
    f: StereoFrame,
    keyframe: bool,
    stream_ms: bool,
    memory: FrameMemory,
    noise: CnsPrng,
)
    requires
        tables.canonical(),
        plain(f, stream_ms, noise),
        memory.last_nbands == f.nbands,
        ({
            let w = sv8_stereo_frame_encode::body_write(tables, f, keyframe, stream_ms, memory);
            w.emit.result is Ok && coding::readable(bits, pos, w.emit.code)
        }),
    ensures
        ({
            let w = sv8_stereo_frame_encode::body_write(tables, f, keyframe, stream_ms, memory);
            sv8_stereo_frame::body_read(
                tables,
                bits,
                pos,
                keyframe,
                stream_ms,
                memory,
                noise,
            ) == (FrameRead {
                result: Ok(f),
                pos: pos + w.emit.code.len(),
                memory: w.memory,
                noise: sv8_stereo_frame::noise_after(noise, f.res, 2 * f.nbands),
            })
        }),
{
    let n = 2 * f.nbands as int;
    let head = sv8_stereo_frame_encode::emit_head(tables, f, stream_ms);
    let scf = coding::emit_each(
        sv8_stereo_frame_encode::scf_emit(tables, keyframe, memory, f.res, f.scfi, f.scf),
        0,
        n,
    );
    let levels = coding::emit_each(
        sv8_stereo_frame_encode::level_emit(tables, f.res, f.levels),
        0,
        n,
    );
    assert(head.code + scf.code + levels.code =~= head.code + (scf.code + levels.code));
    bits::lemma_at_concat(bits, pos, head.code, scf.code + levels.code);
    lemma_head_reads_back(tables, bits, pos, f, stream_ms, noise);
    lemma_values_read_back(
        tables,
        bits,
        pos + head.code.len(),
        f,
        keyframe,
        stream_ms,
        memory,
        noise,
    );
}

/// An encoded frame decodes to itself; the reader stands behind it, and the decoder is
/// left with the state that the encoder is left with.
pub proof fn law_frame_reads_back(
    tables: Sv8TableSet,
    bits: Seq<bool>,
    pos: nat,
    f: StereoFrame,
    max_band: u8,
    keyframe: bool,
    stream_ms: bool,
    memory: FrameMemory,
    noise: CnsPrng,
)
    requires
        tables.canonical(),
        plain(f, stream_ms, noise),
        keyframe || memory.last_nbands <= 32,
        ({
            let w = sv8_stereo_frame_encode::frame_write(
                tables,
                f,
                max_band,
                keyframe,
                stream_ms,
                memory,
            );
            w.emit.result is Ok && coding::readable(bits, pos, w.emit.code)
        }),
    ensures
        ({
            let w = sv8_stereo_frame_encode::frame_write(
                tables,
                f,
                max_band,
                keyframe,
                stream_ms,
                memory,
            );
            sv8_stereo_frame::frame_read(
                tables,
                bits,
                pos,
                max_band,
                keyframe,
                stream_ms,
                memory,
                noise,
            ) == (FrameRead {
                result: Ok(f),
                pos: pos + w.emit.code.len(),
                memory: w.memory,
                noise: sv8_stereo_frame::noise_after(noise, f.res, 2 * f.nbands),
            })
        }),
{
    reveal(sv8_stereo_frame::frame_read);
    reveal(sv8_stereo_frame_encode::frame_write);
    assert(f.nbands <= 32) by {
        reveal(plain);
    }
    let m = memory.with_count(f.nbands);
    let count = sv8_stereo_frame_encode::emit_count(
        tables,
        max_band,
        keyframe,
        memory.last_nbands,
        f.nbands,
    );
    let body = sv8_stereo_frame_encode::body_write(tables, f, keyframe, stream_ms, m);
    bits::lemma_at_concat(bits, pos, count.code, body.emit.code);
    law_count_reads_back(tables, bits, pos, max_band, keyframe, memory.last_nbands, f.nbands);
    lemma_body_reads_back(
        tables,
        bits,
        pos + count.code.len(),
        f,
        keyframe,
        stream_ms,
        m,
        noise,
    );
}

// ---------------------------------------------------------------------------
// What was decoded encodes to what was read
// ---------------------------------------------------------------------------

/// The symbols of a code lie in a range.
pub open spec fn within(t: Sv8CanonicalTable, lo: int, hi: int) -> bool {
    forall|i: int| 0 <= i < t.symbols@.len() ==> lo <= #[trigger] t.symbols@[i] <= hi
}

/// Each value of a frame's head and scalefactors has one symbol: the count's symbols are
/// not 33 apart, and the others are the residues that the decoder reduces to.
pub open spec fn unambiguous(tables: Sv8TableSet) -> bool {
    &&& forall|i: int, j: int|
        0 <= i < tables.bands.symbols@.len() && 0 <= j < tables.bands.symbols@.len()
            ==> #[trigger] tables.bands.symbols@[i] - #[trigger] tables.bands.symbols@[j] != 33
    &&& within(tables.res[0], 0, 16)
    &&& within(tables.res[1], 0, 16)
    &&& within(tables.scfi[0], 0, 3)
    &&& within(tables.scfi[1], 0, 15)
    &&& within(tables.dscf[0], 0, 63)
    &&& within(tables.dscf[1], 0, 64)
}

/// A decoded symbol is one of the code's.
proof fn lemma_symbol_known(t: Sv8CanonicalTable, bits: Seq<bool>, pos: nat)
    requires
        t.parse(bits, pos).0 is Ok,
    ensures
        exists|i: int|
            0 <= i < t.symbols@.len() && #[trigger] t.symbols@[i] == t.parse(bits, pos).0->Ok_0,
{
    let i = t.parse_index(bits, pos).0->Ok_0;
    assert(t.symbols@[i as int] == t.parse(bits, pos).0->Ok_0);
}

/// A decoded used-band count encodes to what was read.
pub proof fn law_count_writes_back(
    tables: Sv8TableSet,
    bits: Seq<bool>,
    pos: nat,
    max_band: u8,
    keyframe: bool,
    last: u8,
)
    requires
        tables.reversible(),
        unambiguous(tables),
        !keyframe || max_band < 255,
        keyframe || last <= 32,
        sv8_stereo_frame::parse_used_bands(
            tables,
            bits,
            pos,
            max_band,
            keyframe,
            last,
        ).0 is Ok,
    ensures
        ({
            let read = sv8_stereo_frame::parse_used_bands(
                tables,
                bits,
                pos,
                max_band,
                keyframe,
                last,
            );
            let e = sv8_stereo_frame_encode::emit_count(
                tables,
                max_band,
                keyframe,
                last,
                read.0->Ok_0,
            );
            e.result is Ok && coding::consumed(bits, pos, read, e.code)
        }),
{
    if keyframe {
        phased::lemma_writes_back(bits, pos, (max_band + 2) as nat);
    } else {
        let t = tables.table(Sv8TableRole::Bands, 0);
        assert(t.reversible());
        sv8_huffman_encode::lemma_symbol_writes_back(t, bits, pos);
        lemma_symbol_known(t, bits, pos);
        let s = t.parse(bits, pos).0->Ok_0;
        let nbands = sv8_band_header::next_count(last as int, s as int);
        let d = nbands - last;
        assert(sv8_stereo_frame_encode::low_byte(d) == d);
        sv8_huffman_encode::lemma_position(t.symbols@, 0, d as i8);
        let i = choose|i: int| 0 <= i < t.symbols@.len() && #[trigger] t.symbols@[i] == s;
        assert(t.symbols@[i] == s);
        if sv8_huffman_encode::position(t.symbols@, 0, d as i8) is Some {
            let j = sv8_huffman_encode::position(t.symbols@, 0, d as i8)->0;
            assert(t.symbols@[i] - t.symbols@[j] != 33);
            assert(d == s);
        } else {
            assert(d != s);
        }
    }
}

/// A decoded band type lies in range and encodes to what was read.
proof fn lemma_type_writes_back(tables: Sv8TableSet, bits: Seq<bool>, pos: nat, above: Option<i8>)
    requires
        tables.reversible(),
        unambiguous(tables),
        above is Some ==> -1 <= above->0 <= 15,
        sv8_band_header::parse_type(tables, bits, pos, above).0 is Ok,
    ensures
        ({
            let read = sv8_band_header::parse_type(tables, bits, pos, above);
            let e = sv8_stereo_frame_encode::emit_type(tables, above, read.0->Ok_0);
            &&& -1 <= read.0->Ok_0 <= 15
            &&& e.result is Ok
            &&& coding::consumed(bits, pos, read, e.code)
        }),
{
    let t = tables.table(Sv8TableRole::Res, sv8_band_header::context_under(above));
    assert(t.reversible());
    assert(within(t, 0, 16));
    sv8_huffman_encode::lemma_symbol_writes_back(t, bits, pos);
    lemma_symbol_known(t, bits, pos);
    let s = t.parse(bits, pos).0->Ok_0;
    assert(0 <= s <= 16);
    let v = sv8_band_header::parse_type(tables, bits, pos, above).0->Ok_0;
    assert(sv8_stereo_frame_encode::type_symbol(above, v) == s);
}

/// A run whose steps keep a property of its values, given that the values before have it.
proof fn lemma_types_in_range(
    tables: Sv8TableSet,
    bits: Seq<bool>,
    n: nat,
    done: Seq<[i8; 2]>,
    pos: nat,
)
    requires
        tables.reversible(),
        unambiguous(tables),
        forall|i: int|
            0 <= i < done.len() ==> -1 <= (#[trigger] done[i])[0] <= 15 && -1 <= done[i][1] <= 15,
    ensures
        ({
            let all = coding::sweep(
                sv8_band_header::type_pair_step(tables, bits),
                n,
                done,
                pos,
            ).done;
            forall|i: int|
                0 <= i < all.len() ==> -1 <= (#[trigger] all[i])[0] <= 15 && -1 <= all[i][1] <= 15
        }),
    decreases n - done.len(),
{
    let step = sv8_band_header::type_pair_step(tables, bits);
    if done.len() < n {
        match step(done, pos) {
            (Ok(v), p) => {
                let left = sv8_band_header::pair_above(done, 0);
                let right = sv8_band_header::pair_above(done, 1);
                if done.len() > 0 {
                    assert(-1 <= done[done.len() - 1][0] <= 15);
                }
                lemma_type_writes_back(tables, bits, pos, left);
                let q = sv8_band_header::parse_type(tables, bits, pos, left).1;
                lemma_type_writes_back(tables, bits, q, right);
                assert(-1 <= v[0] <= 15 && -1 <= v[1] <= 15);
                lemma_types_in_range(tables, bits, n, done.push(v), p);
            },
            (Err(e), p) => {},
        }
    }
}

/// Decoded band types lie in range and encode to what was read.
pub proof fn law_types_write_back(tables: Sv8TableSet, bits: Seq<bool>, pos: nat, n: nat)
    requires
        tables.reversible(),
        unambiguous(tables),
        pos <= bits.len(),
        sv8_band_header::parse_type_pairs(tables, bits, pos, n).0 is Ok,
    ensures
        ({
            let read = sv8_band_header::parse_type_pairs(tables, bits, pos, n);
            let res = read.0->Ok_0;
            let e = coding::emit_each(
                sv8_stereo_frame_encode::type_emit(tables, res, n as int),
                0,
                n as int,
            );
            &&& res.len() == n
            &&& forall|b: int, ch: int|
                0 <= b < n && 0 <= ch < 2 ==> -1 <= #[trigger] res[b][ch] <= 15
            &&& e.result is Ok
            &&& coding::consumed(bits, pos, read, e.code)
        }),
{
    let parse = sv8_band_header::type_pair_step(tables, bits);
    let run = sv8_band_header::type_pairs_down(tables, bits, pos, n);
    let items = run.done;
    let res = items.reverse();
    coding::lemma_sweep_extends(parse, n, Seq::<[i8; 2]>::empty(), pos);
    lemma_types_in_range(tables, bits, n, Seq::empty(), pos);
    let emit = sv8_stereo_frame_encode::type_emit(tables, res, n as int);
    assert forall|j: int, x: nat|
        0 <= j < items.len() && x <= bits.len() && (#[trigger] parse(items.take(j), x)).0 == Ok::<
            [i8; 2],
            Error,
        >(items[j]) implies emit(j).result is Ok && coding::consumed(
        bits,
        x,
        parse(items.take(j), x),
        emit(j).code,
    ) by {
        let b = n - 1 - j;
        let left = sv8_stereo_frame_encode::type_above(res, n as int, b, 0);
        let right = sv8_stereo_frame_encode::type_above(res, n as int, b, 1);
        assert(res[b] == items[j]);
        if j > 0 {
            assert(items.take(j).last() == items[j - 1]);
            assert(res[b + 1] == items[j - 1]);
        }
        assert(sv8_band_header::pair_above(items.take(j), 0) == left);
        assert(sv8_band_header::pair_above(items.take(j), 1) == right);
        let (l, y) = sv8_band_header::parse_type(tables, bits, x, left);
        let (r, z) = sv8_band_header::parse_type(tables, bits, y, right);
        assert(items[j] == [l->Ok_0, r->Ok_0]);
        assert(items[j][0] == l->Ok_0 && items[j][1] == r->Ok_0);
        lemma_type_writes_back(tables, bits, x, left);
        lemma_type_writes_back(tables, bits, y, right);
        let first = sv8_stereo_frame_encode::emit_type(tables, left, res[b][0]);
        let second = sv8_stereo_frame_encode::emit_type(tables, right, res[b][1]);
        assert(emit(j) == first.chain(second));
        bits::lemma_at_concat(bits, x, first.code, second.code);
    }
    assert(items.take(0) =~= Seq::<[i8; 2]>::empty());
    coding::lemma_sweep_writes_back(bits, parse, emit, items, 0, pos);
    assert forall|b: int, ch: int| 0 <= b < n && 0 <= ch < 2 implies -1 <= #[trigger] res[b][ch]
        <= 15 by {
        assert(res[b] == items[n - 1 - b]);
    }
}

/// Decoded mid/side flags encode to what was read.
pub proof fn law_flags_write_back(
    bits: Seq<bool>,
    pos: nat,
    res: Seq<[i8; 2]>,
    stream_ms: bool,
)
    requires
        res.len() <= 32,
        pos <= bits.len(),
        sv8_stereo_frame::parse_flags(bits, pos, res, stream_ms).0 is Ok,
    ensures
        ({
            let read = sv8_stereo_frame::parse_flags(bits, pos, res, stream_ms);
            let e = sv8_stereo_frame_encode::emit_flags(
                res,
                read.0->Ok_0,
                res.len() as int,
                stream_ms,
            );
            &&& read.0->Ok_0.len() == res.len()
            &&& e.result is Ok
            &&& coding::consumed(bits, pos, read, e.code)
        }),
{
    let n = res.len() as int;
    assert(bits.subrange(pos as int, pos as int) =~= Seq::<bool>::empty());
    if stream_ms {
        let k = sv8_stereo_frame::scope_below(res, n);
        sv8_stereo_frame::lemma_scope_bound(res, n);
        let (r, p) = sv8_band_header::parse_ms_flags(bits, pos, k);
        let flags = r->Ok_0;
        if k == 0 {
            assert(combinadic::ones(flags) == 0);
            assert(phased::code(0, 1) =~= Seq::<bool>::empty());
            assert(sv8_stereo_frame_encode::flags_code(flags) =~= Seq::<bool>::empty());
        } else {
            phased::lemma_writes_back(bits, pos, k + 1);
            let (c, q) = phased::parse(bits, pos, k + 1);
            combinadic::lemma_set_writes_back(bits, q, c->Ok_0 as nat, k);
            bits::lemma_at_concat(
                bits,
                pos,
                phased::code(c->Ok_0 as nat, k + 1),
                combinadic::set_code(flags),
            );
        }
        let spread = sv8_stereo_frame::spread_flags(res, flags);
        lemma_scoped(res, spread, n);
        let back = sv8_stereo_frame_encode::scoped(res, spread, n);
        assert forall|i: int| 0 <= i < k implies back[i] == flags[i] by {
            let b = lemma_scope_onto(res, n, i);
            let band = res[b];
            assert(back[sv8_stereo_frame::scope_below(res, b) as int] == spread[b]);
        }
        assert(back =~= flags);
    }
}

/// Decoded methods of a band encode to what was read.
proof fn lemma_methods_write_back(tables: Sv8TableSet, bits: Seq<bool>, pos: nat, types: [i8; 2])
    requires
        tables.reversible(),
        unambiguous(tables),
        pos <= bits.len(),
        sv8_stereo_frame::parse_band_methods(tables, bits, pos, types).0 is Ok,
    ensures
        ({
            let read = sv8_stereo_frame::parse_band_methods(tables, bits, pos, types);
            let e = sv8_stereo_frame_encode::emit_methods(tables, types, read.0->Ok_0);
            e.result is Ok && coding::consumed(bits, pos, read, e.code)
        }),
{
    assert(bits.subrange(pos as int, pos as int) =~= Seq::<bool>::empty());
    if sv8_stereo_frame::in_scope(types) {
        let both = types[0] != 0 && types[1] != 0;
        let t = tables.table(
            Sv8TableRole::Scfi,
            if both {
                1
            } else {
                0
            },
        );
        assert(t.reversible());
        sv8_huffman_encode::lemma_symbol_writes_back(t, bits, pos);
        lemma_symbol_known(t, bits, pos);
        let s = t.parse(bits, pos).0->Ok_0;
        if both {
            assert(within(tables.scfi[1], 0, 15));
            assert(0 <= s <= 15);
            assert(4 * (s as int / 4 % 4) + s as int % 4 == s);
        } else {
            assert(within(tables.scfi[0], 0, 3));
            assert(0 <= s <= 3);
        }
    }
}

/// Decoded methods encode to what was read.
pub proof fn law_methods_write_back(
    tables: Sv8TableSet,
    bits: Seq<bool>,
    pos: nat,
    res: Seq<[i8; 2]>,
)
    requires
        tables.reversible(),
        unambiguous(tables),
        pos <= bits.len(),
        sv8_stereo_frame::method_sweep(tables, bits, pos, res).result is Ok,
    ensures
        ({
            let read = sv8_stereo_frame::method_sweep(tables, bits, pos, res);
            let e = coding::emit_each(
                sv8_stereo_frame_encode::method_emit(tables, res, read.done),
                0,
                res.len() as int,
            );
            &&& read.done.len() == res.len()
            &&& e.result is Ok
            &&& bits::at(bits, pos, e.code)
            &&& read.pos == pos + e.code.len()
        }),
{
    let parse = sv8_stereo_frame::method_step(tables, bits, res);
    let items = sv8_stereo_frame::method_sweep(tables, bits, pos, res).done;
    let emit = sv8_stereo_frame_encode::method_emit(tables, res, items);
    coding::lemma_sweep_extends(parse, res.len(), Seq::<[u8; 2]>::empty(), pos);
    assert forall|j: int, x: nat|
        0 <= j < items.len() && x <= bits.len() && (#[trigger] parse(items.take(j), x)).0 == Ok::<
            [u8; 2],
            Error,
        >(items[j]) implies emit(j).result is Ok && coding::consumed(
        bits,
        x,
        parse(items.take(j), x),
        emit(j).code,
    ) by {
        assert(items.take(j).len() == j);
        lemma_methods_write_back(tables, bits, x, res[j]);
    }
    assert(items.take(0) =~= Seq::<[u8; 2]>::empty());
    coding::lemma_sweep_writes_back(bits, parse, emit, items, 0, pos);
}

/// The raw bits behind an announcing symbol are what they were read from.
proof fn lemma_escape_writes_back(bits: Seq<bool>, pos: nat, t: Sv8CanonicalTable)
    requires
        t.reversible(),
        t.parse(bits, pos).0 is Ok,
        bit_reader::read_field(bits, t.parse(bits, pos).1, 6).0 is Ok,
    ensures
        ({
            let (s, p) = t.parse(bits, pos);
            let (raw, q) = bit_reader::read_field(bits, p, 6);
            let e = t.emit(s->Ok_0).chain(Emit::of(bits::field(raw->Ok_0 as nat, 6)));
            &&& raw->Ok_0 < 64
            &&& e.result is Ok
            &&& bits::at(bits, pos, e.code)
            &&& q == pos + e.code.len()
        }),
{
    sv8_huffman_encode::lemma_symbol_writes_back(t, bits, pos);
    let (s, p) = t.parse(bits, pos);
    let part = bits.subrange(p as int, p + 6int);
    bits::lemma_value_bound(part);
    bits::lemma_bits_of_value(part);
    lemma2_to64();
    bits::lemma_field_len(bits::value(part), 6);
    bits::lemma_at_concat(bits, pos, t.emit(s->Ok_0).code, bits::field(bits::value(part), 6));
}

proof fn lemma_first_writes_back(
    tables: Sv8TableSet,
    bits: Seq<bool>,
    pos: nat,
    new_block: bool,
    prev: int,
)
    requires
        tables.reversible(),
        unambiguous(tables),
        sv8_dscf_loop::parse_first(tables, bits, pos, new_block, prev).0 is Ok,
    ensures
        ({
            let read = sv8_dscf_loop::parse_first(tables, bits, pos, new_block, prev);
            let e = sv8_stereo_frame_encode::emit_first(tables, new_block, prev, read.0->Ok_0);
            e.result is Ok && coding::consumed(bits, pos, read, e.code)
        }),
{
    if new_block {
        let part = bits.subrange(pos as int, pos + 7int);
        bits::lemma_value_bound(part);
        bits::lemma_bits_of_value(part);
        lemma2_to64();
        bits::lemma_field_len(bits::value(part), 7);
    } else {
        let t = tables.table(Sv8TableRole::Dscf, 1);
        assert(t.reversible());
        sv8_huffman_encode::lemma_symbol_writes_back(t, bits, pos);
        lemma_symbol_known(t, bits, pos);
        let s = t.parse(bits, pos).0->Ok_0;
        assert(within(tables.dscf[1], 0, 64));
        assert(0 <= s <= 64);
        if s == 64 {
            lemma_escape_writes_back(bits, pos, t);
        }
        let d = sv8_dscf_loop::parse_first_delta(tables, bits, pos).0->Ok_0;
        law_delta_fold(prev, d as int);
    }
}

proof fn lemma_later_writes_back(
    tables: Sv8TableSet,
    bits: Seq<bool>,
    pos: nat,
    coded: bool,
    prev: i32,
)
    requires
        tables.reversible(),
        unambiguous(tables),
        pos <= bits.len(),
        sv8_dscf_loop::parse_later(tables, bits, pos, coded, prev).0 is Ok,
    ensures
        ({
            let read = sv8_dscf_loop::parse_later(tables, bits, pos, coded, prev);
            let e = sv8_stereo_frame_encode::emit_later(tables, coded, prev, read.0->Ok_0);
            e.result is Ok && coding::consumed(bits, pos, read, e.code)
        }),
{
    assert(bits.subrange(pos as int, pos as int) =~= Seq::<bool>::empty());
    if coded {
        let t = tables.table(Sv8TableRole::Dscf, 0);
        assert(t.reversible());
        sv8_huffman_encode::lemma_symbol_writes_back(t, bits, pos);
        lemma_symbol_known(t, bits, pos);
        let s = t.parse(bits, pos).0->Ok_0;
        assert(within(tables.dscf[0], 0, 63));
        assert(0 <= s <= 63);
        if s == 31 {
            lemma_escape_writes_back(bits, pos, t);
        }
        let d = sv8_dscf_loop::parse_later_delta(tables, bits, pos).0->Ok_0;
        law_delta_fold(prev as int, d as int);
    }
}

/// Decoded scalefactors of a channel and band encode to what was read.
pub proof fn law_band_scf_writes_back(
    tables: Sv8TableSet,
    bits: Seq<bool>,
    pos: nat,
    scfi: u8,
    new_block: bool,
    prev: int,
)
    requires
        tables.reversible(),
        unambiguous(tables),
        sv8_dscf_loop::parse_band_scf(tables, bits, pos, scfi, new_block, prev).0 is Ok,
    ensures
        ({
            let read = sv8_dscf_loop::parse_band_scf(tables, bits, pos, scfi, new_block, prev);
            let e = sv8_stereo_frame_encode::emit_scf(
                tables,
                new_block,
                prev,
                1,
                scfi,
                read.0->Ok_0,
            );
            e.result is Ok && coding::consumed(bits, pos, read, e.code)
        }),
{
    let two = sv8_dscf_loop::is_coded(scfi as int, 1);
    let three = sv8_dscf_loop::is_coded(scfi as int, 2);
    let (x, p) = sv8_dscf_loop::parse_first(tables, bits, pos, new_block, prev);
    lemma_first_writes_back(tables, bits, pos, new_block, prev);
    let (y, q) = sv8_dscf_loop::parse_later(tables, bits, p, two, x->Ok_0);
    lemma_later_writes_back(tables, bits, p, two, x->Ok_0);
    let (z, s) = sv8_dscf_loop::parse_later(tables, bits, q, three, y->Ok_0);
    lemma_later_writes_back(tables, bits, q, three, y->Ok_0);
    let scf = sv8_dscf_loop::parse_band_scf(tables, bits, pos, scfi, new_block, prev).0->Ok_0;
    assert(scf == [x->Ok_0, y->Ok_0, z->Ok_0]);
    assert(scf[0] == x->Ok_0 && scf[1] == y->Ok_0 && scf[2] == z->Ok_0);
    let a = sv8_stereo_frame_encode::emit_first(tables, new_block, prev, scf[0]);
    let b = sv8_stereo_frame_encode::emit_later(tables, two, scf[0], scf[1]);
    let c = sv8_stereo_frame_encode::emit_later(tables, three, scf[1], scf[2]);
    bits::lemma_at_concat(bits, pos, a.code, b.code);
    bits::lemma_at_concat(bits, pos, a.code + b.code, c.code);
}

/// Decoded scalefactors encode to what was read.
proof fn lemma_scf_write_back(
    tables: Sv8TableSet,
    bits: Seq<bool>,
    pos: nat,
    keyframe: bool,
    memory: FrameMemory,
    res: Seq<[i8; 2]>,
    scfi: Seq<[u8; 2]>,
)
    requires
        tables.reversible(),
        unambiguous(tables),
        pos <= bits.len(),
        sv8_stereo_frame::scf_sweep(tables, bits, pos, keyframe, memory, res, scfi).result is Ok,
    ensures
        ({
            let read = sv8_stereo_frame::scf_sweep(
                tables,
                bits,
                pos,
                keyframe,
                memory,
                res,
                scfi,
            );
            let e = coding::emit_each(
                sv8_stereo_frame_encode::scf_emit(tables, keyframe, memory, res, scfi, read.done),
                0,
                2 * res.len() as int,
            );
            &&& read.done.len() == 2 * res.len()
            &&& e.result is Ok
            &&& bits::at(bits, pos, e.code)
            &&& read.pos == pos + e.code.len()
        }),
{
    let parse = sv8_stereo_frame::scf_step(tables, bits, keyframe, memory, res, scfi);
    let items = sv8_stereo_frame::scf_sweep(
        tables,
        bits,
        pos,
        keyframe,
        memory,
        res,
        scfi,
    ).done;
    let emit = sv8_stereo_frame_encode::scf_emit(tables, keyframe, memory, res, scfi, items);
    coding::lemma_sweep_extends(parse, 2 * res.len(), Seq::<[i32; 3]>::empty(), pos);
    assert forall|j: int, x: nat|
        0 <= j < items.len() && x <= bits.len() && (#[trigger] parse(items.take(j), x)).0 == Ok::<
            [i32; 3],
            Error,
        >(items[j]) implies emit(j).result is Ok && coding::consumed(
        bits,
        x,
        parse(items.take(j), x),
        emit(j).code,
    ) by {
        assert(items.take(j).len() == j);
        if res[j / 2][j % 2] != 0 {
            law_band_scf_writes_back(
                tables,
                bits,
                x,
                scfi[j / 2][j % 2],
                sv8_stereo_frame::is_new_block(keyframe, memory, j % 2, j / 2),
                sv8_stereo_frame::reference(memory, j % 2, j / 2),
            );
        } else {
            assert(bits.subrange(x as int, x as int) =~= Seq::<bool>::empty());
        }
    }
    assert(items.take(0) =~= Seq::<[i32; 3]>::empty());
    coding::lemma_sweep_writes_back(bits, parse, emit, items, 0, pos);
}

/// Decoded levels encode to what was read.
proof fn lemma_levels_write_back(
    tables: Sv8TableSet,
    bits: Seq<bool>,
    pos: nat,
    noise: CnsPrng,
    res: Seq<[i8; 2]>,
)
    requires
        tables.reversible(),
        pos <= bits.len(),
        forall|b: int, ch: int|
            0 <= b < res.len() && 0 <= ch < 2 ==> -1 <= #[trigger] res[b][ch] <= 15,
        sv8_stereo_frame::level_sweep(tables, bits, pos, noise, res).result is Ok,
    ensures
        ({
            let read = sv8_stereo_frame::level_sweep(tables, bits, pos, noise, res);
            let e = coding::emit_each(
                sv8_stereo_frame_encode::level_emit(tables, res, read.done),
                0,
                2 * res.len() as int,
            );
            &&& read.done.len() == 2 * res.len()
            &&& e.result is Ok
            &&& bits::at(bits, pos, e.code)
            &&& read.pos == pos + e.code.len()
        }),
{
    let parse = sv8_stereo_frame::level_step(tables, bits, noise, res);
    let items = sv8_stereo_frame::level_sweep(tables, bits, pos, noise, res).done;
    let emit = sv8_stereo_frame_encode::level_emit(tables, res, items);
    coding::lemma_sweep_extends(parse, 2 * res.len(), Seq::<Seq<i32>>::empty(), pos);
    assert forall|j: int, x: nat|
        0 <= j < items.len() && x <= bits.len() && (#[trigger] parse(items.take(j), x)).0 == Ok::<
            Seq<i32>,
            Error,
        >(items[j]) implies emit(j).result is Ok && coding::consumed(
        bits,
        x,
        parse(items.take(j), x),
        emit(j).code,
    ) by {
        assert(items.take(j).len() == j);
        let here = sv8_stereo_frame::noise_after(noise, res, j);
        let t = res[j / 2][j % 2];
        assert(-1 <= t <= 15);
        if t > 0 {
            sv8_sample_laws::law_levels_write_back(tables, bits, x, t, here);
        } else {
            assert(bits.subrange(x as int, x as int) =~= Seq::<bool>::empty());
        }
    }
    assert(items.take(0) =~= Seq::<Seq<i32>>::empty());
    coding::lemma_sweep_writes_back(bits, parse, emit, items, 0, pos);
}

/// A decoded head encodes to what was read.
proof fn lemma_head_writes_back(
    tables: Sv8TableSet,
    bits: Seq<bool>,
    pos: nat,
    f: StereoFrame,
    stream_ms: bool,
)
    requires
        tables.reversible(),
        unambiguous(tables),
        pos <= bits.len(),
        f.nbands <= 32,
        ({
            let types = sv8_band_header::parse_type_pairs(tables, bits, pos, f.nbands as nat);
            let flags = sv8_stereo_frame::parse_flags(bits, types.1, f.res, stream_ms);
            let methods = sv8_stereo_frame::method_sweep(tables, bits, flags.1, f.res);
            &&& types.0 == Ok::<Seq<[i8; 2]>, Error>(f.res)
            &&& flags.0 == Ok::<Seq<bool>, Error>(f.ms_flags)
            &&& methods.result is Ok
            &&& methods.done == f.scfi
        }),
    ensures
        ({
            let types = sv8_band_header::parse_type_pairs(tables, bits, pos, f.nbands as nat);
            let flags = sv8_stereo_frame::parse_flags(bits, types.1, f.res, stream_ms);
            let methods = sv8_stereo_frame::method_sweep(tables, bits, flags.1, f.res);
            let e = sv8_stereo_frame_encode::emit_head(tables, f, stream_ms);
            &&& f.res.len() == f.nbands
            &&& f.ms_flags.len() == f.nbands
            &&& f.scfi.len() == f.nbands
            &&& forall|b: int, ch: int|
                0 <= b < f.nbands && 0 <= ch < 2 ==> -1 <= #[trigger] f.res[b][ch] <= 15
            &&& e.result is Ok
            &&& bits::at(bits, pos, e.code)
            &&& methods.pos == pos + e.code.len()
        }),
{
    let n = f.nbands as int;
    law_types_write_back(tables, bits, pos, f.nbands as nat);
    let p1 = sv8_band_header::parse_type_pairs(tables, bits, pos, f.nbands as nat).1;
    law_flags_write_back(bits, p1, f.res, stream_ms);
    let p2 = sv8_stereo_frame::parse_flags(bits, p1, f.res, stream_ms).1;
    law_methods_write_back(tables, bits, p2, f.res);
    let types = coding::emit_each(sv8_stereo_frame_encode::type_emit(tables, f.res, n), 0, n);
    let flags = sv8_stereo_frame_encode::emit_flags(f.res, f.ms_flags, n, stream_ms);
    let methods = coding::emit_each(
        sv8_stereo_frame_encode::method_emit(tables, f.res, f.scfi),
        0,
        n,
    );
    bits::lemma_at_concat(bits, pos, types.code, flags.code);
    bits::lemma_at_concat(bits, pos, types.code + flags.code, methods.code);
}

/// Decoded scalefactors and levels encode to what was read.
proof fn lemma_values_write_back(
    tables: Sv8TableSet,
    bits: Seq<bool>,
    pos: nat,
    keyframe: bool,
    memory: FrameMemory,
    noise: CnsPrng,
    res: Seq<[i8; 2]>,
    ms_flags: Seq<bool>,
    scfi: Seq<[u8; 2]>,
)
    requires
        tables.reversible(),
        unambiguous(tables),
        pos <= bits.len(),
        res.len() == memory.last_nbands,
        forall|b: int, ch: int|
            0 <= b < res.len() && 0 <= ch < 2 ==> -1 <= #[trigger] res[b][ch] <= 15,
        sv8_stereo_frame::values_read(
            tables,
            bits,
            pos,
            keyframe,
            memory,
            noise,
            res,
            ms_flags,
            scfi,
        ).result is Ok,
    ensures
        ({
            let read = sv8_stereo_frame::values_read(
                tables,
                bits,
                pos,
                keyframe,
                memory,
                noise,
                res,
                ms_flags,
                scfi,
            );
            let f = read.result->Ok_0;
            let n = 2 * f.nbands as int;
            let step = sv8_stereo_frame_encode::scf_emit(
                tables,
                keyframe,
                memory,
                res,
                scfi,
                f.scf,
            );
            let scf = coding::emit_each(step, 0, n);
            let levels = coding::emit_each(
                sv8_stereo_frame_encode::level_emit(tables, res, f.levels),
                0,
                n,
            );
            &&& f == (StereoFrame {
                nbands: memory.last_nbands,
                res,
                ms_flags,
                scfi,
                scf: f.scf,
                levels: f.levels,
            })
            &&& f.scf.len() == n
            &&& f.levels.len() == n
            &&& scf.result is Ok
            &&& levels.result is Ok
            &&& bits::at(bits, pos, scf.code + levels.code)
            &&& read.pos == pos + scf.code.len() + levels.code.len()
            &&& read.memory == sv8_stereo_frame::memory_after(
                memory,
                res,
                f.scf.take(coding::stopped(step, 0, n)),
            )
        }),
{
    let read = sv8_stereo_frame::values_read(
        tables,
        bits,
        pos,
        keyframe,
        memory,
        noise,
        res,
        ms_flags,
        scfi,
    );
    let f = read.result->Ok_0;
    let n = 2 * f.nbands as int;
    lemma_scf_write_back(tables, bits, pos, keyframe, memory, res, scfi);
    let p = sv8_stereo_frame::scf_sweep(tables, bits, pos, keyframe, memory, res, scfi).pos;
    lemma_levels_write_back(tables, bits, p, noise, res);
    let step = sv8_stereo_frame_encode::scf_emit(tables, keyframe, memory, res, scfi, f.scf);
    let scf = coding::emit_each(step, 0, n);
    let levels = coding::emit_each(
        sv8_stereo_frame_encode::level_emit(tables, res, f.levels),
        0,
        n,
    );
    bits::lemma_at_concat(bits, pos, scf.code, levels.code);
    lemma_never_stopped(step, 0, n);
    assert(f.scf.take(n) =~= f.scf);
}

/// What was decoded behind the used-band count encodes to what was read.
proof fn lemma_body_writes_back(
    tables: Sv8TableSet,
    bits: Seq<bool>,
    pos: nat,
    keyframe: bool,
    stream_ms: bool,
    memory: FrameMemory,
    noise: CnsPrng,
)
    requires
        tables.reversible(),
        unambiguous(tables),
        pos <= bits.len(),
        memory.last_nbands <= 32,
        sv8_stereo_frame::body_read(
            tables,
            bits,
            pos,
            keyframe,
            stream_ms,
            memory,
            noise,
        ).result is Ok,
    ensures
        ({
            let read = sv8_stereo_frame::body_read(
                tables,
                bits,
                pos,
                keyframe,
                stream_ms,
                memory,
                noise,
            );
            let f = read.result->Ok_0;
            let w = sv8_stereo_frame_encode::body_write(tables, f, keyframe, stream_ms, memory);
            &&& f.nbands == memory.last_nbands
            &&& f.res.len() == f.nbands
            &&& f.ms_flags.len() == f.nbands
            &&& f.scfi.len() == f.nbands
            &&& f.scf.len() == 2 * f.nbands
            &&& f.levels.len() == 2 * f.nbands
            &&& w.emit.result is Ok
            &&& bits::at(bits, pos, w.emit.code)
            &&& read.pos == pos + w.emit.code.len()
            &&& read.memory == w.memory
        }),
{
    let read = sv8_stereo_frame::body_read(
        tables,
        bits,
        pos,
        keyframe,
        stream_ms,
        memory,
        noise,
    );
    let f = read.result->Ok_0;
    let n = f.nbands as int;
    let (types, p1) = sv8_band_header::parse_type_pairs(
        tables,
        bits,
        pos,
        memory.last_nbands as nat,
    );
    let res = types->Ok_0;
    let (flags, p2) = sv8_stereo_frame::parse_flags(bits, p1, res, stream_ms);
    let methods = sv8_stereo_frame::method_sweep(tables, bits, p2, res);
    let values = sv8_stereo_frame::values_read(
        tables,
        bits,
        methods.pos,
        keyframe,
        memory,
        noise,
        res,
        flags->Ok_0,
        methods.done,
    );
    assert(read == values);
    assert(f.res == res && f.ms_flags == flags->Ok_0 && f.scfi == methods.done);
    lemma_head_writes_back(tables, bits, pos, f, stream_ms);
    lemma_values_write_back(
        tables,
        bits,
        methods.pos,
        keyframe,
        memory,
        noise,
        res,
        flags->Ok_0,
        methods.done,
    );
    let head = sv8_stereo_frame_encode::emit_head(tables, f, stream_ms);
    let scf = coding::emit_each(
        sv8_stereo_frame_encode::scf_emit(tables, keyframe, memory, f.res, f.scfi, f.scf),
        0,
        2 * n,
    );
    let levels = coding::emit_each(
        sv8_stereo_frame_encode::level_emit(tables, f.res, f.levels),
        0,
        2 * n,
    );
    bits::lemma_at_concat(bits, pos, head.code, scf.code + levels.code);
    assert(head.code + (scf.code + levels.code) =~= head.code + scf.code + levels.code);
}

/// A decoded frame encodes to exactly the bits that it was decoded from, and the encoder
/// is left with the state that the decoder is left with.
pub proof fn law_frame_writes_back(
    tables: Sv8TableSet,
    bits: Seq<bool>,
    pos: nat,
    max_band: u8,
    keyframe: bool,
    stream_ms: bool,
    memory: FrameMemory,
    noise: CnsPrng,
)
    requires
        tables.reversible(),
        unambiguous(tables),
        !keyframe || max_band < 255,
        keyframe || memory.last_nbands <= 32,
        ({
            let read = sv8_stereo_frame::frame_read(
                tables,
                bits,
                pos,
                max_band,
                keyframe,
                stream_ms,
                memory,
                noise,
            );
            read.result is Ok && read.result->Ok_0.nbands <= max_band + 1
        }),
    ensures
        ({
            let read = sv8_stereo_frame::frame_read(
                tables,
                bits,
                pos,
                max_band,
                keyframe,
                stream_ms,
                memory,
                noise,
            );
            let w = sv8_stereo_frame_encode::frame_write(
                tables,
                read.result->Ok_0,
                max_band,
                keyframe,
                stream_ms,
                memory,
            );
            &&& w.emit.result is Ok
            &&& bits::at(bits, pos, w.emit.code)
            &&& read.pos == pos + w.emit.code.len()
            &&& read.memory == w.memory
        }),
{
    reveal(sv8_stereo_frame::frame_read);
    reveal(sv8_stereo_frame_encode::frame_write);
    let read = sv8_stereo_frame::frame_read(
        tables,
        bits,
        pos,
        max_band,
        keyframe,
        stream_ms,
        memory,
        noise,
    );
    let f = read.result->Ok_0;
    let (counted, p) = sv8_stereo_frame::parse_used_bands(
        tables,
        bits,
        pos,
        max_band,
        keyframe,
        memory.last_nbands,
    );
    let n = counted->Ok_0;
    let m = memory.with_count(n);
    law_count_writes_back(tables, bits, pos, max_band, keyframe, memory.last_nbands);
    lemma_body_writes_back(tables, bits, p, keyframe, stream_ms, m, noise);
    let count = sv8_stereo_frame_encode::emit_count(
        tables,
        max_band,
        keyframe,
        memory.last_nbands,
        n,
    );
    let body = sv8_stereo_frame_encode::body_write(tables, f, keyframe, stream_ms, m);
    bits::lemma_at_concat(bits, pos, count.code, body.emit.code);
}

} // verus!
