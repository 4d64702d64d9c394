//! Encoding a two-channel frame body: the inverse of decoding one.

use crate::bit_writer::Sv7BitWriter;
use crate::bits;
use crate::cns::SAMPLES_PER_BAND;
use crate::coding;
use crate::coding::Emit;
use crate::combinadic;
use crate::error::{Error, Result};
use crate::phased;
use crate::sv8_band_header;
use crate::sv8_band_header::res_ctx_for_above;
use crate::sv8_dscf_loop;
use crate::sv8_dscf_loop::{
    scfi_coded_granules, DSCF1_ESCAPE_SYMBOL, DSCF2_ESCAPE_SYMBOL, DSCF_ESCAPE_RAW_BITS,
    DSCF_NEWBLOCK_ABS_BITS, SCF_GRANULES_PER_BAND,
};
use crate::sv8_huffman::{Sv8CanonicalTable, Sv8TableSet};
use crate::sv8_huffman_encode;
use crate::sv8_huffman_encode::{write_log_code, write_set, write_symbol};
use crate::sv8_sample_encode;
use crate::sv8_sample_encode::write_band_samples;
use crate::sv8_stereo_frame;
use crate::sv8_stereo_frame::{FrameMemory, StereoFrame, Sv8FrameState, Sv8StereoFrameDecode};
use vstd::arithmetic::power2::*;
use vstd::prelude::*;

verus! {

// ---------------------------------------------------------------------------
// What a frame is written as
// ---------------------------------------------------------------------------

/// A number as a signed byte, its higher bits dropped.
pub open spec fn low_byte(d: int) -> i8 {
    (if d % 256 >= 128 {
        d % 256 - 256
    } else {
        d % 256
    }) as i8
}

/// What the used-band count is written as: outright in a key frame, else as the symbol
/// that leads to it on the ring of 33.
pub open spec fn emit_count(
    tables: Sv8TableSet,
    max_band: u8,
    keyframe: bool,
    last: u8,
    nbands: u8,
) -> Emit {
    if keyframe {
        phased::emit(nbands as u32, (max_band + 2) as u32)
    } else {
        let d = nbands - last;
        if sv8_huffman_encode::position(tables.bands.symbols@, 0, low_byte(d)) is Some {
            tables.bands.emit(low_byte(d))
        } else if d + 33 > 127 || d + 33 < -128 {
            Emit::fail(Error::SampleOutOfRange(d as i32))
        } else {
            tables.bands.emit((d + 33) as i8)
        }
    }
}

/// The symbol for a band of type `t` under one of type `above`.
pub open spec fn type_symbol(above: Option<i8>, t: i8) -> i8 {
    match above {
        Some(a) => ((t - a) % 17) as i8,
        None => if t < 0 {
            (t + 17) as i8
        } else {
            t
        },
    }
}

/// What a band's type is written as.
pub open spec fn emit_type(tables: Sv8TableSet, above: Option<i8>, t: i8) -> Emit {
    tables.res[sv8_band_header::context_under(above)].emit(type_symbol(above, t))
}

/// The type above band `b` of `n`.
pub open spec fn type_above(res: Seq<[i8; 2]>, n: int, b: int, ch: int) -> Option<i8> {
    if b + 1 < n {
        Some(res[b + 1][ch])
    } else {
        None
    }
}

/// The steps that write the types of `n` bands, from the top band down.
pub open spec fn type_emit(tables: Sv8TableSet, res: Seq<[i8; 2]>, n: int) -> spec_fn(int) -> Emit {
    |k: int|
        {
            let b = n - 1 - k;
            emit_type(tables, type_above(res, n, b, 0), res[b][0]).chain(
                emit_type(tables, type_above(res, n, b, 1), res[b][1]),
            )
        }
}

/// The flags, among those of the bands below `b`, of the bands that code something.
pub open spec fn scoped(res: Seq<[i8; 2]>, flags: Seq<bool>, b: int) -> Seq<bool>
    decreases b,
{
    if b <= 0 {
        Seq::empty()
    } else if sv8_stereo_frame::in_scope(res[b - 1]) {
        scoped(res, flags, b - 1).push(flags[b - 1])
    } else {
        scoped(res, flags, b - 1)
    }
}

/// What flags are written as: how many are set, then which.
pub open spec fn flags_code(flags: Seq<bool>) -> Seq<bool> {
    phased::code(combinadic::ones(flags), flags.len() + 1) + combinadic::set_code(flags)
}

/// What the mid/side flags are written as.
pub open spec fn emit_flags(
    res: Seq<[i8; 2]>,
    flags: Seq<bool>,
    n: int,
    stream_ms: bool,
) -> Emit {
    if stream_ms {
        Emit::of(flags_code(scoped(res, flags, n)))
    } else {
        Emit::of(Seq::empty())
    }
}

/// What the methods of a band are written as.
pub open spec fn emit_methods(tables: Sv8TableSet, types: [i8; 2], scfi: [u8; 2]) -> Emit {
    if !sv8_stereo_frame::in_scope(types) {
        Emit::of(Seq::empty())
    } else if types[0] != 0 && scfi[0] > 3 {
        Emit::fail(Error::InvalidScfCodingMethod(scfi[0] as i8))
    } else if types[1] != 0 && scfi[1] > 3 {
        Emit::fail(Error::InvalidScfCodingMethod(scfi[1] as i8))
    } else if types[0] != 0 && types[1] != 0 {
        tables.scfi[1].emit((4 * scfi[0] + scfi[1]) as i8)
    } else if types[0] != 0 {
        tables.scfi[0].emit(scfi[0] as i8)
    } else {
        tables.scfi[0].emit(scfi[1] as i8)
    }
}

/// The steps that write the methods, from the lowest band up.
pub open spec fn method_emit(
    tables: Sv8TableSet,
    res: Seq<[i8; 2]>,
    scfi: Seq<[u8; 2]>,
) -> spec_fn(int) -> Emit {
    |b: int| emit_methods(tables, res[b], scfi[b])
}

/// The difference that leads from `prev` to `target` on the ring of 128.
pub open spec fn delta_for(prev: int, target: int) -> int {
    (target + 31 - prev) % 128
}

/// What the difference before a frame's first scalefactor of a band is written as.
pub open spec fn emit_first_delta(tables: Sv8TableSet, d: int) -> Emit {
    if 0 <= d <= 63 {
        tables.dscf[1].emit(d as i8)
    } else if 64 <= d <= 127 {
        tables.dscf[1].emit(DSCF2_ESCAPE_SYMBOL).chain(Emit::of(bits::field((d - 64) as nat, 6)))
    } else {
        Emit::fail(Error::SampleOutOfRange(d as i32))
    }
}

/// What the difference before a later scalefactor is written as. The announcing symbol
/// takes the place of the difference 31, which has no code.
pub open spec fn emit_later_delta(tables: Sv8TableSet, d: int) -> Emit {
    if 0 <= d <= 63 && d != 31 {
        tables.dscf[0].emit(d as i8)
    } else if 64 <= d <= 127 {
        tables.dscf[0].emit(DSCF1_ESCAPE_SYMBOL).chain(Emit::of(bits::field((d - 64) as nat, 6)))
    } else {
        Emit::fail(Error::SampleOutOfRange(d as i32))
    }
}

/// What a frame's first scalefactor of a band is written as.
pub open spec fn emit_first(tables: Sv8TableSet, new_block: bool, prev: int, scf: i32) -> Emit {
    if new_block {
        if 0 <= scf + 6 <= 127 {
            Emit::of(bits::field((scf + 6) as nat, 7))
        } else {
            Emit::fail(Error::SampleOutOfRange(scf))
        }
    } else {
        emit_first_delta(tables, delta_for(prev, scf as int))
    }
}

/// What a later scalefactor is written as; one that the method does not code has to
/// repeat the one before.
pub open spec fn emit_later(tables: Sv8TableSet, coded: bool, prev: i32, scf: i32) -> Emit {
    if coded {
        emit_later_delta(tables, delta_for(prev as int, scf as int))
    } else if scf != prev {
        Emit::fail(Error::SampleOutOfRange(scf))
    } else {
        Emit::of(Seq::empty())
    }
}

/// What the scalefactors of a channel and band are written as.
pub open spec fn emit_scf(
    tables: Sv8TableSet,
    new_block: bool,
    prev: int,
    band_type: i8,
    scfi: u8,
    scf: [i32; 3],
) -> Emit {
    if band_type == 0 {
        Emit::of(Seq::empty())
    } else if scfi > 3 {
        Emit::fail(Error::InvalidScfCodingMethod(scfi as i8))
    } else {
        emit_first(tables, new_block, prev, scf[0]).chain(
            emit_later(tables, sv8_dscf_loop::is_coded(scfi as int, 1), scf[0], scf[1]),
        ).chain(emit_later(tables, sv8_dscf_loop::is_coded(scfi as int, 2), scf[1], scf[2]))
    }
}

/// The steps that write the scalefactors: left and right of the lowest band, then of
/// the next.
pub open spec fn scf_emit(
    tables: Sv8TableSet,
    keyframe: bool,
    memory: FrameMemory,
    res: Seq<[i8; 2]>,
    scfi: Seq<[u8; 2]>,
    scf: Seq<[i32; 3]>,
) -> spec_fn(int) -> Emit {
    |i: int|
        emit_scf(
            tables,
            sv8_stereo_frame::is_new_block(keyframe, memory, i % 2, i / 2),
            sv8_stereo_frame::reference(memory, i % 2, i / 2),
            res[i / 2][i % 2],
            scfi[i / 2][i % 2],
            scf[i],
        )
}

/// The steps that write the levels, in the same order.
pub open spec fn level_emit(
    tables: Sv8TableSet,
    res: Seq<[i8; 2]>,
    levels: Seq<Seq<i32>>,
) -> spec_fn(int) -> Emit {
    |i: int| sv8_sample_encode::emit_levels(tables, res[i / 2][i % 2], levels[i])
}

/// What encoding a frame body comes to.
#[verifier::ext_equal]
pub struct FrameWrite {
    pub emit: Emit,
    pub memory: FrameMemory,
}

/// What stands between the used-band count and the scalefactors.
pub open spec fn emit_head(tables: Sv8TableSet, f: StereoFrame, stream_ms: bool) -> Emit {
    let n = f.nbands as int;
    coding::emit_each(type_emit(tables, f.res, n), 0, n).chain(
        emit_flags(f.res, f.ms_flags, n, stream_ms),
    ).chain(coding::emit_each(method_emit(tables, f.res, f.scfi), 0, n))
}

/// Encoding what follows the used-band count, which `memory` holds.
pub open spec fn body_write(
    tables: Sv8TableSet,
    f: StereoFrame,
    keyframe: bool,
    stream_ms: bool,
    memory: FrameMemory,
) -> FrameWrite {
    let n = 2 * f.nbands as int;
    let head = emit_head(tables, f, stream_ms);
    let step = scf_emit(tables, keyframe, memory, f.res, f.scfi, f.scf);
    FrameWrite {
        emit: head.chain(coding::emit_each(step, 0, n)).chain(
            coding::emit_each(level_emit(tables, f.res, f.levels), 0, n),
        ),
        memory: if head.result is Err {
            memory
        } else {
            sv8_stereo_frame::memory_after(
                memory,
                f.res,
                f.scf.take(coding::stopped(step, 0, n)),
            )
        },
    }
}

/// The parts of the frame have the bands that it counts, and the stream allows them.
pub open spec fn complete(f: StereoFrame, max_band: u8) -> bool {
    &&& f.nbands <= max_band + 1
    &&& f.nbands <= f.res.len()
    &&& f.nbands <= f.ms_flags.len()
    &&& f.nbands <= f.scfi.len()
    &&& 2 * f.nbands <= f.scf.len()
    &&& 2 * f.nbands <= f.levels.len()
}

/// Encoding a two-channel frame body.
#[verifier::opaque]
pub open spec fn frame_write(
    tables: Sv8TableSet,
    f: StereoFrame,
    max_band: u8,
    keyframe: bool,
    stream_ms: bool,
    memory: FrameMemory,
) -> FrameWrite {
    if !complete(f, max_band) {
        FrameWrite { emit: Emit::fail(Error::MaxBandOutOfRange(f.nbands)), memory }
    } else {
        let count = emit_count(tables, max_band, keyframe, memory.last_nbands, f.nbands);
        let body = body_write(tables, f, keyframe, stream_ms, memory.with_count(f.nbands));
        FrameWrite {
            emit: count.chain(body.emit),
            memory: if count.result is Err {
                memory
            } else {
                body.memory
            },
        }
    }
}

/// A written frame leaves its used-band count behind.
pub proof fn lemma_write_count(
    tables: Sv8TableSet,
    f: StereoFrame,
    max_band: u8,
    keyframe: bool,
    stream_ms: bool,
    memory: FrameMemory,
)
    requires
        frame_write(tables, f, max_band, keyframe, stream_ms, memory).emit.result is Ok,
    ensures
        frame_write(tables, f, max_band, keyframe, stream_ms, memory).memory.last_nbands
            == f.nbands,
{
    reveal(frame_write);
}

// ---------------------------------------------------------------------------
// Encoders
// ---------------------------------------------------------------------------

/// The difference that leads from `prev` to `target`.
pub fn dscf_delta_for(prev: i32, target: i32) -> (d: i32)
    ensures
        d == delta_for(prev as int, target as int),
        0 <= d <= 127,
{
    let sum: i64 = target as i64 + 31 - prev as i64;
    let lifted: u64 = (sum + 0x2_0000_0000) as u64;
    (lifted % 128) as i32
}

/// Writes an announcing symbol and the raw bits behind it.
fn write_escape(
    writer: &mut Sv7BitWriter,
    table: &Sv8CanonicalTable,
    symbol: i8,
    raw: u32,
) -> (r: Result<()>)
    requires
        raw < 64,
    ensures
        ({
            let e = table.emit(symbol).chain(Emit::of(bits::field(raw as nat, 6)));
            final(writer)@ == old(writer)@ + e.code && r == e.result
        }),
{
    let ghost start = writer@;
    match write_symbol(writer, table, symbol) {
        Ok(_) => {},
        Err(e) => {
            return Err(e);
        },
    }
    writer.write_bits(raw, DSCF_ESCAPE_RAW_BITS);
    assert(writer@ =~= start + (table.emit(symbol).code + bits::field(raw as nat, 6)));
    Ok(())
}

/// Writes the difference before a later scalefactor. The difference 31, and one outside
/// `0..=127`, is refused.
fn write_dscf1_delta(tables: &Sv8TableSet, writer: &mut Sv7BitWriter, delta: i32) -> (r: Result<
    (),
>)
    ensures
        final(writer)@ == old(writer)@ + emit_later_delta(*tables, delta as int).code,
        r == emit_later_delta(*tables, delta as int).result,
{
    if 0 <= delta && delta <= 63 && delta != 31 {
        write_symbol(writer, &tables.dscf[0], delta as i8)
    } else if 64 <= delta && delta <= 127 {
        write_escape(writer, &tables.dscf[0], DSCF1_ESCAPE_SYMBOL, (delta - 64) as u32)
    } else {
        assert(writer@ =~= old(writer)@ + Seq::<bool>::empty());
        Err(Error::SampleOutOfRange(delta))
    }
}

/// Writes the difference before a frame's first scalefactor of a band. One outside
/// `0..=127` is refused.
fn write_dscf2_delta(tables: &Sv8TableSet, writer: &mut Sv7BitWriter, delta: i32) -> (r: Result<
    (),
>)
    ensures
        final(writer)@ == old(writer)@ + emit_first_delta(*tables, delta as int).code,
        r == emit_first_delta(*tables, delta as int).result,
{
    if 0 <= delta && delta <= 63 {
        write_symbol(writer, &tables.dscf[1], delta as i8)
    } else if 64 <= delta && delta <= 127 {
        write_escape(writer, &tables.dscf[1], DSCF2_ESCAPE_SYMBOL, (delta - 64) as u32)
    } else {
        assert(writer@ =~= old(writer)@ + Seq::<bool>::empty());
        Err(Error::SampleOutOfRange(delta))
    }
}

/// True where the code has the symbol.
fn has_symbol(table: &Sv8CanonicalTable, symbol: i8) -> (b: bool)
    ensures
        b == (sv8_huffman_encode::position(table.symbols@, 0, symbol) is Some),
{
    let symbols: &[i8] = table.symbols;
    let mut i: usize = 0;
    while i < symbols.len()
        invariant
            symbols@ == table.symbols@,
            i <= symbols@.len(),
            sv8_huffman_encode::position(symbols@, 0, symbol) == sv8_huffman_encode::position(
                symbols@,
                i as int,
                symbol,
            ),
        decreases symbols@.len() - i,
    {
        if symbols[i] == symbol {
            return true;
        }
        i = i + 1;
    }
    false
}

/// Writes the used-band count.
fn write_count(
    tables: &Sv8TableSet,
    writer: &mut Sv7BitWriter,
    max_band: u8,
    keyframe: bool,
    last: u8,
    nbands: u8,
) -> (r: Result<()>)
    ensures
        final(writer)@ == old(writer)@ + emit_count(
            *tables,
            max_band,
            keyframe,
            last,
            nbands,
        ).code,
        r == emit_count(*tables, max_band, keyframe, last, nbands).result,
{
    if keyframe {
        return write_log_code(writer, nbands as u32, max_band as u32 + 2);
    }
    let d: i32 = nbands as i32 - last as i32;
    let m: u32 = (d + 512) as u32 % 256;
    let wrapped: i8 = if m >= 128 { (m as i32 - 256) as i8 } else { m as i8 };
    assert(wrapped == low_byte(d as int));
    if has_symbol(&tables.bands, wrapped) {
        write_symbol(writer, &tables.bands, wrapped)
    } else if d + 33 > 127 || d + 33 < -128 {
        assert(writer@ =~= old(writer)@ + Seq::<bool>::empty());
        Err(Error::SampleOutOfRange(d))
    } else {
        write_symbol(writer, &tables.bands, (d + 33) as i8)
    }
}

/// Writes a band's type.
fn write_type(
    tables: &Sv8TableSet,
    writer: &mut Sv7BitWriter,
    above: Option<i8>,
    t: i8,
) -> (r: Result<()>)
    ensures
        final(writer)@ == old(writer)@ + emit_type(*tables, above, t).code,
        r == emit_type(*tables, above, t).result,
{
    let (ctx, symbol): (u8, i8) = match above {
        Some(a) => {
            let d: i32 = t as i32 - a as i32;
            (res_ctx_for_above(a), ((d + 17 * 16) as u32 % 17) as i8)
        },
        None => (0, if t < 0 { t + 17 } else { t }),
    };
    write_symbol(writer, &tables.res[ctx as usize], symbol)
}

/// Writes the types of the first `n` bands, from the top band down.
fn write_types(
    tables: &Sv8TableSet,
    writer: &mut Sv7BitWriter,
    res: &Vec<[i8; 2]>,
    n: usize,
) -> (r: Result<()>)
    requires
        n <= res@.len(),
    ensures
        ({
            let e = coding::emit_each(type_emit(*tables, res@, n as int), 0, n as int);
            final(writer)@ == old(writer)@ + e.code && r == e.result
        }),
{
    let ghost start = writer@;
    let ghost step = type_emit(*tables, res@, n as int);
    let ghost whole = coding::emit_each(step, 0, n as int);
    let ghost mut done: Seq<bool> = Seq::empty();
    proof {
        assert(start + done =~= start);
        assert(whole =~= whole.after(done));
    }
    let mut left: usize = n;
    while left > 0
        invariant
            left <= n <= res@.len(),
            start == old(writer)@,
            step == type_emit(*tables, res@, n as int),
            whole == coding::emit_each(step, 0, n as int),
            whole == coding::emit_each(step, n - left, n as int).after(done),
            writer@ == start + done,
        decreases left,
    {
        let b: usize = left - 1;
        let mut above: [Option<i8>; 2] = [None, None];
        if left < n {
            above = [Some(res[left][0]), Some(res[left][1])];
        }
        proof {
            coding::lemma_emit_one(step, n - left, n as int, done);
            coding::lemma_chain_after(
                emit_type(*tables, above[0], res@[b as int][0]),
                emit_type(*tables, above[1], res@[b as int][1]),
                done,
            );
        }
        let ghost first = emit_type(*tables, above[0], res@[b as int][0]);
        let ghost second = emit_type(*tables, above[1], res@[b as int][1]);
        assert(step(n - left) == first.chain(second));
        let written: Result<()> = write_type(tables, writer, above[0], res[b][0]);
        proof {
            assert(writer@ =~= start + (done + first.code));
        }
        match written {
            Ok(_) => {},
            Err(e) => {
                return Err(e);
            },
        }
        let also: Result<()> = write_type(tables, writer, above[1], res[b][1]);
        proof {
            assert(writer@ =~= start + (done + (first.code + second.code)));
            done = done + (first.code + second.code);
        }
        match also {
            Ok(_) => {},
            Err(e) => {
                return Err(e);
            },
        }
        left = left - 1;
    }
    assert(whole.code =~= done);
    Ok(())
}

proof fn lemma_scoped_len(res: Seq<[i8; 2]>, flags: Seq<bool>, b: int)
    requires
        0 <= b,
    ensures
        scoped(res, flags, b).len() == sv8_stereo_frame::scope_below(res, b),
    decreases b,
{
    if b > 0 {
        lemma_scoped_len(res, flags, b - 1);
    }
}

/// Only bands below `n` have a place in the scope.
proof fn lemma_scope_limit(res: Seq<[i8; 2]>, n: int, b: int)
    requires
        0 <= n <= b,
        forall|c: int| n <= c < b ==> !sv8_stereo_frame::in_scope(#[trigger] res[c]),
    ensures
        sv8_stereo_frame::scope_below(res, b) <= n,
    decreases b,
{
    if b == n {
        sv8_stereo_frame::lemma_scope_bound(res, b);
    } else {
        lemma_scope_limit(res, n, b - 1);
        assert(!sv8_stereo_frame::in_scope(res[b - 1]));
    }
}

/// Writes the mid/side flags of the bands, among the first `n`, that code something.
fn write_flags(
    writer: &mut Sv7BitWriter,
    res: &Vec<[i8; 2]>,
    flags: &Vec<bool>,
    n: usize,
    stream_ms: bool,
)
    requires
        n <= res@.len(),
        n <= flags@.len(),
        forall|b: int| 32 <= b < n ==> !sv8_stereo_frame::in_scope(#[trigger] res@[b]),
    ensures
        final(writer)@ == old(writer)@ + emit_flags(res@, flags@, n as int, stream_ms).code,
{
    let ghost start = writer@;
    if !stream_ms {
        assert(writer@ =~= start + Seq::<bool>::empty());
        return;
    }
    let mut picked: Vec<bool> = Vec::new();
    let mut b: usize = 0;
    while b < n
        invariant
            b <= n,
            n <= res@.len(),
            n <= flags@.len(),
            picked@ == scoped(res@, flags@, b as int),
        decreases n - b,
    {
        if res[b][0] != 0 || res[b][1] != 0 {
            picked.push(flags[b]);
        }
        b = b + 1;
    }
    proof {
        lemma_scoped_len(res@, flags@, n as int);
        if n > 32 {
            lemma_scope_limit(res@, 32, n as int);
        } else {
            sv8_stereo_frame::lemma_scope_bound(res@, n as int);
        }
    }
    let len: u32 = picked.len() as u32;
    let mask: u32 = combinadic::flags_mask(&picked);
    let cnt: u32 = combinadic::count_ones(mask, len);
    proof {
        combinadic::lemma_ones_bound(picked@);
    }
    let counted: Result<()> = write_log_code(writer, cnt, len + 1);
    write_set(writer, &picked);
    assert(writer@ =~= start + flags_code(picked@));
}

/// Writes the methods of a band.
fn write_methods(
    tables: &Sv8TableSet,
    writer: &mut Sv7BitWriter,
    types: [i8; 2],
    scfi: [u8; 2],
) -> (r: Result<()>)
    ensures
        final(writer)@ == old(writer)@ + emit_methods(*tables, types, scfi).code,
        r == emit_methods(*tables, types, scfi).result,
{
    let left: bool = types[0] != 0;
    let right: bool = types[1] != 0;
    assert(writer@ =~= old(writer)@ + Seq::<bool>::empty());
    if !left && !right {
        return Ok(());
    }
    if left && scfi[0] > 3 {
        return Err(Error::InvalidScfCodingMethod(scfi[0] as i8));
    }
    if right && scfi[1] > 3 {
        return Err(Error::InvalidScfCodingMethod(scfi[1] as i8));
    }
    if left && right {
        write_symbol(writer, &tables.scfi[1], (4 * scfi[0] + scfi[1]) as i8)
    } else if left {
        write_symbol(writer, &tables.scfi[0], scfi[0] as i8)
    } else {
        write_symbol(writer, &tables.scfi[0], scfi[1] as i8)
    }
}

/// Writes the methods of the first `n` bands.
fn write_all_methods(
    tables: &Sv8TableSet,
    writer: &mut Sv7BitWriter,
    res: &Vec<[i8; 2]>,
    scfi: &Vec<[u8; 2]>,
    n: usize,
) -> (r: Result<()>)
    requires
        n <= res@.len(),
        n <= scfi@.len(),
    ensures
        ({
            let e = coding::emit_each(method_emit(*tables, res@, scfi@), 0, n as int);
            final(writer)@ == old(writer)@ + e.code && r == e.result
        }),
{
    let ghost start = writer@;
    let ghost step = method_emit(*tables, res@, scfi@);
    let ghost whole = coding::emit_each(step, 0, n as int);
    let ghost mut done: Seq<bool> = Seq::empty();
    proof {
        assert(start + done =~= start);
        assert(whole =~= whole.after(done));
    }
    let mut b: usize = 0;
    while b < n
        invariant
            b <= n,
            n <= res@.len(),
            n <= scfi@.len(),
            start == old(writer)@,
            step == method_emit(*tables, res@, scfi@),
            whole == coding::emit_each(step, 0, n as int),
            whole == coding::emit_each(step, b as int, n as int).after(done),
            writer@ == start + done,
        decreases n - b,
    {
        proof {
            coding::lemma_emit_one(step, b as int, n as int, done);
        }
        let ghost piece = step(b as int).code;
        let written: Result<()> = write_methods(tables, writer, res[b], scfi[b]);
        proof {
            assert(writer@ =~= start + (done + piece));
            done = done + piece;
        }
        match written {
            Ok(_) => {},
            Err(e) => {
                return Err(e);
            },
        }
        b = b + 1;
    }
    assert(whole.code =~= done);
    Ok(())
}

/// Writes a frame's first scalefactor of a band.
fn write_first(
    tables: &Sv8TableSet,
    writer: &mut Sv7BitWriter,
    new_block: bool,
    prev: i32,
    scf: i32,
) -> (r: Result<()>)
    ensures
        final(writer)@ == old(writer)@ + emit_first(*tables, new_block, prev as int, scf).code,
        r == emit_first(*tables, new_block, prev as int, scf).result,
{
    if new_block {
        if scf < -6 || scf > 121 {
            assert(writer@ =~= old(writer)@ + Seq::<bool>::empty());
            return Err(Error::SampleOutOfRange(scf));
        }
        writer.write_bits((scf + 6) as u32, DSCF_NEWBLOCK_ABS_BITS);
        Ok(())
    } else {
        write_dscf2_delta(tables, writer, dscf_delta_for(prev, scf))
    }
}

/// Writes a later scalefactor.
fn write_later(
    tables: &Sv8TableSet,
    writer: &mut Sv7BitWriter,
    coded: bool,
    prev: i32,
    scf: i32,
) -> (r: Result<()>)
    ensures
        final(writer)@ == old(writer)@ + emit_later(*tables, coded, prev, scf).code,
        r == emit_later(*tables, coded, prev, scf).result,
{
    if coded {
        write_dscf1_delta(tables, writer, dscf_delta_for(prev, scf))
    } else {
        assert(writer@ =~= old(writer)@ + Seq::<bool>::empty());
        if scf != prev {
            Err(Error::SampleOutOfRange(scf))
        } else {
            Ok(())
        }
    }
}

/// Writes the scalefactors of a channel and band that codes something.
fn write_scf(
    tables: &Sv8TableSet,
    writer: &mut Sv7BitWriter,
    new_block: bool,
    prev: i32,
    Ghost(band_type): Ghost<i8>,
    scfi: u8,
    scf: [i32; SCF_GRANULES_PER_BAND],
) -> (r: Result<()>)
    requires
        band_type != 0,
    ensures
        final(writer)@ == old(writer)@ + emit_scf(
            *tables,
            new_block,
            prev as int,
            band_type,
            scfi,
            scf,
        ).code,
        r == emit_scf(*tables, new_block, prev as int, band_type, scfi, scf).result,
{
    let ghost start = writer@;
    let coded: [bool; SCF_GRANULES_PER_BAND] = match scfi_coded_granules(scfi) {
        Ok(c) => c,
        Err(e) => {
            assert(writer@ =~= old(writer)@ + Seq::<bool>::empty());
            return Err(e);
        },
    };
    assert(coded@[1] == sv8_dscf_loop::is_coded(scfi as int, 1) && coded@[2]
        == sv8_dscf_loop::is_coded(scfi as int, 2));
    let ghost a = emit_first(*tables, new_block, prev as int, scf[0]);
    let ghost b = emit_later(*tables, coded@[1], scf[0], scf[1]);
    let ghost c = emit_later(*tables, coded@[2], scf[1], scf[2]);
    match write_first(tables, writer, new_block, prev, scf[0]) {
        Ok(_) => {},
        Err(e) => {
            return Err(e);
        },
    }
    let second: Result<()> = write_later(tables, writer, coded[1], scf[0], scf[1]);
    assert(writer@ =~= start + (a.code + b.code));
    match second {
        Ok(_) => {},
        Err(e) => {
            return Err(e);
        },
    }
    let third: Result<()> = write_later(tables, writer, coded[2], scf[1], scf[2]);
    assert(writer@ =~= start + (a.code + b.code + c.code));
    third
}

/// Writes the scalefactors of the first `n` bands, and notes them in the state.
fn write_scalefactors(
    tables: &Sv8TableSet,
    writer: &mut Sv7BitWriter,
    keyframe: bool,
    state: &mut Sv8FrameState,
    frame: &Sv8StereoFrameDecode,
    n: usize,
) -> (r: Result<()>)
    requires
        n <= frame.res@.len(),
        n <= frame.scfi@.len(),
        n <= frame.granule_scf@.len(),
        forall|b: int| 32 <= b < n ==> !sv8_stereo_frame::in_scope(#[trigger] frame.res@[b]),
    ensures
        ({
            let step = scf_emit(
                *tables,
                keyframe,
                old(state)@,
                frame.res@,
                frame.scfi@,
                frame@.scf,
            );
            let e = coding::emit_each(step, 0, 2 * n);
            &&& final(writer)@ == old(writer)@ + e.code
            &&& r == e.result
            &&& final(state)@ == sv8_stereo_frame::memory_after(
                old(state)@,
                frame.res@,
                frame@.scf.take(coding::stopped(step, 0, 2 * n)),
            )
        }),
{
    let ghost start = writer@;
    let ghost memory = state@;
    let ghost row = frame@.scf;
    let ghost res = frame.res@;
    let ghost step = scf_emit(*tables, keyframe, memory, res, frame.scfi@, row);
    let ghost whole = coding::emit_each(step, 0, 2 * n);
    let ghost mut done: Seq<bool> = Seq::empty();
    proof {
        assert(start + done =~= start);
        assert(whole =~= whole.after(done));
        assert(row.take(0) =~= Seq::<[i32; 3]>::empty());
        assert(state@.scf =~= sv8_stereo_frame::memory_after(memory, res, row.take(0)).scf);
    }
    let mut b: usize = 0;
    while b < n
        invariant
            b <= n,
            n <= frame.res@.len(),
            n <= frame.scfi@.len(),
            n <= frame.granule_scf@.len(),
            forall|c: int| 32 <= c < n ==> !sv8_stereo_frame::in_scope(#[trigger] frame.res@[c]),
            start == old(writer)@,
            memory == old(state)@,
            row == frame@.scf,
            res == frame.res@,
            step == scf_emit(*tables, keyframe, memory, res, frame.scfi@, row),
            whole == coding::emit_each(step, 0, 2 * n),
            whole == coding::emit_each(step, 2 * b, 2 * n).after(done),
            coding::stopped(step, 0, 2 * n) == coding::stopped(step, 2 * b, 2 * n),
            state@ == sv8_stereo_frame::memory_after(memory, res, row.take(2 * b)),
            writer@ == start + done,
        decreases n - b,
    {
        let mut ch: usize = 0;
        while ch < 2
            invariant
                ch <= 2,
                b < n,
                n <= frame.res@.len(),
                n <= frame.scfi@.len(),
                n <= frame.granule_scf@.len(),
                forall|c: int|
                    32 <= c < n ==> !sv8_stereo_frame::in_scope(#[trigger] frame.res@[c]),
                start == old(writer)@,
                memory == old(state)@,
                row == frame@.scf,
                res == frame.res@,
                step == scf_emit(*tables, keyframe, memory, res, frame.scfi@, row),
                whole == coding::emit_each(step, 0, 2 * n),
                whole == coding::emit_each(step, 2 * b + ch, 2 * n).after(done),
                coding::stopped(step, 0, 2 * n) == coding::stopped(step, 2 * b + ch, 2 * n),
                state@ == sv8_stereo_frame::memory_after(memory, res, row.take(2 * b + ch)),
                writer@ == start + done,
            decreases 2 - ch,
        {
            let ghost at = 2 * b + ch;
            let ghost seen = row.take(at);
            assert(at / 2 == b && at % 2 == ch);
            assert(row[at] == frame.granule_scf@[b as int][ch as int]);
            assert(row.take(at + 1) =~= seen.push(row[at]));
            proof {
                coding::lemma_emit_one(step, at, 2 * n, done);
                sv8_stereo_frame::lemma_memory_push(memory, res, seen, row[at]);
            }
            let ghost piece = step(at).code;
            if frame.res[b][ch] != 0 {
                assert(sv8_stereo_frame::in_scope(res[b as int]));
                proof {
                    sv8_stereo_frame::lemma_memory_ahead(
                        memory,
                        res,
                        seen,
                        ch as int,
                        b as int,
                    );
                }
                let known: Option<i32> = state.scf_ref(ch, b);
                let new_block: bool = keyframe || known.is_none();
                let prev: i32 = match known {
                    Some(v) => v,
                    None => 0,
                };
                let scf: [i32; SCF_GRANULES_PER_BAND] = frame.granule_scf[b][ch];
                let written: Result<()> = write_scf(
                    tables,
                    writer,
                    new_block,
                    prev,
                    Ghost(res[b as int][ch as int]),
                    frame.scfi[b][ch],
                    scf,
                );
                assert(writer@ =~= start + (done + piece));
                match written {
                    Ok(_) => {},
                    Err(e) => {
                        return Err(e);
                    },
                }
                state.note_scf2(ch, b, scf[2]);
            } else {
                assert(writer@ =~= start + (done + piece));
            }
            proof {
                done = done + piece;
            }
            ch = ch + 1;
        }
        b = b + 1;
    }
    assert(whole.code =~= done);
    Ok(())
}

/// Writes the levels of the first `n` bands.
fn write_levels(
    tables: &Sv8TableSet,
    writer: &mut Sv7BitWriter,
    frame: &Sv8StereoFrameDecode,
    n: usize,
) -> (r: Result<()>)
    requires
        n <= frame.res@.len(),
        n <= frame.levels@.len(),
    ensures
        ({
            let e = coding::emit_each(
                level_emit(*tables, frame.res@, frame@.levels),
                0,
                2 * n,
            );
            final(writer)@ == old(writer)@ + e.code && r == e.result
        }),
{
    let ghost start = writer@;
    let ghost row = frame@.levels;
    let ghost step = level_emit(*tables, frame.res@, row);
    let ghost whole = coding::emit_each(step, 0, 2 * n);
    let ghost mut done: Seq<bool> = Seq::empty();
    proof {
        assert(start + done =~= start);
        assert(whole =~= whole.after(done));
    }
    let mut b: usize = 0;
    while b < n
        invariant
            b <= n,
            n <= frame.res@.len(),
            n <= frame.levels@.len(),
            start == old(writer)@,
            row == frame@.levels,
            step == level_emit(*tables, frame.res@, row),
            whole == coding::emit_each(step, 0, 2 * n),
            whole == coding::emit_each(step, 2 * b, 2 * n).after(done),
            writer@ == start + done,
        decreases n - b,
    {
        let mut ch: usize = 0;
        while ch < 2
            invariant
                ch <= 2,
                b < n,
                n <= frame.res@.len(),
                n <= frame.levels@.len(),
                start == old(writer)@,
                row == frame@.levels,
                step == level_emit(*tables, frame.res@, row),
                whole == coding::emit_each(step, 0, 2 * n),
                whole == coding::emit_each(step, 2 * b + ch, 2 * n).after(done),
                writer@ == start + done,
            decreases 2 - ch,
        {
            let ghost at = 2 * b + ch;
            assert(at / 2 == b && at % 2 == ch);
            assert(row[at] == frame.levels@[b as int][ch as int]@);
            proof {
                coding::lemma_emit_one(step, at, 2 * n, done);
            }
            let ghost piece = step(at).code;
            let written: Result<()> = write_band_samples(
                tables,
                writer,
                frame.res[b][ch],
                &frame.levels[b][ch],
            );
            proof {
                assert(writer@ =~= start + (done + piece));
                done = done + piece;
            }
            match written {
                Ok(_) => {},
                Err(e) => {
                    return Err(e);
                },
            }
            ch = ch + 1;
        }
        b = b + 1;
    }
    assert(whole.code =~= done);
    Ok(())
}

/// Writes what stands between the used-band count and the scalefactors.
fn write_head(
    tables: &Sv8TableSet,
    writer: &mut Sv7BitWriter,
    frame: &Sv8StereoFrameDecode,
    stream_ms: bool,
) -> (r: Result<()>)
    requires
        frame.nbands <= frame.res@.len(),
        frame.nbands <= frame.ms_flags@.len(),
        frame.nbands <= frame.scfi@.len(),
        forall|b: int|
            32 <= b < frame.nbands ==> !sv8_stereo_frame::in_scope(#[trigger] frame.res@[b]),
    ensures
        final(writer)@ == old(writer)@ + emit_head(*tables, frame@, stream_ms).code,
        r == emit_head(*tables, frame@, stream_ms).result,
{
    let ghost start = writer@;
    let ghost f = frame@;
    let nb: usize = frame.nbands as usize;
    let ghost types = coding::emit_each(type_emit(*tables, f.res, nb as int), 0, nb as int);
    let ghost flags = emit_flags(f.res, f.ms_flags, nb as int, stream_ms);
    let ghost methods = coding::emit_each(method_emit(*tables, f.res, f.scfi), 0, nb as int);
    match write_types(tables, writer, &frame.res, nb) {
        Ok(_) => {},
        Err(e) => {
            return Err(e);
        },
    }
    write_flags(writer, &frame.res, &frame.ms_flags, nb, stream_ms);
    let chosen: Result<()> = write_all_methods(tables, writer, &frame.res, &frame.scfi, nb);
    assert(writer@ =~= start + (types.code + flags.code + methods.code));
    chosen
}

/// Writes what follows the used-band count.
fn write_body(
    tables: &Sv8TableSet,
    writer: &mut Sv7BitWriter,
    frame: &Sv8StereoFrameDecode,
    keyframe: bool,
    stream_ms: bool,
    state: &mut Sv8FrameState,
) -> (r: Result<()>)
    requires
        frame.nbands <= frame.res@.len(),
        frame.nbands <= frame.ms_flags@.len(),
        frame.nbands <= frame.scfi@.len(),
        frame.nbands <= frame.granule_scf@.len(),
        frame.nbands <= frame.levels@.len(),
        forall|b: int|
            32 <= b < frame.nbands ==> !sv8_stereo_frame::in_scope(#[trigger] frame.res@[b]),
    ensures
        ({
            let w = body_write(*tables, frame@, keyframe, stream_ms, old(state)@);
            &&& final(writer)@ == old(writer)@ + w.emit.code
            &&& r == w.emit.result
            &&& final(state)@ == w.memory
        }),
{
    let ghost start = writer@;
    let ghost memory = state@;
    let ghost f = frame@;
    let nb: usize = frame.nbands as usize;
    let ghost head = emit_head(*tables, f, stream_ms);
    let ghost scf = coding::emit_each(
        scf_emit(*tables, keyframe, memory, f.res, f.scfi, f.scf),
        0,
        2 * nb,
    );
    let ghost levels = coding::emit_each(level_emit(*tables, f.res, f.levels), 0, 2 * nb);
    match write_head(tables, writer, frame, stream_ms) {
        Ok(_) => {},
        Err(e) => {
            return Err(e);
        },
    }
    let scaled: Result<()> = write_scalefactors(tables, writer, keyframe, state, frame, nb);
    assert(writer@ =~= start + (head.code + scf.code));
    match scaled {
        Ok(_) => {},
        Err(e) => {
            return Err(e);
        },
    }
    let sampled: Result<()> = write_levels(tables, writer, frame, nb);
    assert(writer@ =~= start + (head.code + scf.code + levels.code));
    sampled
}

/// How many bits the levels of a band and channel take.
pub fn band_sample_bits(
    tables: &Sv8TableSet,
    band_type: i8,
    levels: &[i32; SAMPLES_PER_BAND],
) -> (r: Result<u128>)
    ensures
        match r {
            Ok(n) => sv8_sample_encode::emit_levels(*tables, band_type, levels@).result is Ok && n
                == sv8_sample_encode::emit_levels(*tables, band_type, levels@).code.len() && n
                < 0x8_0000_0000_0000_0000,
            Err(e) => sv8_sample_encode::emit_levels(*tables, band_type, levels@).result == Err::<
                (),
                Error,
            >(e),
        },
{
    let mut writer: Sv7BitWriter = Sv7BitWriter::new();
    write_band_samples(tables, &mut writer, band_type, levels)?;
    Ok(writer.bit_len())
}

/// Encodes a two-channel frame body. `max_band` is the stream's highest band; the state
/// is to be the one that the decoder has at this frame. A frame with more bands than the
/// stream has, or with fewer than it counts, is refused, as is a value that its code does
/// not have. What was written and noted before a failure stays. No band past the 32nd
/// of a frame that is not refused so may code anything.
pub fn encode_sv8_stereo_frame(
    tables: &Sv8TableSet,
    writer: &mut Sv7BitWriter,
    frame: &Sv8StereoFrameDecode,
    max_band: u8,
    keyframe: bool,
    stream_ms: bool,
    state: &mut Sv8FrameState,
) -> (r: Result<()>)
    requires
        forall|b: int|
            complete(frame@, max_band) && 32 <= b < frame.nbands ==> !sv8_stereo_frame::in_scope(
                #[trigger] frame.res@[b],
            ),
    ensures
        ({
            let w = frame_write(
                *tables,
                frame@,
                max_band,
                keyframe,
                stream_ms,
                old(state)@,
            );
            &&& final(writer)@ == old(writer)@ + w.emit.code
            &&& r == w.emit.result
            &&& final(state)@ == w.memory
        }),
{
    proof {
        reveal(frame_write);
    }
    let ghost start = writer@;
    let ghost f = frame@;
    let nb: usize = frame.nbands as usize;
    if frame.nbands as u32 > max_band as u32 + 1 || frame.res.len() < nb || frame.ms_flags.len()
        < nb || frame.scfi.len() < nb || frame.granule_scf.len() < nb || frame.levels.len() < nb {
        assert(writer@ =~= start + Seq::<bool>::empty());
        return Err(Error::MaxBandOutOfRange(frame.nbands));
    }
    let ghost count = emit_count(*tables, max_band, keyframe, state@.last_nbands, f.nbands);
    match write_count(tables, writer, max_band, keyframe, state.last_nbands(), frame.nbands) {
        Ok(_) => {},
        Err(e) => {
            return Err(e);
        },
    }
    state.note_nbands(frame.nbands);
    let ghost body = body_write(*tables, f, keyframe, stream_ms, state@);
    let written: Result<()> = write_body(tables, writer, frame, keyframe, stream_ms, state);
    assert(writer@ =~= start + (count.code + body.emit.code));
    written
}

} // verus!
