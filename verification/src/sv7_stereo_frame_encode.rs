//! Writing the two-channel frame body of the older stream format.

use crate::bit_writer::Sv7BitWriter;
use crate::bits;
use crate::cns::CnsPrng;
use crate::coding;
use crate::coding::Emit;
use crate::error::{Error, Result};
use crate::sv7_band_decode::Sv7TableSet;
use crate::sv7_band_header;
use crate::sv7_band_header::{encode_res_header, SV7_MAX_BAND_INCLUSIVE};
use crate::sv7_frame_encode;
use crate::sv7_frame_encode::{encode_sv7_band_samples, Sv7EncBand};
use crate::sv7_scf_encode;
use crate::sv7_scf_encode::{choose_scfi, encode_sv7_band_dscf, encode_sv7_scfi};
use crate::sv7_stereo_frame;
use crate::sv7_stereo_frame::{BodyRead, ScfMemory, StereoBody, Sv7ScfMemory};
use crate::sv8_dscf_loop::SCF_GRANULES_PER_BAND;
use crate::sv8_stereo_frame;
use vstd::prelude::*;

verus! {

/// The bands in a row: left and right of the lowest band, then of the next.
pub open spec fn band_at(left: Seq<Sv7EncBand>, right: Seq<Sv7EncBand>, i: int) -> Sv7EncBand {
    if i % 2 == 0 {
        left[i / 2]
    } else {
        right[i / 2]
    }
}

/// The band types of the bands.
pub open spec fn types_of(left: Seq<Sv7EncBand>, right: Seq<Sv7EncBand>) -> Seq<[i8; 2]> {
    Seq::new(
        left.len(),
        |b: int| [sv7_frame_encode::type_of(left[b]), sv7_frame_encode::type_of(right[b])],
    )
}

/// The steps that write the scalefactor methods.
pub open spec fn method_emit(
    left: Seq<Sv7EncBand>,
    right: Seq<Sv7EncBand>,
) -> spec_fn(int) -> Emit {
    |i: int|
        match sv7_frame_encode::scf_of(band_at(left, right, i)) {
            None => Emit::of(Seq::empty()),
            Some(s) => sv7_scf_encode::emit_method(sv7_scf_encode::method_for(s)),
        }
}

/// The steps that write the scalefactors.
pub open spec fn scf_emit(
    left: Seq<Sv7EncBand>,
    right: Seq<Sv7EncBand>,
    memory: ScfMemory,
) -> spec_fn(int) -> Emit {
    |i: int|
        match sv7_frame_encode::scf_of(band_at(left, right, i)) {
            None => Emit::of(Seq::empty()),
            Some(s) => sv7_scf_encode::emit_scalefactors(
                sv7_scf_encode::method_for(s),
                s,
                memory(i % 2, i / 2),
            ),
        }
}

/// The memory behind the scalefactors of the first `n` channels and bands.
pub open spec fn memory_behind(
    memory: ScfMemory,
    left: Seq<Sv7EncBand>,
    right: Seq<Sv7EncBand>,
    n: int,
) -> ScfMemory {
    |ch: int, b: int|
        if 0 <= ch < 2 && 0 <= b && 2 * b + ch < n {
            match sv7_frame_encode::scf_of(band_at(left, right, 2 * b + ch)) {
                None => memory(ch, b),
                Some(s) => s[2],
            }
        } else {
            memory(ch, b)
        }
}

/// The steps that write the levels.
pub open spec fn level_emit(
    tables: Sv7TableSet,
    left: Seq<Sv7EncBand>,
    right: Seq<Sv7EncBand>,
) -> spec_fn(int) -> Emit {
    |i: int| sv7_frame_encode::emit_samples(tables, band_at(left, right, i))
}

/// The highest band that unequal channels point at.
pub open spec fn implied_band(left: nat, right: nat) -> u8 {
    let longest = if left >= right {
        left
    } else {
        right
    };
    if longest == 0 {
        0
    } else if longest > 256 {
        255
    } else {
        (longest - 1) as u8
    }
}

/// What writing a frame body comes to.
#[verifier::ext_equal]
pub struct BodyWrite {
    pub emit: Emit,
    pub memory: ScfMemory,
}

/// Writing the heads and the methods of the bands.
pub open spec fn emit_heads(
    tables: Sv7TableSet,
    left: Seq<Sv7EncBand>,
    right: Seq<Sv7EncBand>,
    ms_flags: Seq<bool>,
    stream_ms: bool,
) -> Emit {
    coding::emit_each(
        sv7_band_header::head_emit(tables.hdr@, types_of(left, right), ms_flags, stream_ms),
        0,
        left.len() as int,
    ).chain(coding::emit_each(method_emit(left, right), 0, 2 * left.len() as int))
}

/// Writing the scalefactors and the levels of the bands.
pub open spec fn emit_values(
    tables: Sv7TableSet,
    left: Seq<Sv7EncBand>,
    right: Seq<Sv7EncBand>,
    memory: ScfMemory,
) -> Emit {
    coding::emit_each(scf_emit(left, right, memory), 0, 2 * left.len() as int).chain(
        coding::emit_each(level_emit(tables, left, right), 0, 2 * left.len() as int),
    )
}

/// Writing a two-channel frame body. Unequal channels, and more than 32 bands, are refused.
#[verifier::opaque]
pub open spec fn body_write(
    tables: Sv7TableSet,
    left: Seq<Sv7EncBand>,
    right: Seq<Sv7EncBand>,
    ms_flags: Seq<bool>,
    stream_ms: bool,
    memory: ScfMemory,
) -> BodyWrite {
    if left.len() > 32 {
        BodyWrite {
            emit: Emit::fail(Error::MaxBandOutOfRange((left.len() % 256) as u8)),
            memory,
        }
    } else if left.len() != right.len() || left.len() != ms_flags.len() {
        BodyWrite {
            emit: Emit::fail(Error::MaxBandOutOfRange(implied_band(left.len(), right.len()))),
            memory,
        }
    } else {
        let heads = emit_heads(tables, left, right, ms_flags, stream_ms);
        BodyWrite {
            emit: heads.chain(emit_values(tables, left, right, memory)),
            memory: if heads.result is Ok {
                memory_behind(
                    memory,
                    left,
                    right,
                    coding::stopped(
                        scf_emit(left, right, memory),
                        0,
                        2 * left.len() as int,
                    ),
                )
            } else {
                memory
            },
        }
    }
}

// ---------------------------------------------------------------------------
// Encoders
// ---------------------------------------------------------------------------

/// The band types of the bands. Unequal channels are refused.
fn build_res_bands(left: &[Sv7EncBand], right: &[Sv7EncBand], ms_flags: &[bool]) -> (r: Result<
    Vec<[i8; 2]>,
>)
    ensures
        if left@.len() != right@.len() || left@.len() != ms_flags@.len() {
            r == Err::<Vec<[i8; 2]>, Error>(
                Error::MaxBandOutOfRange(implied_band(left@.len(), right@.len())),
            )
        } else {
            r is Ok && r->Ok_0@ == types_of(left@, right@)
        },
{
    if left.len() != right.len() || left.len() != ms_flags.len() {
        let longest: usize = if left.len() >= right.len() {
            left.len()
        } else {
            right.len()
        };
        let implied: u8 = if longest == 0 {
            0
        } else if longest > 256 {
            255
        } else {
            (longest - 1) as u8
        };
        return Err(Error::MaxBandOutOfRange(implied));
    }
    let mut out: Vec<[i8; 2]> = Vec::new();
    while out.len() < left.len()
        invariant
            left@.len() == right@.len(),
            out@.len() <= left@.len(),
            out@ == types_of(left@, right@).take(out@.len() as int),
        decreases left@.len() - out@.len(),
    {
        let b: usize = out.len();
        out.push([left[b].res(), right[b].res()]);
        assert(out@ =~= types_of(left@, right@).take(b + 1));
    }
    assert(out@ =~= types_of(left@, right@));
    Ok(out)
}

/// A band of the row.
fn band_of(left: &[Sv7EncBand], right: &[Sv7EncBand], i: usize) -> (band: Sv7EncBand)
    requires
        left@.len() == right@.len(),
        i < 2 * left@.len(),
    ensures
        band == band_at(left@, right@, i as int),
{
    if i % 2 == 0 {
        left[i / 2]
    } else {
        right[i / 2]
    }
}

/// Writes the scalefactor methods.
fn write_methods(writer: &mut Sv7BitWriter, left: &[Sv7EncBand], right: &[Sv7EncBand]) -> (r:
    Result<()>)
    requires
        left@.len() == right@.len() <= 32,
    ensures
        ({
            let e = coding::emit_each(method_emit(left@, right@), 0, 2 * left@.len() as int);
            final(writer)@ == old(writer)@ + e.code && r == e.result
        }),
{
    let ghost start = writer@;
    let ghost step = method_emit(left@, right@);
    let n: usize = 2 * left.len();
    let ghost whole = coding::emit_each(step, 0, n as int);
    let ghost mut done: Seq<bool> = Seq::empty();
    proof {
        assert(start + done =~= start);
        assert(whole =~= whole.after(done));
    }
    let mut i: usize = 0;
    while i < n
        invariant
            i <= n == 2 * left@.len(),
            left@.len() == right@.len() <= 32,
            start == old(writer)@,
            step == method_emit(left@, right@),
            whole == coding::emit_each(step, 0, n as int),
            whole == coding::emit_each(step, i as int, n as int).after(done),
            writer@ == start + done,
        decreases n - i,
    {
        proof {
            coding::lemma_emit_one(step, i as int, n as int, done);
        }
        let one: Result<()> = match band_of(left, right, i).scf() {
            None => Ok(()),
            Some(s) => encode_sv7_scfi(writer, choose_scfi(s)),
        };
        assert(writer@ =~= start + (done + step(i as int).code));
        match one {
            Ok(_) => {},
            Err(e) => {
                return Err(e);
            },
        }
        proof {
            done = done + step(i as int).code;
        }
        i = i + 1;
    }
    assert(whole.code =~= done);
    Ok(())
}

/// Writes the scalefactors. The memory is advanced by every band that was written.
fn write_scalefactors(
    writer: &mut Sv7BitWriter,
    left: &[Sv7EncBand],
    right: &[Sv7EncBand],
    memory: &mut Sv7ScfMemory,
) -> (r: Result<()>)
    requires
        left@.len() == right@.len() <= 32,
    ensures
        ({
            let step = scf_emit(left@, right@, old(memory)@);
            let e = coding::emit_each(step, 0, 2 * left@.len() as int);
            &&& final(writer)@ == old(writer)@ + e.code
            &&& r == e.result
            &&& final(memory)@ == memory_behind(
                old(memory)@,
                left@,
                right@,
                coding::stopped(step, 0, 2 * left@.len() as int),
            )
        }),
{
    let ghost start = writer@;
    let ghost first = memory@;
    let ghost step = scf_emit(left@, right@, first);
    let n: usize = 2 * left.len();
    let ghost whole = coding::emit_each(step, 0, n as int);
    let ghost mut done: Seq<bool> = Seq::empty();
    proof {
        assert(start + done =~= start);
        assert(whole =~= whole.after(done));
        assert(memory@ =~= memory_behind(first, left@, right@, 0));
    }
    let mut i: usize = 0;
    while i < n
        invariant
            i <= n == 2 * left@.len(),
            left@.len() == right@.len() <= 32,
            start == old(writer)@,
            first == old(memory)@,
            step == scf_emit(left@, right@, first),
            whole == coding::emit_each(step, 0, n as int),
            whole == coding::emit_each(step, i as int, n as int).after(done),
            coding::stopped(step, 0, n as int) == coding::stopped(step, i as int, n as int),
            writer@ == start + done,
            memory@ == memory_behind(first, left@, right@, i as int),
        decreases n - i,
    {
        proof {
            coding::lemma_emit_one(step, i as int, n as int, done);
        }
        let b: usize = i / 2;
        let ch: usize = i % 2;
        assert(2 * b + ch == i);
        assert((memory@)(ch as int, b as int) == first(ch as int, b as int));
        let scf: Option<[i32; SCF_GRANULES_PER_BAND]> = band_of(left, right, i).scf();
        let one: Result<()> = match scf {
            None => Ok(()),
            Some(s) => encode_sv7_band_dscf(writer, choose_scfi(s), s, memory.reference(ch, b)),
        };
        assert(writer@ =~= start + (done + step(i as int).code));
        match one {
            Ok(_) => {},
            Err(e) => {
                return Err(e);
            },
        }
        match scf {
            None => {},
            Some(s) => {
                memory.update(ch, b, s[2]);
            },
        }
        proof {
            let now = memory_behind(first, left@, right@, i + 1);
            assert forall|c: int, d: int| #[trigger] (memory@)(c, d) == now(c, d) by {
                if 0 <= c < 2 && 2 * d + c == i {
                    assert(c == ch && d == b);
                }
            }
            assert(memory@ =~= now);
            done = done + step(i as int).code;
        }
        i = i + 1;
    }
    assert(whole.code =~= done);
    Ok(())
}

/// Writes the levels.
fn write_samples(
    tables: &Sv7TableSet,
    writer: &mut Sv7BitWriter,
    left: &[Sv7EncBand],
    right: &[Sv7EncBand],
) -> (r: Result<()>)
    requires
        left@.len() == right@.len() <= 32,
    ensures
        ({
            let e = coding::emit_each(
                level_emit(*tables, left@, right@),
                0,
                2 * left@.len() as int,
            );
            final(writer)@ == old(writer)@ + e.code && r == e.result
        }),
{
    let ghost start = writer@;
    let ghost step = level_emit(*tables, left@, right@);
    let n: usize = 2 * left.len();
    let ghost whole = coding::emit_each(step, 0, n as int);
    let ghost mut done: Seq<bool> = Seq::empty();
    proof {
        assert(start + done =~= start);
        assert(whole =~= whole.after(done));
    }
    let mut i: usize = 0;
    while i < n
        invariant
            i <= n == 2 * left@.len(),
            left@.len() == right@.len() <= 32,
            start == old(writer)@,
            step == level_emit(*tables, left@, right@),
            whole == coding::emit_each(step, 0, n as int),
            whole == coding::emit_each(step, i as int, n as int).after(done),
            writer@ == start + done,
        decreases n - i,
    {
        proof {
            coding::lemma_emit_one(step, i as int, n as int, done);
        }
        let band: Sv7EncBand = band_of(left, right, i);
        let one: Result<()> = encode_sv7_band_samples(tables, writer, &band);
        assert(writer@ =~= start + (done + step(i as int).code));
        match one {
            Ok(_) => {},
            Err(e) => {
                return Err(e);
            },
        }
        proof {
            done = done + step(i as int).code;
        }
        i = i + 1;
    }
    assert(whole.code =~= done);
    Ok(())
}

/// Writes a two-channel frame body. Unequal channels, and more than 32 bands, are refused.
/// The memory is advanced as far as scalefactors were written, also before a failure.
pub fn encode_sv7_stereo_frame(
    tables: &Sv7TableSet,
    writer: &mut Sv7BitWriter,
    left: &[Sv7EncBand],
    right: &[Sv7EncBand],
    ms_flags: &[bool],
    stream_ms: bool,
    scf: &mut Sv7ScfMemory,
) -> (r: Result<()>)
    ensures
        ({
            let w = body_write(*tables, left@, right@, ms_flags@, stream_ms, old(scf)@);
            &&& final(writer)@ == old(writer)@ + w.emit.code
            &&& r == w.emit.result
            &&& final(scf)@ == w.memory
        }),
{
    let ghost start = writer@;
    proof {
        reveal(body_write);
        assert(start + Seq::<bool>::empty() =~= start);
    }
    if left.len() > SV7_MAX_BAND_INCLUSIVE as usize + 1 {
        return Err(Error::MaxBandOutOfRange((left.len() % 256) as u8));
    }
    let res: Vec<[i8; 2]> = match build_res_bands(left, right, ms_flags) {
        Ok(v) => v,
        Err(e) => {
            return Err(e);
        },
    };
    let ghost a = coding::emit_each(
        sv7_band_header::head_emit(tables.hdr@, res@, ms_flags@, stream_ms),
        0,
        left@.len() as int,
    );
    let ghost b = coding::emit_each(method_emit(left@, right@), 0, 2 * left@.len() as int);
    let ghost c = coding::emit_each(
        scf_emit(left@, right@, scf@),
        0,
        2 * left@.len() as int,
    );
    let ghost d = coding::emit_each(level_emit(*tables, left@, right@), 0, 2 * left@.len() as int);
    match encode_res_header(tables.hdr, writer, &res, ms_flags, stream_ms) {
        Ok(_) => {},
        Err(e) => {
            return Err(e);
        },
    }
    let methods: Result<()> = write_methods(writer, left, right);
    assert(writer@ =~= start + (a.code + b.code));
    match methods {
        Ok(_) => {},
        Err(e) => {
            return Err(e);
        },
    }
    let scalefactors: Result<()> = write_scalefactors(writer, left, right, scf);
    assert(writer@ =~= start + ((a.code + b.code) + c.code));
    match scalefactors {
        Ok(_) => {},
        Err(e) => {
            return Err(e);
        },
    }
    let samples: Result<()> = write_samples(tables, writer, left, right);
    assert(writer@ =~= start + ((a.code + b.code) + (c.code + d.code)));
    samples
}

// ---------------------------------------------------------------------------
// Law
// ---------------------------------------------------------------------------

/// The frame body that a decoder yields for bands.
pub open spec fn body_for(
    left: Seq<Sv7EncBand>,
    right: Seq<Sv7EncBand>,
    ms_flags: Seq<bool>,
    stream_ms: bool,
    noise: CnsPrng,
) -> StereoBody {
    let res = types_of(left, right);
    StereoBody {
        res,
        ms_flags: Seq::new(
            left.len(),
            |b: int| stream_ms && sv8_stereo_frame::in_scope(res[b]) && ms_flags[b],
        ),
        scf: Seq::new(
            2 * left.len(),
            |i: int|
                match sv7_frame_encode::scf_of(band_at(left, right, i)) {
                    None => [0i32, 0i32, 0i32],
                    Some(s) => s,
                },
        ),
        levels: Seq::new(
            2 * left.len(),
            |i: int|
                sv7_frame_encode::levels_for(
                    band_at(left, right, i),
                    sv8_stereo_frame::noise_after(noise, res, i),
                ),
        ),
    }
}

/// The methods that are written for bands; zero where the channel codes nothing.
spec fn methods_for(left: Seq<Sv7EncBand>, right: Seq<Sv7EncBand>) -> Seq<u8> {
    Seq::new(
        2 * left.len(),
        |i: int|
            match sv7_frame_encode::scf_of(band_at(left, right, i)) {
                None => 0u8,
                Some(s) => sv7_scf_encode::method_for(s),
            },
    )
}

/// The empty bands are those of band type 0.
spec fn told_apart(left: Seq<Sv7EncBand>, right: Seq<Sv7EncBand>) -> bool {
    forall|i: int|
        0 <= i < 2 * left.len() ==> (sv7_frame_encode::type_of(
            #[trigger] band_at(left, right, i),
        ) == 0 <==> band_at(left, right, i) is Empty)
}

proof fn lemma_row(left: Seq<Sv7EncBand>, right: Seq<Sv7EncBand>, i: int)
    requires
        left.len() == right.len(),
        0 <= i < 2 * left.len(),
    ensures
        types_of(left, right)[i / 2][i % 2] == sv7_frame_encode::type_of(band_at(left, right, i)),
{
}

proof fn lemma_methods_read_back(
    bits: Seq<bool>,
    pos: nat,
    left: Seq<Sv7EncBand>,
    right: Seq<Sv7EncBand>,
)
    requires
        left.len() == right.len(),
        told_apart(left, right),
        ({
            let e = coding::emit_each(method_emit(left, right), 0, 2 * left.len() as int);
            e.result is Ok && coding::readable(bits, pos, e.code)
        }),
    ensures
        sv7_stereo_frame::method_sweep(bits, pos, types_of(left, right)).parsed() == (
            Ok::<Seq<u8>, Error>(methods_for(left, right)),
            pos + coding::emit_each(
                method_emit(left, right),
                0,
                2 * left.len() as int,
            ).code.len(),
        ),
{
    let parse = sv7_stereo_frame::method_step(bits, types_of(left, right));
    let emit = method_emit(left, right);
    let items = methods_for(left, right);
    assert forall|j: int, p: nat|
        0 <= j < items.len() && emit(j).result is Ok && coding::readable(
            bits,
            p,
            emit(j).code,
        ) implies #[trigger] parse(items.take(j), p) == (
        Ok::<u8, Error>(items[j]),
        (p + emit(j).code.len()) as nat,
    ) by {
        lemma_row(left, right, j);
        match sv7_frame_encode::scf_of(band_at(left, right, j)) {
            None => {},
            Some(s) => {
                sv7_scf_encode::law_method_reads_back(bits, p, sv7_scf_encode::method_for(s));
            },
        }
    }
    assert(items.take(0) =~= Seq::<u8>::empty());
    coding::lemma_sweep_reads_back(bits, parse, emit, items, 0, pos);
}

proof fn lemma_scf_reads_back(
    bits: Seq<bool>,
    pos: nat,
    left: Seq<Sv7EncBand>,
    right: Seq<Sv7EncBand>,
    memory: ScfMemory,
)
    requires
        left.len() == right.len(),
        told_apart(left, right),
        ({
            let e = coding::emit_each(scf_emit(left, right, memory), 0, 2 * left.len() as int);
            e.result is Ok && coding::readable(bits, pos, e.code)
        }),
    ensures
        ({
            let scf = sv7_stereo_frame::scf_sweep(
                bits,
                pos,
                memory,
                types_of(left, right),
                methods_for(left, right),
            );
            &&& scf.result is Ok
            &&& scf.done == body_for(left, right, Seq::empty(), false, CnsPrng { down: 0, up: 0 }).scf
            &&& scf.pos == pos + coding::emit_each(
                scf_emit(left, right, memory),
                0,
                2 * left.len() as int,
            ).code.len()
        }),
{
    let parse = sv7_stereo_frame::scf_step(
        bits,
        memory,
        types_of(left, right),
        methods_for(left, right),
    );
    let emit = scf_emit(left, right, memory);
    let items = body_for(left, right, Seq::empty(), false, CnsPrng { down: 0, up: 0 }).scf;
    assert forall|j: int, p: nat|
        0 <= j < items.len() && emit(j).result is Ok && coding::readable(
            bits,
            p,
            emit(j).code,
        ) implies #[trigger] parse(items.take(j), p) == (
        Ok::<[i32; 3], Error>(items[j]),
        (p + emit(j).code.len()) as nat,
    ) by {
        lemma_row(left, right, j);
        match sv7_frame_encode::scf_of(band_at(left, right, j)) {
            None => {},
            Some(s) => {
                sv7_scf_encode::law_scalefactors_read_back(
                    bits,
                    p,
                    sv7_scf_encode::method_for(s),
                    s,
                    memory(j % 2, j / 2),
                );
            },
        }
    }
    assert(items.take(0) =~= Seq::<[i32; 3]>::empty());
    coding::lemma_sweep_reads_back(bits, parse, emit, items, 0, pos);
}

proof fn lemma_levels_read_back(
    tables: Sv7TableSet,
    bits: Seq<bool>,
    pos: nat,
    left: Seq<Sv7EncBand>,
    right: Seq<Sv7EncBand>,
    noise: CnsPrng,
)
    requires
        tables.orderly(),
        left.len() == right.len(),
        ({
            let e = coding::emit_each(level_emit(tables, left, right), 0, 2 * left.len() as int);
            e.result is Ok && coding::readable(bits, pos, e.code)
        }),
    ensures
        ({
            let levels = sv7_stereo_frame::level_sweep(
                tables,
                bits,
                pos,
                noise,
                types_of(left, right),
            );
            &&& levels.result is Ok
            &&& levels.done == body_for(left, right, Seq::empty(), false, noise).levels
            &&& levels.pos == pos + coding::emit_each(
                level_emit(tables, left, right),
                0,
                2 * left.len() as int,
            ).code.len()
        }),
{
    let res = types_of(left, right);
    let parse = sv7_stereo_frame::level_step(tables, bits, noise, res);
    let emit = level_emit(tables, left, right);
    let items = body_for(left, right, Seq::empty(), false, noise).levels;
    assert forall|j: int, p: nat|
        0 <= j < items.len() && emit(j).result is Ok && coding::readable(
            bits,
            p,
            emit(j).code,
        ) implies #[trigger] parse(items.take(j), p) == (
        Ok::<Seq<i32>, Error>(items[j]),
        (p + emit(j).code.len()) as nat,
    ) by {
        lemma_row(left, right, j);
        sv7_frame_encode::law_samples_read_back(
            tables,
            bits,
            p,
            band_at(left, right, j),
            sv8_stereo_frame::noise_after(noise, res, j),
        );
    }
    assert(items.take(0) =~= Seq::<Seq<i32>>::empty());
    coding::lemma_sweep_reads_back(bits, parse, emit, items, 0, pos);
}

/// Bands whose levels can be written are empty exactly where their band type is 0.
proof fn lemma_told_apart(
    tables: Sv7TableSet,
    left: Seq<Sv7EncBand>,
    right: Seq<Sv7EncBand>,
)
    requires
        left.len() == right.len(),
        coding::emit_each(
            level_emit(tables, left, right),
            0,
            2 * left.len() as int,
        ).result is Ok,
    ensures
        told_apart(left, right),
{
    assert forall|i: int| 0 <= i < 2 * left.len() implies (sv7_frame_encode::type_of(
        #[trigger] band_at(left, right, i),
    ) == 0 <==> band_at(left, right, i) is Empty) by {
        sv7_frame_encode::lemma_each_ok(
            level_emit(tables, left, right),
            0,
            2 * left.len() as int,
            i,
        );
    }
}

/// Where a run succeeds, it stops at its end.
proof fn lemma_never_stopped(step: spec_fn(int) -> Emit, from: int, n: int)
    requires
        from <= n,
        coding::emit_each(step, from, n).result is Ok,
    ensures
        coding::stopped(step, from, n) == n,
    decreases n - from,
{
    if from < n {
        lemma_never_stopped(step, from + 1, n);
    }
}

/// A written frame body decodes to its bands, and leaves a decoder with the memory that
/// writing it left.
pub proof fn law_body_reads_back(
    tables: Sv7TableSet,
    bits: Seq<bool>,
    pos: nat,
    left: Seq<Sv7EncBand>,
    right: Seq<Sv7EncBand>,
    ms_flags: Seq<bool>,
    stream_ms: bool,
    memory: ScfMemory,
    noise: CnsPrng,
)
    requires
        tables.orderly(),
        left.len() > 0,
        ({
            let w = body_write(tables, left, right, ms_flags, stream_ms, memory);
            w.emit.result is Ok && coding::readable(bits, pos, w.emit.code)
        }),
    ensures
        sv7_stereo_frame::body_read(
            tables,
            bits,
            pos,
            (left.len() - 1) as u8,
            stream_ms,
            memory,
            noise,
        ) == (BodyRead {
            result: Ok(body_for(left, right, ms_flags, stream_ms, noise)),
            pos: pos + body_write(
                tables,
                left,
                right,
                ms_flags,
                stream_ms,
                memory,
            ).emit.code.len(),
            memory: body_write(tables, left, right, ms_flags, stream_ms, memory).memory,
            noise: sv8_stereo_frame::noise_after(
                noise,
                types_of(left, right),
                2 * left.len() as int,
            ),
        }),
{
    reveal(body_write);
    reveal(sv7_stereo_frame::body_read);
    let n = left.len() as int;
    let res = types_of(left, right);
    let a = coding::emit_each(
        sv7_band_header::head_emit(tables.hdr@, res, ms_flags, stream_ms),
        0,
        n,
    );
    let b = coding::emit_each(method_emit(left, right), 0, 2 * n);
    let c = coding::emit_each(scf_emit(left, right, memory), 0, 2 * n);
    let d = coding::emit_each(level_emit(tables, left, right), 0, 2 * n);
    let whole = body_write(tables, left, right, ms_flags, stream_ms, memory);
    assert(whole.emit.code == (a.code + b.code) + (c.code + d.code));
    bits::lemma_at_concat(bits, pos, a.code + b.code, c.code + d.code);
    bits::lemma_at_concat(bits, pos, a.code, b.code);
    let p = pos + a.code.len();
    let q = p + b.code.len();
    bits::lemma_at_concat(bits, q, c.code, d.code);
    let s = q + c.code.len();
    lemma_told_apart(tables, left, right);
    sv7_band_header::law_heads_read_back(tables.hdr@, bits, pos, res, ms_flags, stream_ms);
    let heads = sv7_band_header::heads_for(res, ms_flags, stream_ms);
    let body = body_for(left, right, ms_flags, stream_ms, noise);
    assert(sv7_stereo_frame::types_of(heads) =~= res);
    assert(sv7_stereo_frame::flags_of(heads) =~= body.ms_flags);
    lemma_methods_read_back(bits, p, left, right);
    lemma_scf_reads_back(bits, q, left, right, memory);
    lemma_levels_read_back(tables, bits, s, left, right, noise);
    let blank = body_for(left, right, Seq::empty(), false, CnsPrng { down: 0, up: 0 });
    assert(body.scf =~= blank.scf);
    assert(body.levels =~= body_for(left, right, Seq::empty(), false, noise).levels);
    lemma_never_stopped(scf_emit(left, right, memory), 0, 2 * n);
    let after = sv7_stereo_frame::memory_after(memory, res, body.scf);
    let behind = memory_behind(memory, left, right, 2 * n);
    assert forall|ch: int, k: int| #[trigger] after(ch, k) == behind(ch, k) by {
        if 0 <= ch < 2 && 0 <= k && 2 * k + ch < 2 * n {
            lemma_row(left, right, 2 * k + ch);
            assert((2 * k + ch) / 2 == k && (2 * k + ch) % 2 == ch);
        }
    }
    assert(after =~= behind);
}

} // verus!
