//! The two-channel frame body of the older stream format.
//!
//! A body is, in this order: the heads of the bands; and three sweeps from the lowest band
//! up, left before right, for the scalefactor methods, the scalefactors and the levels. A
//! channel's first scalefactor of a band is a difference to its last one of the same band
//! before.

use crate::bit_reader::Sv7BitReader;
use crate::cns::{CnsPrng, SAMPLES_PER_BAND};
use crate::coding;
use crate::coding::{Parsed, Swept};
use crate::error::{Error, Result};
use crate::sv7_band_decode;
use crate::sv7_band_decode::{decode_sv7_channel, Sv7TableSet};
use crate::sv7_band_header;
use crate::sv7_band_header::{decode_res_header, Sv7ResBand};
use crate::sv7_scf_decode;
use crate::sv7_scf_decode::{decode_sv7_band_dscf, decode_sv7_scfi, Sv7BandScf};
use crate::sv8_dscf_loop::SCF_GRANULES_PER_BAND;
use crate::sv8_frame_decode::SV7_SUBBAND_COUNT;
use crate::sv8_stereo_frame;
use vstd::prelude::*;

verus! {

// ---------------------------------------------------------------------------
// What one frame leaves for the next
// ---------------------------------------------------------------------------

/// The last scalefactor of every channel and band.
#[derive(Debug, Clone, PartialEq, Eq)]
pub struct Sv7ScfMemory {
    state: [[i32; SV7_SUBBAND_COUNT]; 2],
}

/// The last scalefactor of every channel and band, as the contracts speak of it.
pub type ScfMemory = spec_fn(int, int) -> i32;

impl View for Sv7ScfMemory {
    type V = ScfMemory;

    closed spec fn view(&self) -> ScfMemory {
        |ch: int, b: int|
            if 0 <= ch < 2 && 0 <= b < 32 {
                self.state[ch][b]
            } else {
                0
            }
    }
}

/// The memory at the start of a stream.
pub open spec fn blank() -> ScfMemory {
    |ch: int, b: int| 0i32
}

/// The memory with another last scalefactor of a channel and band.
pub open spec fn with_scf(memory: ScfMemory, ch: int, band: int, v: i32) -> ScfMemory {
    |c: int, b: int|
        if c == ch && b == band {
            v
        } else {
            memory(c, b)
        }
}

impl Sv7ScfMemory {
    /// The memory at the start of a stream.
    #[must_use]
    pub fn new() -> (m: Self)
        ensures
            m@ == blank(),
    {
        let m: Sv7ScfMemory = Sv7ScfMemory { state: [[0;32];2] };
        assert(m@ =~= blank());
        m
    }

    /// The last scalefactor of a channel and band.
    #[must_use]
    pub fn reference(&self, ch: usize, b: usize) -> (s: i32)
        requires
            ch < 2,
            b < 32,
        ensures
            s == (self@)(ch as int, b as int),
    {
        self.state[ch][b]
    }

    /// Notes the last scalefactor of a channel and band.
    pub fn update(&mut self, ch: usize, b: usize, scf2: i32)
        requires
            ch < 2,
            b < 32,
        ensures
            final(self)@ == with_scf(old(self)@, ch as int, b as int, scf2),
    {
        let mut row: [i32; SV7_SUBBAND_COUNT] = self.state[ch];
        row[b] = scf2;
        self.state[ch] = row;
        assert(self@ =~= with_scf(old(self)@, ch as int, b as int, scf2));
    }

    /// Back to the start of a stream.
    pub fn reset(&mut self)
        ensures
            final(self)@ == blank(),
    {
        *self = Sv7ScfMemory::new();
    }
}

impl Default for Sv7ScfMemory {
    fn default() -> (m: Self)
        ensures
            m@ == blank(),
    {
        Sv7ScfMemory::new()
    }
}

// ---------------------------------------------------------------------------
// A decoded frame
// ---------------------------------------------------------------------------

/// A decoded two-channel frame body. Scalefactors and levels are in a row: left and right of
/// the lowest band, then of the next; they are zero where the channel codes nothing.
#[derive(Debug, Clone, PartialEq, Eq)]
pub struct Sv7StereoFrame {
    /// Band types, left and right.
    pub res: Vec<[i8; 2]>,
    /// Mid/side flags.
    pub ms_flags: Vec<bool>,
    /// Scalefactors.
    pub granule_scf: Vec<[i32; SCF_GRANULES_PER_BAND]>,
    /// Levels.
    pub levels: Vec<[i32; SAMPLES_PER_BAND]>,
}

/// A decoded frame body, as the contracts speak of it.
#[verifier::ext_equal]
pub struct StereoBody {
    pub res: Seq<[i8; 2]>,
    pub ms_flags: Seq<bool>,
    pub scf: Seq<[i32; 3]>,
    pub levels: Seq<Seq<i32>>,
}

/// Levels in a row, as the contracts speak of them.
pub open spec fn rows_of(levels: Seq<[i32; SAMPLES_PER_BAND]>) -> Seq<Seq<i32>> {
    Seq::new(levels.len(), |i: int| levels[i]@)
}

impl View for Sv7StereoFrame {
    type V = StereoBody;

    open spec fn view(&self) -> StereoBody {
        StereoBody {
            res: self.res@,
            ms_flags: self.ms_flags@,
            scf: self.granule_scf@,
            levels: rows_of(self.levels@),
        }
    }
}

/// What decoding a frame body comes to.
#[verifier::ext_equal]
pub struct BodyRead {
    pub result: Result<StereoBody>,
    pub pos: nat,
    pub memory: ScfMemory,
    pub noise: CnsPrng,
}

// ---------------------------------------------------------------------------
// The three sweeps
// ---------------------------------------------------------------------------

/// The steps of the first sweep: the scalefactor methods; zero where the channel codes
/// nothing.
pub open spec fn method_step(bits: Seq<bool>, res: Seq<[i8; 2]>) -> spec_fn(
    Seq<u8>,
    nat,
) -> Parsed<u8> {
    |done: Seq<u8>, pos: nat|
        {
            let i = done.len() as int;
            if res[i / 2][i % 2] == 0 {
                (Ok(0u8), pos)
            } else {
                sv7_scf_decode::parse_method(bits, pos)
            }
        }
}

/// Outcome of decoding a channel's scalefactors of a band.
pub open spec fn parse_scf(
    bits: Seq<bool>,
    pos: nat,
    band_type: i8,
    scfi: u8,
    reference: i32,
) -> Parsed<[i32; 3]> {
    if band_type == 0 {
        (Ok([0i32, 0i32, 0i32]), pos)
    } else {
        match sv7_scf_decode::parse_scalefactors(bits, pos, scfi, reference) {
            (Err(e), p) => (Err(e), p),
            (Ok(s), p) => (Ok(s.indices), p),
        }
    }
}

/// The steps of the second sweep: the scalefactors.
pub open spec fn scf_step(
    bits: Seq<bool>,
    memory: ScfMemory,
    res: Seq<[i8; 2]>,
    scfi: Seq<u8>,
) -> spec_fn(Seq<[i32; 3]>, nat) -> Parsed<[i32; 3]> {
    |done: Seq<[i32; 3]>, pos: nat|
        {
            let i = done.len() as int;
            parse_scf(bits, pos, res[i / 2][i % 2], scfi[i], memory(i % 2, i / 2))
        }
}

/// The memory behind the scalefactors `done` of the second sweep.
pub open spec fn memory_after(
    memory: ScfMemory,
    res: Seq<[i8; 2]>,
    done: Seq<[i32; 3]>,
) -> ScfMemory {
    |ch: int, b: int|
        if 0 <= ch < 2 && 0 <= b && 2 * b + ch < done.len() && res[b][ch] != 0 {
            done[2 * b + ch][2]
        } else {
            memory(ch, b)
        }
}

/// The steps of the third sweep: the levels.
pub open spec fn level_step(
    tables: Sv7TableSet,
    bits: Seq<bool>,
    noise: CnsPrng,
    res: Seq<[i8; 2]>,
) -> spec_fn(Seq<Seq<i32>>, nat) -> Parsed<Seq<i32>> {
    |done: Seq<Seq<i32>>, pos: nat|
        {
            let i = done.len() as int;
            sv7_band_decode::parse_channel(
                tables,
                bits,
                pos,
                res[i / 2][i % 2],
                sv8_stereo_frame::noise_after(noise, res, i),
            )
        }
}

// ---------------------------------------------------------------------------
// The whole body
// ---------------------------------------------------------------------------

/// The first sweep.
pub open spec fn method_sweep(bits: Seq<bool>, pos: nat, res: Seq<[i8; 2]>) -> Swept<u8> {
    coding::sweep(method_step(bits, res), 2 * res.len(), Seq::empty(), pos)
}

/// The second sweep.
pub open spec fn scf_sweep(
    bits: Seq<bool>,
    pos: nat,
    memory: ScfMemory,
    res: Seq<[i8; 2]>,
    scfi: Seq<u8>,
) -> Swept<[i32; 3]> {
    coding::sweep(scf_step(bits, memory, res, scfi), 2 * res.len(), Seq::empty(), pos)
}

/// The third sweep.
pub open spec fn level_sweep(
    tables: Sv7TableSet,
    bits: Seq<bool>,
    pos: nat,
    noise: CnsPrng,
    res: Seq<[i8; 2]>,
) -> Swept<Seq<i32>> {
    coding::sweep(level_step(tables, bits, noise, res), 2 * res.len(), Seq::empty(), pos)
}

/// The band types in the heads of the bands.
pub open spec fn types_of(heads: Seq<Sv7ResBand>) -> Seq<[i8; 2]> {
    Seq::new(heads.len(), |b: int| heads[b].res)
}

/// The mid/side flags in the heads of the bands; a head without one counts as clear.
pub open spec fn flags_of(heads: Seq<Sv7ResBand>) -> Seq<bool> {
    Seq::new(heads.len(), |b: int| heads[b].ms_flag == Some(true))
}

/// Decoding the scalefactors and the levels, behind the methods.
pub open spec fn values_read(
    tables: Sv7TableSet,
    bits: Seq<bool>,
    pos: nat,
    memory: ScfMemory,
    noise: CnsPrng,
    res: Seq<[i8; 2]>,
    ms_flags: Seq<bool>,
    scfi: Seq<u8>,
) -> BodyRead {
    let scf = scf_sweep(bits, pos, memory, res, scfi);
    let after = memory_after(memory, res, scf.done);
    match scf.result {
        Err(e) => BodyRead { result: Err(e), pos: scf.pos, memory: after, noise },
        Ok(_) => {
            let levels = level_sweep(tables, bits, scf.pos, noise, res);
            BodyRead {
                result: match levels.result {
                    Err(e) => Err(e),
                    Ok(_) => Ok(
                        StereoBody { res, ms_flags, scf: scf.done, levels: levels.done },
                    ),
                },
                pos: levels.pos,
                memory: after,
                noise: sv8_stereo_frame::noise_after(noise, res, levels.done.len() as int),
            }
        },
    }
}

/// Decoding a two-channel frame body.
#[verifier::opaque]
pub open spec fn body_read(
    tables: Sv7TableSet,
    bits: Seq<bool>,
    pos: nat,
    max_band: u8,
    stream_ms: bool,
    memory: ScfMemory,
    noise: CnsPrng,
) -> BodyRead {
    if max_band > 31 {
        BodyRead { result: Err(Error::MaxBandOutOfRange(max_band)), pos, memory, noise }
    } else {
        match sv7_band_header::parse_heads(
            tables.hdr@,
            bits,
            pos,
            (max_band + 1) as nat,
            stream_ms,
        ) {
            (Err(e), p) => BodyRead { result: Err(e), pos: p, memory, noise },
            (Ok(heads), p) => match method_sweep(bits, p, types_of(heads)).parsed() {
                (Err(e), q) => BodyRead { result: Err(e), pos: q, memory, noise },
                (Ok(scfi), q) => values_read(
                    tables,
                    bits,
                    q,
                    memory,
                    noise,
                    types_of(heads),
                    flags_of(heads),
                    scfi,
                ),
            },
        }
    }
}

// ---------------------------------------------------------------------------
// Decoders
// ---------------------------------------------------------------------------

/// The first sweep.
fn decode_methods(reader: &mut Sv7BitReader<'_>, res: &Vec<[i8; 2]>) -> (r: Result<Vec<u8>>)
    requires
        res@.len() <= 32,
    ensures
        final(reader)@.bits == old(reader)@.bits,
        match (method_sweep(old(reader)@.bits, old(reader)@.pos, res@).parsed(), r) {
            ((Ok(s), p), Ok(v)) => v@ == s && final(reader)@.pos == p && v@.len() == 2
                * res@.len(),
            ((Err(e), p), Err(f)) => e == f && final(reader)@.pos == p,
            _ => false,
        },
{
    let ghost bits = reader@.bits;
    let ghost step = method_step(bits, res@);
    let ghost whole = method_sweep(bits, reader@.pos, res@);
    let n: usize = 2 * res.len();
    let mut out: Vec<u8> = Vec::new();
    while out.len() < n
        invariant
            n == 2 * res@.len(),
            out@.len() <= n,
            reader@.bits == bits,
            bits == old(reader)@.bits,
            step == method_step(bits, res@),
            whole == method_sweep(old(reader)@.bits, old(reader)@.pos, res@),
            whole == coding::sweep(step, n as nat, out@, reader@.pos),
        decreases n - out@.len(),
    {
        let ghost here = reader@.pos;
        let i: usize = out.len();
        let scfi: u8 = if res[i / 2][i % 2] == 0 {
            0
        } else {
            decode_sv7_scfi(reader)?
        };
        assert(step(out@, here) == (Ok::<u8, Error>(scfi), reader@.pos));
        out.push(scfi);
    }
    Ok(out)
}

/// The second sweep. The memory is advanced by every band that was decoded.
fn decode_scalefactors(
    reader: &mut Sv7BitReader<'_>,
    memory: &mut Sv7ScfMemory,
    res: &Vec<[i8; 2]>,
    scfi: &Vec<u8>,
) -> (r: Result<Vec<[i32; SCF_GRANULES_PER_BAND]>>)
    requires
        res@.len() <= 32,
        scfi@.len() == 2 * res@.len(),
    ensures
        final(reader)@.bits == old(reader)@.bits,
        ({
            let scf = scf_sweep(old(reader)@.bits, old(reader)@.pos, old(memory)@, res@, scfi@);
            &&& final(reader)@.pos == scf.pos
            &&& final(memory)@ == memory_after(old(memory)@, res@, scf.done)
            &&& match (scf.result, r) {
                (Ok(_), Ok(v)) => v@ == scf.done,
                (Err(e), Err(f)) => e == f,
                _ => false,
            }
        }),
{
    let ghost bits = reader@.bits;
    let ghost start = memory@;
    let ghost step = scf_step(bits, start, res@, scfi@);
    let ghost whole = scf_sweep(bits, reader@.pos, start, res@, scfi@);
    let n: usize = 2 * res.len();
    let mut out: Vec<[i32; SCF_GRANULES_PER_BAND]> = Vec::new();
    assert(memory@ =~= memory_after(start, res@, out@));
    while out.len() < n
        invariant
            n == 2 * res@.len(),
            res@.len() <= 32,
            scfi@.len() == n,
            out@.len() <= n,
            reader@.bits == bits,
            bits == old(reader)@.bits,
            start == old(memory)@,
            step == scf_step(bits, start, res@, scfi@),
            whole == scf_sweep(
                old(reader)@.bits,
                old(reader)@.pos,
                old(memory)@,
                res@,
                scfi@,
            ),
            whole == coding::sweep(step, n as nat, out@, reader@.pos),
            memory@ == memory_after(start, res@, out@),
        decreases n - out@.len(),
    {
        let ghost here = reader@.pos;
        let ghost before = out@;
        let i: usize = out.len();
        let b: usize = i / 2;
        let ch: usize = i % 2;
        assert(2 * b + ch == i);
        assert((memory@)(ch as int, b as int) == start(ch as int, b as int));
        let mut scf: [i32; SCF_GRANULES_PER_BAND] = [0;3];
        if res[b][ch] != 0 {
            let band: Sv7BandScf = decode_sv7_band_dscf(
                reader,
                scfi[i],
                memory.reference(ch, b),
            )?;
            scf = band.indices;
            memory.update(ch, b, band.last_index());
        } else {
            proof {
                coding::lemma_triple(scf);
            }
        }
        assert(step(before, here) == (Ok::<[i32; 3], Error>(scf), reader@.pos));
        out.push(scf);
        proof {
            let now = memory_after(start, res@, out@);
            assert forall|c: int, d: int| #[trigger] (memory@)(c, d) == now(c, d) by {
                if 0 <= c < 2 && 0 <= d && 2 * d + c < before.len() {
                    assert(out@[2 * d + c] == before[2 * d + c]);
                }
                if 0 <= c < 2 && 2 * d + c == i {
                    assert(c == ch && d == b);
                }
            }
            assert(memory@ =~= now);
        }
    }
    Ok(out)
}

/// The third sweep.
fn decode_levels(
    tables: &Sv7TableSet,
    reader: &mut Sv7BitReader<'_>,
    cns: &mut CnsPrng,
    res: &Vec<[i8; 2]>,
) -> (r: Result<Vec<[i32; SAMPLES_PER_BAND]>>)
    requires
        res@.len() <= 32,
    ensures
        final(reader)@.bits == old(reader)@.bits,
        ({
            let levels = level_sweep(
                *tables,
                old(reader)@.bits,
                old(reader)@.pos,
                *old(cns),
                res@,
            );
            &&& final(reader)@.pos == levels.pos
            &&& *final(cns) == sv8_stereo_frame::noise_after(
                *old(cns),
                res@,
                levels.done.len() as int,
            )
            &&& match (levels.result, r) {
                (Ok(_), Ok(v)) => rows_of(v@) == levels.done,
                (Err(e), Err(f)) => e == f,
                _ => false,
            }
        }),
{
    let ghost bits = reader@.bits;
    let ghost noise = *cns;
    let ghost step = level_step(*tables, bits, noise, res@);
    let ghost whole = level_sweep(*tables, bits, reader@.pos, noise, res@);
    let n: usize = 2 * res.len();
    let mut out: Vec<[i32; SAMPLES_PER_BAND]> = Vec::new();
    assert(rows_of(out@) =~= Seq::<Seq<i32>>::empty());
    while out.len() < n
        invariant
            n == 2 * res@.len(),
            res@.len() <= 32,
            out@.len() <= n,
            reader@.bits == bits,
            bits == old(reader)@.bits,
            noise == *old(cns),
            step == level_step(*tables, bits, noise, res@),
            whole == level_sweep(*tables, old(reader)@.bits, old(reader)@.pos, *old(cns), res@),
            whole == coding::sweep(step, n as nat, rows_of(out@), reader@.pos),
            *cns == sv8_stereo_frame::noise_after(noise, res@, out@.len() as int),
        decreases n - out@.len(),
    {
        let ghost here = reader@.pos;
        let ghost before = rows_of(out@);
        let i: usize = out.len();
        assert(before.len() == i);
        assert(step(before, here) == sv7_band_decode::parse_channel(
            *tables,
            bits,
            here,
            res@[i as int / 2][i as int % 2],
            *cns,
        ));
        let levels: [i32; SAMPLES_PER_BAND] = decode_sv7_channel(
            tables,
            reader,
            res[i / 2][i % 2],
            cns,
        )?;
        out.push(levels);
        assert(rows_of(out@) =~= before.push(levels@));
    }
    Ok(out)
}

/// Decodes a two-channel frame body. `max_band` is the stream's highest band; a stream of
/// more than 32 bands is refused. The memory and the noise generator are advanced as far as
/// the body was decoded, also before a failure.
pub fn decode_sv7_stereo_frame(
    tables: &Sv7TableSet,
    reader: &mut Sv7BitReader<'_>,
    max_band: u8,
    stream_ms: bool,
    scf: &mut Sv7ScfMemory,
    cns: &mut CnsPrng,
) -> (r: Result<Sv7StereoFrame>)
    ensures
        final(reader)@.bits == old(reader)@.bits,
        body_read(
            *tables,
            old(reader)@.bits,
            old(reader)@.pos,
            max_band,
            stream_ms,
            old(scf)@,
            *old(cns),
        ) == (BodyRead {
            result: match r {
                Ok(f) => Ok(f@),
                Err(e) => Err(e),
            },
            pos: final(reader)@.pos,
            memory: final(scf)@,
            noise: *final(cns),
        }),
{
    proof {
        reveal(body_read);
    }
    let heads: Vec<Sv7ResBand> = decode_res_header(tables.hdr, reader, max_band, stream_ms)?;
    let mut res: Vec<[i8; 2]> = Vec::new();
    let mut ms_flags: Vec<bool> = Vec::new();
    let mut b: usize = 0;
    while b < heads.len()
        invariant
            b <= heads@.len(),
            res@ == types_of(heads@).take(b as int),
            ms_flags@ == flags_of(heads@).take(b as int),
        decreases heads@.len() - b,
    {
        let head: Sv7ResBand = heads[b];
        res.push(head.res);
        ms_flags.push(
            match head.ms_flag {
                Some(flag) => flag,
                None => false,
            },
        );
        b = b + 1;
        assert(res@ =~= types_of(heads@).take(b as int));
        assert(ms_flags@ =~= flags_of(heads@).take(b as int));
    }
    assert(res@ =~= types_of(heads@));
    assert(ms_flags@ =~= flags_of(heads@));
    let scfi: Vec<u8> = decode_methods(reader, &res)?;
    let granule_scf: Vec<[i32; SCF_GRANULES_PER_BAND]> = decode_scalefactors(
        reader,
        scf,
        &res,
        &scfi,
    )?;
    let levels: Vec<[i32; SAMPLES_PER_BAND]> = decode_levels(tables, reader, cns, &res)?;
    Ok(Sv7StereoFrame { res, ms_flags, granule_scf, levels })
}

} // verus!
