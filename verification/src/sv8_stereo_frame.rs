//! The two-channel frame body.
//!
//! A body is, in this order: the used-band count; the band types, from the top band
//! down; the mid/side flags of the bands that code something; and three sweeps from
//! the lowest band up, for the scalefactor methods, the scalefactors and the samples.
//! A channel's scalefactors in a band follow on from those of the frame before, except
//! in a key frame and where the channel codes the band for the first time.

use crate::bit_reader::Sv7BitReader;
use crate::cns::{CnsPrng, SAMPLES_PER_BAND};
use crate::coding;
use crate::coding::{Parsed, Swept};
use crate::error::{Error, Result};
use crate::sv8_band_decode;
use crate::sv8_band_decode::decode_sv8_band_grounded;
use crate::sv8_band_header;
use crate::sv8_band_header::{
    decode_band_resolutions_stereo_grounded, decode_keyframe_max_used_band,
    decode_nonkey_max_used_band, decode_sv8_ms_flags,
};
use crate::sv8_dscf_loop;
use crate::sv8_dscf_loop::{decode_sv8_band_scf, SCF_GRANULES_PER_BAND};
use crate::sv8_frame_decode::SV7_SUBBAND_COUNT;
use crate::sv8_huffman::Sv8TableSet;
use crate::sv8_scf_header;
use crate::sv8_scf_header::{decode_sv8_scfi, Sv8BandScfi};
use vstd::arithmetic::power2::*;
use vstd::prelude::*;

verus! {

/// Channels that a frame body codes.
pub const SV8_BODY_CHANNELS: usize = 2;

// ---------------------------------------------------------------------------
// What one frame leaves for the next
// ---------------------------------------------------------------------------

/// What decoding carries from frame to frame.
#[derive(Debug, Clone, PartialEq, Eq)]
pub struct Sv8FrameState {
    scf_mem: [[Option<i32>; SV7_SUBBAND_COUNT]; SV8_BODY_CHANNELS],
    last_nbands: u8,
}

/// What decoding carries from frame to frame: for each channel and band the last
/// scalefactor, where the band was coded since the key frame, and the used-band count.
#[verifier::ext_equal]
pub struct FrameMemory {
    pub scf: spec_fn(int, int) -> Option<i32>,
    pub last_nbands: u8,
}

impl View for Sv8FrameState {
    type V = FrameMemory;

    closed spec fn view(&self) -> FrameMemory {
        FrameMemory {
            scf: |ch: int, b: int|
                if 0 <= ch < 2 && 0 <= b < 32 {
                    self.scf_mem[ch][b]
                } else {
                    None
                },
            last_nbands: self.last_nbands,
        }
    }
}

impl FrameMemory {
    /// The memory before a key frame.
    pub open spec fn blank() -> FrameMemory {
        FrameMemory { scf: |ch: int, b: int| None, last_nbands: 0 }
    }

    /// The memory with another used-band count.
    pub open spec fn with_count(self, n: u8) -> FrameMemory {
        FrameMemory { scf: self.scf, last_nbands: n }
    }

    /// The memory with the last scalefactor of a channel and band.
    pub open spec fn with_scf(self, ch: int, band: int, v: i32) -> FrameMemory {
        FrameMemory {
            scf: |c: int, b: int|
                if c == ch && b == band {
                    Some(v)
                } else {
                    (self.scf)(c, b)
                },
            last_nbands: self.last_nbands,
        }
    }
}

impl Sv8FrameState {
    /// The state before a key frame.
    #[must_use]
    pub fn new() -> (s: Self)
        ensures
            s@ == FrameMemory::blank(),
    {
        let s: Sv8FrameState = Sv8FrameState { scf_mem: [[None;32];2], last_nbands: 0 };
        assert(s@.scf =~= FrameMemory::blank().scf);
        s
    }

    /// Back to the state before a key frame.
    pub fn reset(&mut self)
        ensures
            final(self)@ == FrameMemory::blank(),
    {
        *self = Sv8FrameState::new();
    }

    /// The used-band count of the frame before.
    #[must_use]
    pub fn last_nbands(&self) -> (n: u8)
        ensures
            n == self@.last_nbands,
    {
        self.last_nbands
    }

    /// The last scalefactor of a channel in a band, where it was coded since the key frame.
    #[must_use]
    pub fn scf_ref(&self, ch: usize, band: usize) -> (s: Option<i32>)
        requires
            ch < 2,
            band < 32,
        ensures
            s == (self@.scf)(ch as int, band as int),
    {
        self.scf_mem[ch][band]
    }

    /// Notes the last scalefactor of a channel in a band.
    pub fn note_scf2(&mut self, ch: usize, band: usize, scf2: i32)
        requires
            ch < 2,
            band < 32,
        ensures
            final(self)@ == old(self)@.with_scf(ch as int, band as int, scf2),
    {
        let mut row: [Option<i32>; SV7_SUBBAND_COUNT] = self.scf_mem[ch];
        row[band] = Some(scf2);
        self.scf_mem[ch] = row;
        assert(self@.scf =~= old(self)@.with_scf(ch as int, band as int, scf2).scf);
    }

    /// Notes the used-band count of a frame.
    pub fn note_nbands(&mut self, nbands: u8)
        ensures
            final(self)@ == old(self)@.with_count(nbands),
    {
        self.last_nbands = nbands;
        assert(self@.scf =~= old(self)@.scf);
    }
}

impl Default for Sv8FrameState {
    fn default() -> (s: Self)
        ensures
            s@ == FrameMemory::blank(),
    {
        Sv8FrameState::new()
    }
}

// ---------------------------------------------------------------------------
// A decoded frame
// ---------------------------------------------------------------------------

/// A decoded two-channel frame body; everything is indexed by band, the lowest first.
#[derive(Debug, Clone, PartialEq, Eq)]
pub struct Sv8StereoFrameDecode {
    /// Used-band count.
    pub nbands: u8,
    /// Band types, left and right.
    pub res: Vec<[i8; 2]>,
    /// Mid/side flags.
    pub ms_flags: Vec<bool>,
    /// Scalefactor methods; zero where the channel codes nothing.
    pub scfi: Vec<[u8; 2]>,
    /// Scalefactors; zero where the channel codes nothing.
    pub granule_scf: Vec<[[i32; SCF_GRANULES_PER_BAND]; 2]>,
    /// Levels; zero where the channel codes nothing.
    pub levels: Vec<[[i32; SAMPLES_PER_BAND]; 2]>,
}

/// A decoded frame body, as the contracts speak of it. Scalefactors and levels are in
/// a row: left and right of the lowest band, then of the next.
#[verifier::ext_equal]
pub struct StereoFrame {
    pub nbands: u8,
    pub res: Seq<[i8; 2]>,
    pub ms_flags: Seq<bool>,
    pub scfi: Seq<[u8; 2]>,
    pub scf: Seq<[i32; 3]>,
    pub levels: Seq<Seq<i32>>,
}

impl View for Sv8StereoFrameDecode {
    type V = StereoFrame;

    open spec fn view(&self) -> StereoFrame {
        StereoFrame {
            nbands: self.nbands,
            res: self.res@,
            ms_flags: self.ms_flags@,
            scfi: self.scfi@,
            scf: Seq::new(2 * self.granule_scf@.len(), |i: int| self.granule_scf@[i / 2][i % 2]),
            levels: Seq::new(2 * self.levels@.len(), |i: int| self.levels@[i / 2][i % 2]@),
        }
    }
}

/// What decoding a frame body comes to.
#[verifier::ext_equal]
pub struct FrameRead {
    pub result: Result<StereoFrame>,
    pub pos: nat,
    pub memory: FrameMemory,
    pub noise: CnsPrng,
}

// ---------------------------------------------------------------------------
// Mid/side flags
// ---------------------------------------------------------------------------

/// A channel of the band codes something.
pub open spec fn in_scope(types: [i8; 2]) -> bool {
    types[0] != 0 || types[1] != 0
}

/// How many of the bands below `b` code something.
pub open spec fn scope_below(res: Seq<[i8; 2]>, b: int) -> nat
    decreases b,
{
    if b <= 0 {
        0
    } else {
        scope_below(res, b - 1) + if in_scope(res[b - 1]) {
            1nat
        } else {
            0nat
        }
    }
}

/// The flags of all bands, from the flags of those that code something.
pub open spec fn spread_flags(res: Seq<[i8; 2]>, flags: Seq<bool>) -> Seq<bool> {
    Seq::new(
        res.len(),
        |b: int| in_scope(res[b]) && flags[scope_below(res, b) as int],
    )
}

/// Outcome of decoding the flags of all bands. A stream without mid/side coding has no
/// flags.
pub open spec fn parse_flags(
    bits: Seq<bool>,
    pos: nat,
    res: Seq<[i8; 2]>,
    stream_ms: bool,
) -> Parsed<Seq<bool>> {
    if stream_ms {
        match sv8_band_header::parse_ms_flags(bits, pos, scope_below(res, res.len() as int)) {
            (Ok(flags), p) => (Ok(spread_flags(res, flags)), p),
            (Err(e), p) => (Err(e), p),
        }
    } else {
        (Ok(Seq::new(res.len(), |b: int| false)), pos)
    }
}

pub proof fn lemma_scope_bound(res: Seq<[i8; 2]>, b: int)
    requires
        0 <= b,
    ensures
        scope_below(res, b) <= b,
    decreases b,
{
    if b > 0 {
        lemma_scope_bound(res, b - 1);
    }
}

pub proof fn lemma_scope_grows(res: Seq<[i8; 2]>, a: int, b: int)
    requires
        0 <= a <= b,
    ensures
        scope_below(res, a) <= scope_below(res, b),
    decreases b - a,
{
    if a < b {
        lemma_scope_grows(res, a, b - 1);
    }
}

// ---------------------------------------------------------------------------
// The three sweeps
// ---------------------------------------------------------------------------

/// Outcome of decoding the scalefactor methods of a band.
pub open spec fn parse_band_methods(
    tables: Sv8TableSet,
    bits: Seq<bool>,
    pos: nat,
    types: [i8; 2],
) -> Parsed<[u8; 2]> {
    if !in_scope(types) {
        (Ok([0u8, 0u8]), pos)
    } else {
        let both = types[0] != 0 && types[1] != 0;
        match sv8_scf_header::parse_methods(tables, bits, pos, if both {
            2
        } else {
            1
        }) {
            (Ok(m), p) => if both {
                (Ok([m.left, m.right]), p)
            } else if types[0] != 0 {
                (Ok([m.left, 0u8]), p)
            } else {
                (Ok([0u8, m.left]), p)
            },
            (Err(e), p) => (Err(e), p),
        }
    }
}

/// The steps of the first sweep, band by band.
pub open spec fn method_step(
    tables: Sv8TableSet,
    bits: Seq<bool>,
    res: Seq<[i8; 2]>,
) -> spec_fn(Seq<[u8; 2]>, nat) -> Parsed<[u8; 2]> {
    |done: Seq<[u8; 2]>, pos: nat| parse_band_methods(tables, bits, pos, res[done.len() as int])
}

/// A channel starts its scalefactors of a band outright.
pub open spec fn is_new_block(keyframe: bool, memory: FrameMemory, ch: int, b: int) -> bool {
    keyframe || (memory.scf)(ch, b) is None
}

/// What a channel's first scalefactor of a band is a difference to.
pub open spec fn reference(memory: FrameMemory, ch: int, b: int) -> int {
    match (memory.scf)(ch, b) {
        Some(v) => v as int,
        None => 0,
    }
}

/// Outcome of decoding a channel's scalefactors of a band.
pub open spec fn parse_channel_scf(
    tables: Sv8TableSet,
    bits: Seq<bool>,
    pos: nat,
    keyframe: bool,
    memory: FrameMemory,
    ch: int,
    b: int,
    band_type: i8,
    scfi: u8,
) -> Parsed<[i32; 3]> {
    if band_type == 0 {
        (Ok([0i32, 0i32, 0i32]), pos)
    } else {
        sv8_dscf_loop::parse_band_scf(
            tables,
            bits,
            pos,
            scfi,
            is_new_block(keyframe, memory, ch, b),
            reference(memory, ch, b),
        )
    }
}

/// The steps of the second sweep: left and right of the lowest band, then of the next.
pub open spec fn scf_step(
    tables: Sv8TableSet,
    bits: Seq<bool>,
    keyframe: bool,
    memory: FrameMemory,
    res: Seq<[i8; 2]>,
    scfi: Seq<[u8; 2]>,
) -> spec_fn(Seq<[i32; 3]>, nat) -> Parsed<[i32; 3]> {
    |done: Seq<[i32; 3]>, pos: nat|
        {
            let b = done.len() as int / 2;
            let ch = done.len() as int % 2;
            parse_channel_scf(
                tables,
                bits,
                pos,
                keyframe,
                memory,
                ch,
                b,
                res[b][ch],
                scfi[b][ch],
            )
        }
}

/// The memory behind the scalefactors `done` of the second sweep.
pub open spec fn memory_after(
    memory: FrameMemory,
    res: Seq<[i8; 2]>,
    done: Seq<[i32; 3]>,
) -> FrameMemory {
    FrameMemory {
        scf: |ch: int, b: int|
            if 0 <= ch < 2 && 0 <= b && 2 * b + ch < done.len() && res[b][ch] != 0 {
                Some(done[2 * b + ch][2])
            } else {
                (memory.scf)(ch, b)
            },
        last_nbands: memory.last_nbands,
    }
}

/// The offset of the levels of a large band type: its largest level.
pub open spec fn level_offset(band_type: int) -> int {
    pow2((band_type - 2) as nat) - 1
}

/// The levels of a band as a frame holds them. A sparse half starts at its highest
/// position; a large level counts from the lowest level up.
pub open spec fn frame_levels(band_type: int, raw: Seq<i32>) -> Seq<i32> {
    if band_type == 1 {
        Seq::new(raw.len(), |j: int| raw[18 * (j / 18) + 17 - j % 18])
    } else if 9 <= band_type <= 17 {
        Seq::new(
            raw.len(),
            |j: int| (raw[j] as int % pow2((band_type - 1) as nat) as int - level_offset(band_type)) as i32,
        )
    } else {
        raw
    }
}

/// Outcome of decoding a channel's levels of a band.
pub open spec fn parse_channel_levels(
    tables: Sv8TableSet,
    bits: Seq<bool>,
    pos: nat,
    band_type: i8,
    noise: CnsPrng,
) -> Parsed<Seq<i32>> {
    let read = sv8_band_decode::band_read(
        tables,
        bits,
        pos,
        band_type as int,
        noise,
        sv8_band_decode::silence(),
    );
    match read.result {
        Ok(_) => (Ok(frame_levels(band_type as int, read.levels)), read.pos),
        Err(e) => (Err(e), read.pos),
    }
}

/// The noise generator behind the first `n` channels and bands of the third sweep.
pub open spec fn noise_after(noise: CnsPrng, res: Seq<[i8; 2]>, n: int) -> CnsPrng
    decreases n,
{
    if n <= 0 {
        noise
    } else if res[(n - 1) / 2][(n - 1) % 2] == -1 {
        noise_after(noise, res, n - 1).steps(36)
    } else {
        noise_after(noise, res, n - 1)
    }
}

/// The steps of the third sweep: left and right of the lowest band, then of the next.
pub open spec fn level_step(
    tables: Sv8TableSet,
    bits: Seq<bool>,
    noise: CnsPrng,
    res: Seq<[i8; 2]>,
) -> spec_fn(Seq<Seq<i32>>, nat) -> Parsed<Seq<i32>> {
    |done: Seq<Seq<i32>>, pos: nat|
        {
            let i = done.len() as int;
            parse_channel_levels(
                tables,
                bits,
                pos,
                res[i / 2][i % 2],
                noise_after(noise, res, i),
            )
        }
}

// ---------------------------------------------------------------------------
// The whole body
// ---------------------------------------------------------------------------

/// The first sweep.
pub open spec fn method_sweep(
    tables: Sv8TableSet,
    bits: Seq<bool>,
    pos: nat,
    res: Seq<[i8; 2]>,
) -> Swept<[u8; 2]> {
    coding::sweep(method_step(tables, bits, res), res.len(), Seq::empty(), pos)
}

/// The second sweep.
pub open spec fn scf_sweep(
    tables: Sv8TableSet,
    bits: Seq<bool>,
    pos: nat,
    keyframe: bool,
    memory: FrameMemory,
    res: Seq<[i8; 2]>,
    scfi: Seq<[u8; 2]>,
) -> Swept<[i32; 3]> {
    coding::sweep(
        scf_step(tables, bits, keyframe, memory, res, scfi),
        2 * res.len(),
        Seq::empty(),
        pos,
    )
}

/// The third sweep.
pub open spec fn level_sweep(
    tables: Sv8TableSet,
    bits: Seq<bool>,
    pos: nat,
    noise: CnsPrng,
    res: Seq<[i8; 2]>,
) -> Swept<Seq<i32>> {
    coding::sweep(level_step(tables, bits, noise, res), 2 * res.len(), Seq::empty(), pos)
}

/// Decoding the scalefactors and the levels, behind the methods.
pub open spec fn values_read(
    tables: Sv8TableSet,
    bits: Seq<bool>,
    pos: nat,
    keyframe: bool,
    memory: FrameMemory,
    noise: CnsPrng,
    res: Seq<[i8; 2]>,
    ms_flags: Seq<bool>,
    scfi: Seq<[u8; 2]>,
) -> FrameRead {
    let scf = scf_sweep(tables, bits, pos, keyframe, memory, res, scfi);
    let after = memory_after(memory, res, scf.done);
    match scf.result {
        Err(e) => FrameRead { result: Err(e), pos: scf.pos, memory: after, noise },
        Ok(_) => {
            let levels = level_sweep(tables, bits, scf.pos, noise, res);
            FrameRead {
                result: match levels.result {
                    Err(e) => Err(e),
                    Ok(_) => Ok(
                        StereoFrame {
                            nbands: memory.last_nbands,
                            res,
                            ms_flags,
                            scfi,
                            scf: scf.done,
                            levels: levels.done,
                        },
                    ),
                },
                pos: levels.pos,
                memory: after,
                noise: noise_after(noise, res, levels.done.len() as int),
            }
        },
    }
}

/// Decoding what follows the used-band count, which `memory` holds.
pub open spec fn body_read(
    tables: Sv8TableSet,
    bits: Seq<bool>,
    pos: nat,
    keyframe: bool,
    stream_ms: bool,
    memory: FrameMemory,
    noise: CnsPrng,
) -> FrameRead {
    match sv8_band_header::parse_type_pairs(tables, bits, pos, memory.last_nbands as nat) {
        (Err(e), p) => FrameRead { result: Err(e), pos: p, memory, noise },
        (Ok(res), p) => match parse_flags(bits, p, res, stream_ms) {
            (Err(e), q) => FrameRead { result: Err(e), pos: q, memory, noise },
            (Ok(ms_flags), q) => match method_sweep(tables, bits, q, res).parsed() {
                (Err(e), s) => FrameRead { result: Err(e), pos: s, memory, noise },
                (Ok(scfi), s) => values_read(
                    tables,
                    bits,
                    s,
                    keyframe,
                    memory,
                    noise,
                    res,
                    ms_flags,
                    scfi,
                ),
            },
        },
    }
}

/// Outcome of decoding the used-band count.
pub open spec fn parse_used_bands(
    tables: Sv8TableSet,
    bits: Seq<bool>,
    pos: nat,
    max_band: u8,
    keyframe: bool,
    last: u8,
) -> Parsed<u8> {
    if keyframe {
        sv8_band_header::parse_key_count(bits, pos, max_band)
    } else {
        sv8_band_header::parse_next_count(tables, bits, pos, last)
    }
}

/// Decoding a two-channel frame body.
#[verifier::opaque]
pub open spec fn frame_read(
    tables: Sv8TableSet,
    bits: Seq<bool>,
    pos: nat,
    max_band: u8,
    keyframe: bool,
    stream_ms: bool,
    memory: FrameMemory,
    noise: CnsPrng,
) -> FrameRead {
    match parse_used_bands(tables, bits, pos, max_band, keyframe, memory.last_nbands) {
        (Err(e), p) => FrameRead { result: Err(e), pos: p, memory, noise },
        (Ok(n), p) => if n > 32 {
            FrameRead {
                result: Err(Error::MaxBandOutOfRange(n)),
                pos: p,
                memory: memory.with_count(n),
                noise,
            }
        } else {
            body_read(tables, bits, p, keyframe, stream_ms, memory.with_count(n), noise)
        },
    }
}

// ---------------------------------------------------------------------------
// Decoders
// ---------------------------------------------------------------------------

/// Decodes the mid/side flags of all bands.
fn decode_flags(
    reader: &mut Sv7BitReader<'_>,
    res: &Vec<[i8; 2]>,
    stream_ms: bool,
) -> (r: Result<Vec<bool>>)
    requires
        res@.len() <= 32,
    ensures
        final(reader)@.bits == old(reader)@.bits,
        match (parse_flags(old(reader)@.bits, old(reader)@.pos, res@, stream_ms), r) {
            ((Ok(s), p), Ok(v)) => v@ == s && final(reader)@.pos == p,
            ((Err(e), p), Err(f)) => e == f && final(reader)@.pos == p,
            _ => false,
        },
{
    let nb: usize = res.len();
    let mut out: Vec<bool> = Vec::new();
    if !stream_ms {
        let mut b: usize = 0;
        while b < nb
            invariant
                b <= nb,
                out@.len() == b,
                forall|i: int| 0 <= i < b ==> !out@[i],
            decreases nb - b,
        {
            out.push(false);
            b = b + 1;
        }
        assert(out@ =~= Seq::new(res@.len(), |b: int| false));
        return Ok(out);
    }
    let mut tot: u8 = 0;
    let mut b: usize = 0;
    while b < nb
        invariant
            b <= nb,
            nb == res@.len(),
            nb <= 32,
            tot == scope_below(res@, b as int),
            tot <= b,
        decreases nb - b,
    {
        if res[b][0] != 0 || res[b][1] != 0 {
            tot = tot + 1;
        }
        b = b + 1;
    }
    let flags: Vec<bool> = decode_sv8_ms_flags(reader, tot)?;
    let mut next: usize = 0;
    let mut c: usize = 0;
    while c < nb
        invariant
            c <= nb <= 32,
            nb == res@.len(),
            next == scope_below(res@, c as int),
            flags@.len() == scope_below(res@, nb as int),
            out@.len() == c,
            forall|i: int| 0 <= i < c ==> out@[i] == spread_flags(res@, flags@)[i],
        decreases nb - c,
    {
        proof {
            lemma_scope_grows(res@, c + 1, nb as int);
            lemma_scope_bound(res@, c as int);
        }
        if res[c][0] != 0 || res[c][1] != 0 {
            out.push(flags[next]);
            next = next + 1;
        } else {
            out.push(false);
        }
        c = c + 1;
    }
    assert(out@ =~= spread_flags(res@, flags@));
    Ok(out)
}

/// Decodes the scalefactor methods of all bands.
fn decode_methods(
    tables: &Sv8TableSet,
    reader: &mut Sv7BitReader<'_>,
    res: &Vec<[i8; 2]>,
) -> (r: Result<Vec<[u8; 2]>>)
    ensures
        final(reader)@.bits == old(reader)@.bits,
        match (
            method_sweep(*tables, old(reader)@.bits, old(reader)@.pos, res@).parsed(),
            r,
        ) {
            ((Ok(s), p), Ok(v)) => v@ == s && s.len() == res@.len() && final(reader)@.pos == p,
            ((Err(e), p), Err(f)) => e == f && final(reader)@.pos == p,
            _ => false,
        },
{
    let ghost bits = reader@.bits;
    let ghost step = method_step(*tables, bits, res@);
    let ghost whole = method_sweep(*tables, bits, reader@.pos, res@);
    let mut out: Vec<[u8; 2]> = Vec::new();
    let mut b: usize = 0;
    while b < res.len()
        invariant
            b <= res@.len(),
            out@.len() == b,
            reader@.bits == bits,
            bits == old(reader)@.bits,
            step == method_step(*tables, bits, res@),
            whole == method_sweep(*tables, old(reader)@.bits, old(reader)@.pos, res@),
            whole == coding::sweep(step, res@.len(), out@, reader@.pos),
        decreases res@.len() - b,
    {
        let types: [i8; 2] = res[b];
        let left: bool = types[0] != 0;
        let right: bool = types[1] != 0;
        if left && right {
            let m: Sv8BandScfi = decode_sv8_scfi(tables, reader, 2)?;
            out.push([m.left, m.right]);
        } else if left {
            let m: Sv8BandScfi = decode_sv8_scfi(tables, reader, 1)?;
            out.push([m.left, 0]);
        } else if right {
            let m: Sv8BandScfi = decode_sv8_scfi(tables, reader, 1)?;
            out.push([0, m.left]);
        } else {
            out.push([0, 0]);
        }
        b = b + 1;
    }
    Ok(out)
}

/// The memory with one more channel and band of the second sweep.
pub proof fn lemma_memory_push(
    memory: FrameMemory,
    res: Seq<[i8; 2]>,
    done: Seq<[i32; 3]>,
    scf: [i32; 3],
)
    ensures
        ({
            let b = done.len() as int / 2;
            let ch = done.len() as int % 2;
            memory_after(memory, res, done.push(scf)) == if res[b][ch] != 0 {
                memory_after(memory, res, done).with_scf(ch, b, scf[2])
            } else {
                memory_after(memory, res, done)
            }
        }),
{
    let b = done.len() as int / 2;
    let ch = done.len() as int % 2;
    let more = memory_after(memory, res, done.push(scf));
    let less = memory_after(memory, res, done);
    if res[b][ch] != 0 {
        let put = less.with_scf(ch, b, scf[2]);
        assert forall|c: int, d: int| #[trigger] (more.scf)(c, d) == (put.scf)(c, d) by {
            if 0 <= c < 2 && 0 <= d && 2 * d + c < done.len() {
                assert(done.push(scf)[2 * d + c] == done[2 * d + c]);
                assert(!(c == ch && d == b));
            }
        }
        assert(more.scf =~= put.scf);
    } else {
        assert forall|c: int, d: int| #[trigger] (more.scf)(c, d) == (less.scf)(c, d) by {
            if 0 <= c < 2 && 0 <= d && 2 * d + c < done.len() {
                assert(done.push(scf)[2 * d + c] == done[2 * d + c]);
            }
        }
        assert(more.scf =~= less.scf);
    }
}

/// A channel and band that the second sweep has not reached keeps its memory.
pub proof fn lemma_memory_ahead(
    memory: FrameMemory,
    res: Seq<[i8; 2]>,
    done: Seq<[i32; 3]>,
    ch: int,
    b: int,
)
    requires
        2 * b + ch >= done.len(),
    ensures
        (memory_after(memory, res, done).scf)(ch, b) == (memory.scf)(ch, b),
{
}

/// Decodes the scalefactors of all bands into the memory and a row.
fn decode_scalefactors(
    tables: &Sv8TableSet,
    reader: &mut Sv7BitReader<'_>,
    keyframe: bool,
    state: &mut Sv8FrameState,
    res: &Vec<[i8; 2]>,
    scfi: &Vec<[u8; 2]>,
) -> (r: Result<Vec<[[i32; SCF_GRANULES_PER_BAND]; 2]>>)
    requires
        res@.len() <= 32,
        scfi@.len() == res@.len(),
    ensures
        final(reader)@.bits == old(reader)@.bits,
        ({
            let scf = scf_sweep(
                *tables,
                old(reader)@.bits,
                old(reader)@.pos,
                keyframe,
                old(state)@,
                res@,
                scfi@,
            );
            &&& final(reader)@.pos == scf.pos
            &&& final(state)@ == memory_after(old(state)@, res@, scf.done)
            &&& match (scf.result, r) {
                (Ok(_), Ok(v)) => v@.len() == res@.len() && scf.done == Seq::new(
                    2 * v@.len(),
                    |i: int| v@[i / 2][i % 2],
                ),
                (Err(e), Err(f)) => e == f,
                _ => false,
            }
        }),
{
    let ghost bits = reader@.bits;
    let ghost memory = state@;
    let ghost step = scf_step(*tables, bits, keyframe, memory, res@, scfi@);
    let ghost whole = scf_sweep(*tables, bits, reader@.pos, keyframe, memory, res@, scfi@);
    let ghost mut done: Seq<[i32; 3]> = Seq::empty();
    let mut out: Vec<[[i32; SCF_GRANULES_PER_BAND]; 2]> = Vec::new();
    assert(state@.scf =~= memory_after(memory, res@, done).scf);
    let mut b: usize = 0;
    while b < res.len()
        invariant
            b <= res@.len() <= 32,
            scfi@.len() == res@.len(),
            reader@.bits == bits,
            bits == old(reader)@.bits,
            memory == old(state)@,
            step == scf_step(*tables, bits, keyframe, memory, res@, scfi@),
            whole == scf_sweep(
                *tables,
                old(reader)@.bits,
                old(reader)@.pos,
                keyframe,
                old(state)@,
                res@,
                scfi@,
            ),
            whole == coding::sweep(step, 2 * res@.len(), done, reader@.pos),
            done.len() == 2 * b,
            out@.len() == b,
            state@ == memory_after(memory, res@, done),
            forall|i: int| 0 <= i < 2 * b ==> #[trigger] done[i] == out@[i / 2][i % 2],
        decreases res@.len() - b,
    {
        let mut pair: [[i32; SCF_GRANULES_PER_BAND]; 2] = [[0;3];2];
        assert(pair[0] == [0i32, 0i32, 0i32]) by {
            assert(pair[0]@ =~= [0i32, 0i32, 0i32]@);
        }
        assert(pair[1] == [0i32, 0i32, 0i32]) by {
            assert(pair[1]@ =~= [0i32, 0i32, 0i32]@);
        }
        let mut ch: usize = 0;
        while ch < 2
            invariant
                ch <= 2,
                b < res@.len() <= 32,
                scfi@.len() == res@.len(),
                reader@.bits == bits,
                bits == old(reader)@.bits,
                memory == old(state)@,
                step == scf_step(*tables, bits, keyframe, memory, res@, scfi@),
                whole == scf_sweep(
                    *tables,
                    old(reader)@.bits,
                    old(reader)@.pos,
                    keyframe,
                    old(state)@,
                    res@,
                    scfi@,
                ),
                whole == coding::sweep(step, 2 * res@.len(), done, reader@.pos),
                done.len() == 2 * b + ch,
                out@.len() == b,
                state@ == memory_after(memory, res@, done),
                forall|i: int| 0 <= i < 2 * b ==> #[trigger] done[i] == out@[i / 2][i % 2],
                forall|c: int| 0 <= c < ch ==> pair[c] == #[trigger] done[2 * b + c],
                forall|c: int| ch <= c < 2 ==> #[trigger] pair[c] == [0i32, 0i32, 0i32],
            decreases 2 - ch,
        {
            let ghost here = reader@.pos;
            assert(done.len() as int / 2 == b && done.len() as int % 2 == ch);
            if res[b][ch] != 0 {
                proof {
                    lemma_memory_ahead(memory, res@, done, ch as int, b as int);
                }
                let known: Option<i32> = state.scf_ref(ch, b);
                let new_block: bool = keyframe || known.is_none();
                let prev: i32 = match known {
                    Some(v) => v,
                    None => 0,
                };
                let scf: [i32; SCF_GRANULES_PER_BAND] = decode_sv8_band_scf(
                    tables,
                    reader,
                    scfi[b][ch],
                    new_block,
                    prev,
                )?;
                state.note_scf2(ch, b, scf[2]);
                pair[ch] = scf;
            }
            proof {
                let scf = pair[ch as int];
                assert(step(done, here) == (Ok::<[i32; 3], Error>(scf), reader@.pos));
                lemma_memory_push(memory, res@, done, scf);
                let next = done.push(scf);
                assert forall|c: int| 0 <= c < ch + 1 implies pair[c] == #[trigger] next[2 * b + c] by {
                    if c < ch {
                        assert(next[2 * b + c] == done[2 * b + c]);
                    }
                }
                assert forall|i: int| 0 <= i < 2 * b implies #[trigger] next[i] == out@[i / 2][i
                    % 2] by {
                    assert(next[i] == done[i]);
                }
                done = next;
            }
            ch = ch + 1;
        }
        let ghost shorter = out@;
        out.push(pair);
        proof {
            assert forall|i: int| 0 <= i < 2 * b + 2 implies #[trigger] done[i] == out@[i / 2][i
                % 2] by {
                if i < 2 * b {
                    assert(out@[i / 2] == shorter[i / 2]);
                } else {
                    assert(i / 2 == b);
                    assert(pair[i - 2 * b] == done[2 * b + (i - 2 * b)]);
                }
            }
        }
        b = b + 1;
    }
    assert(done =~= Seq::new(2 * out@.len(), |i: int| out@[i / 2][i % 2]));
    Ok(out)
}

/// Takes the levels of a band over into a frame.
fn take_levels(band_type: i8, raw: &[i32; SAMPLES_PER_BAND]) -> (out: [i32; SAMPLES_PER_BAND])
    requires
        9 <= band_type <= 17 ==> forall|j: int|
            0 <= j < 36 ==> -pow2((band_type - 2) as nat) <= #[trigger] raw@[j] < pow2(
                (band_type - 2) as nat,
            ),
    ensures
        out@ == frame_levels(band_type as int, raw@),
{
    let mut out: [i32; SAMPLES_PER_BAND] = *raw;
    if band_type == 1 {
        let mut j: usize = 0;
        while j < 36
            invariant
                j <= 36,
                forall|i: int| 0 <= i < j ==> out@[i] == raw@[18 * (i / 18) + 17 - i % 18],
            decreases 36 - j,
        {
            out[j] = raw[18 * (j / 18) + 17 - j % 18];
            j = j + 1;
        }
        assert(out@ =~= frame_levels(1, raw@));
    } else if 9 <= band_type && band_type <= 17 {
        let half: i32 = (1u32 << (band_type - 2) as u32) as i32;
        proof {
            lemma2_to64();
            let k = (band_type - 2) as nat;
            if k < 15 {
                lemma_pow2_strictly_increases(k, 15);
            }
            vstd::bits::lemma_u32_shl_is_mul(1, k as u32);
            lemma_pow2_unfold((band_type - 1) as nat);
            lemma_pow2_pos(k);
        }
        let mut j: usize = 0;
        while j < 36
            invariant
                j <= 36,
                9 <= band_type <= 17,
                half == pow2((band_type - 2) as nat),
                1 <= half <= 32768,
                2 * half == pow2((band_type - 1) as nat),
                forall|i: int| 0 <= i < 36 ==> -half <= #[trigger] raw@[i] < half,
                forall|i: int|
                    0 <= i < j ==> out@[i] == frame_levels(band_type as int, raw@)[i],
            decreases 36 - j,
        {
            let v: i32 = raw[j];
            assert(raw@[j as int] == v);
            let w: i32 = if v < 0 { v + 2 * half } else { v };
            proof {
                let whole = 2 * half as int;
                if v < 0 {
                    vstd::arithmetic::div_mod::lemma_small_mod(w as nat, whole as nat);
                    vstd::arithmetic::div_mod::lemma_mod_add_multiples_vanish(v as int, whole);
                } else {
                    vstd::arithmetic::div_mod::lemma_small_mod(v as nat, whole as nat);
                }
            }
            out[j] = w - (half - 1);
            j = j + 1;
        }
        assert(out@ =~= frame_levels(band_type as int, raw@));
    }
    out
}

/// Decodes the levels of all bands.
fn decode_levels(
    tables: &Sv8TableSet,
    reader: &mut Sv7BitReader<'_>,
    cns: &mut CnsPrng,
    res: &Vec<[i8; 2]>,
) -> (r: Result<Vec<[[i32; SAMPLES_PER_BAND]; 2]>>)
    requires
        res@.len() <= 32,
    ensures
        final(reader)@.bits == old(reader)@.bits,
        ({
            let levels = level_sweep(
                *tables,
                old(reader)@.bits,
                old(reader)@.pos,
                *old(cns),
                res@,
            );
            &&& final(reader)@.pos == levels.pos
            &&& *final(cns) == noise_after(*old(cns), res@, levels.done.len() as int)
            &&& match (levels.result, r) {
                (Ok(_), Ok(v)) => v@.len() == res@.len() && levels.done == Seq::new(
                    2 * v@.len(),
                    |i: int| v@[i / 2][i % 2]@,
                ),
                (Err(e), Err(f)) => e == f,
                _ => false,
            }
        }),
{
    let ghost bits = reader@.bits;
    let ghost noise = *cns;
    let ghost step = level_step(*tables, bits, noise, res@);
    let ghost whole = level_sweep(*tables, bits, reader@.pos, noise, res@);
    let ghost mut done: Seq<Seq<i32>> = Seq::empty();
    let mut out: Vec<[[i32; SAMPLES_PER_BAND]; 2]> = Vec::new();
    let mut b: usize = 0;
    while b < res.len()
        invariant
            b <= res@.len() <= 32,
            reader@.bits == bits,
            bits == old(reader)@.bits,
            noise == *old(cns),
            step == level_step(*tables, bits, noise, res@),
            whole == level_sweep(*tables, old(reader)@.bits, old(reader)@.pos, *old(cns), res@),
            whole == coding::sweep(step, 2 * res@.len(), done, reader@.pos),
            done.len() == 2 * b,
            out@.len() == b,
            *cns == noise_after(noise, res@, done.len() as int),
            forall|i: int| 0 <= i < 2 * b ==> #[trigger] done[i] == out@[i / 2][i % 2]@,
        decreases res@.len() - b,
    {
        let mut pair: [[i32; SAMPLES_PER_BAND]; 2] = [[0;36];2];
        let mut ch: usize = 0;
        while ch < 2
            invariant
                ch <= 2,
                b < res@.len() <= 32,
                reader@.bits == bits,
                bits == old(reader)@.bits,
                noise == *old(cns),
                step == level_step(*tables, bits, noise, res@),
                whole == level_sweep(
                    *tables,
                    old(reader)@.bits,
                    old(reader)@.pos,
                    *old(cns),
                    res@,
                ),
                whole == coding::sweep(step, 2 * res@.len(), done, reader@.pos),
                done.len() == 2 * b + ch,
                out@.len() == b,
                *cns == noise_after(noise, res@, done.len() as int),
                forall|i: int| 0 <= i < 2 * b ==> #[trigger] done[i] == out@[i / 2][i % 2]@,
                forall|c: int| 0 <= c < ch ==> pair[c]@ == #[trigger] done[2 * b + c],
            decreases 2 - ch,
        {
            let ghost here = reader@.pos;
            assert(done.len() as int / 2 == b && done.len() as int % 2 == ch);
            let band_type: i8 = res[b][ch];
            let mut raw: [i32; SAMPLES_PER_BAND] = [0;36];
            assert(raw@ =~= sv8_band_decode::silence());
            let ghost before = *cns;
            decode_sv8_band_grounded(tables, reader, band_type, cns, &mut raw)?;
            proof {
                if 9 <= band_type <= 17 {
                    lemma_escape_range(*tables, bits, here, band_type as int);
                    let band = crate::sv8_sample_decode::escape_band(
                        *tables,
                        bits,
                        here,
                        band_type as int,
                    );
                    assert(raw@ =~= band.done);
                }
            }
            pair[ch] = take_levels(band_type, &raw);
            proof {
                let levels = pair[ch as int]@;
                assert(step(done, here) == (Ok::<Seq<i32>, Error>(levels), reader@.pos));
                let next = done.push(levels);
                assert forall|c: int| 0 <= c < ch + 1 implies pair[c]@ == #[trigger] next[2 * b
                    + c] by {
                    if c < ch {
                        assert(next[2 * b + c] == done[2 * b + c]);
                    }
                }
                assert forall|i: int| 0 <= i < 2 * b implies #[trigger] next[i] == out@[i / 2][i
                    % 2]@ by {
                    assert(next[i] == done[i]);
                }
                done = next;
            }
            ch = ch + 1;
        }
        let ghost shorter = out@;
        out.push(pair);
        proof {
            assert forall|i: int| 0 <= i < 2 * b + 2 implies #[trigger] done[i] == out@[i / 2][i
                % 2]@ by {
                if i < 2 * b {
                    assert(out@[i / 2] == shorter[i / 2]);
                } else {
                    assert(i / 2 == b);
                    assert(pair[i - 2 * b]@ == done[2 * b + (i - 2 * b)]);
                }
            }
        }
        b = b + 1;
    }
    assert(done =~= Seq::new(2 * out@.len(), |i: int| out@[i / 2][i % 2]@));
    Ok(out)
}

/// A decoded large level fits its band type.
pub proof fn lemma_escape_range(tables: Sv8TableSet, bits: Seq<bool>, pos: nat, band_type: int)
    requires
        9 <= band_type <= 17,
    ensures
        ({
            let band = crate::sv8_sample_decode::escape_band(tables, bits, pos, band_type);
            &&& band.done.len() <= 36
            &&& band.result is Ok ==> band.done.len() == 36
            &&& forall|j: int|
                0 <= j < band.done.len() ==> -pow2((band_type - 2) as nat)
                    <= #[trigger] band.done[j] < pow2((band_type - 2) as nat)
        }),
{
    let n = (band_type - 9) as nat;
    lemma_escape_sweep_range(tables, bits, pos, n, Seq::empty());
    coding::lemma_sweep_extends(
        crate::sv8_sample_decode::escape_step(tables.q9up, bits, n),
        36,
        Seq::<i32>::empty(),
        pos,
    );
}

proof fn lemma_escape_sweep_range(
    tables: Sv8TableSet,
    bits: Seq<bool>,
    pos: nat,
    n: nat,
    done: Seq<i32>,
)
    requires
        n <= 8,
        forall|j: int|
            0 <= j < done.len() ==> -pow2(n + 7) <= #[trigger] done[j] < pow2(n + 7),
    ensures
        forall|j: int|
            0 <= j < coding::sweep(
                crate::sv8_sample_decode::escape_step(tables.q9up, bits, n),
                36,
                done,
                pos,
            ).done.len() ==> -pow2(n + 7) <= #[trigger] coding::sweep(
                crate::sv8_sample_decode::escape_step(tables.q9up, bits, n),
                36,
                done,
                pos,
            ).done[j] < pow2(n + 7),
    decreases 36 - done.len(),
{
    let step = crate::sv8_sample_decode::escape_step(tables.q9up, bits, n);
    if done.len() < 36 {
        match step(done, pos) {
            (Ok(v), p) => {
                let (sym, q) = tables.q9up.parse(bits, pos);
                let s = sym->Ok_0;
                let raw = crate::bits::field_at(bits, q, n);
                crate::bits::lemma_value_bound(bits.subrange(q as int, (q + n) as int));
                lemma_pow2_adds(n, 7);
                lemma2_to64();
                lemma_pow2_pos(n);
                if n < 8 {
                    lemma_pow2_strictly_increases(n, 8);
                }
                let unit = pow2(n) as int;
                assert(-128 * unit <= s * unit + raw < 128 * unit) by (nonlinear_arith)
                    requires
                        -128 <= s <= 127,
                        0 <= raw < unit,
                        unit > 0,
                ;
                assert(v == s * unit + raw);
                lemma_escape_sweep_range(tables, bits, p, n, done.push(v));
            },
            (Err(e), p) => {},
        }
    }
}

/// Decodes a two-channel frame body. `max_band` is the stream's highest band; the first
/// frame of a packet is a key frame, for which the state is to be reset. The state is
/// advanced as far as the body was decoded, also before a failure.
pub fn decode_sv8_stereo_frame(
    tables: &Sv8TableSet,
    reader: &mut Sv7BitReader<'_>,
    max_band: u8,
    keyframe: bool,
    stream_ms: bool,
    state: &mut Sv8FrameState,
    cns: &mut CnsPrng,
) -> (r: Result<Sv8StereoFrameDecode>)
    ensures
        final(reader)@.bits == old(reader)@.bits,
        frame_read(
            *tables,
            old(reader)@.bits,
            old(reader)@.pos,
            max_band,
            keyframe,
            stream_ms,
            old(state)@,
            *old(cns),
        ) == (FrameRead {
            result: match r {
                Ok(f) => Ok(f@),
                Err(e) => Err(e),
            },
            pos: final(reader)@.pos,
            memory: final(state)@,
            noise: *final(cns),
        }),
{
    proof {
        reveal(frame_read);
    }
    let nbands: u8 = if keyframe {
        decode_keyframe_max_used_band(reader, max_band)?
    } else {
        decode_nonkey_max_used_band(tables, reader, state.last_nbands())?
    };
    state.note_nbands(nbands);
    if nbands as usize > SV7_SUBBAND_COUNT {
        return Err(Error::MaxBandOutOfRange(nbands));
    }
    let res: Vec<[i8; 2]> = decode_band_resolutions_stereo_grounded(tables, reader, nbands)?;
    let ms_flags: Vec<bool> = decode_flags(reader, &res, stream_ms)?;
    let scfi: Vec<[u8; 2]> = decode_methods(tables, reader, &res)?;
    let ghost memory = state@;
    let granule_scf: Vec<[[i32; SCF_GRANULES_PER_BAND]; 2]> = decode_scalefactors(
        tables,
        reader,
        keyframe,
        state,
        &res,
        &scfi,
    )?;
    let levels: Vec<[[i32; SAMPLES_PER_BAND]; 2]> = decode_levels(tables, reader, cns, &res)?;
    let frame: Sv8StereoFrameDecode = Sv8StereoFrameDecode {
        nbands,
        res,
        ms_flags,
        scfi,
        granule_scf,
        levels,
    };
    Ok(frame)
}

} // verus!
