//! A decoder of whole packets that keeps to absolute scalefactors.
//!
//! A packet is a run of sub-frames. Each is, in this order: the used-band count; the band
//! types of the left channel and of the right one, from the top band down; the mid/side
//! flags; and two sweeps from the lowest band up, left before right, for the scalefactors and
//! for the levels.

use crate::bit_reader;
use crate::bits;
use crate::cns::SAMPLES_PER_BAND;
use crate::coding;
use crate::coding::Parsed;
use crate::error::{Error, Result};
use crate::packet_bits::PacketReader;
use crate::phased;
use crate::sv8_band_decode;
use crate::sv8_band_header;
use crate::sv8_stereo_frame;
use vstd::arithmetic::power2::*;
use vstd::prelude::*;

verus! {

/// Bands that a sub-frame can have.
pub const SUBBAND_COUNT: usize = 32;

/// The symbol of an unchanged used-band count.
pub const BAND_VLC_CENTRE: i32 = 13;

/// The symbol of a difference that is written out.
pub const DSCF_VLC_ESCAPE: i16 = 31;

// ---------------------------------------------------------------------------
// Codes
// ---------------------------------------------------------------------------

/// A code word and its symbol.
#[derive(Debug, Clone, Copy, PartialEq, Eq)]
pub struct VlcRow {
    /// The code word.
    pub code: u16,
    /// Its length in bits.
    pub length: u8,
    /// Its symbol.
    pub symbol: i16,
}

/// A code.
#[derive(Debug)]
pub struct VlcTable {
    pub rows: Vec<VlcRow>,
}

/// The first row, from row `from` on, with the code word `code` of `length` bits.
pub open spec fn row_of(rows: Seq<VlcRow>, from: int, code: int, length: int) -> Option<int>
    decreases rows.len() - from,
{
    if from < 0 || from >= rows.len() {
        None
    } else if rows[from].code == code && rows[from].length == length {
        Some(from)
    } else {
        row_of(rows, from + 1, code, length)
    }
}

/// Outcome of decoding a symbol of which `length` bits, `code`, were read: bits are taken
/// until they are a code word. Code words have up to 16 bits.
pub open spec fn parse_symbol(
    rows: Seq<VlcRow>,
    bits: Seq<bool>,
    pos: nat,
    code: int,
    length: int,
) -> Parsed<i16>
    decreases 16 - length,
{
    if length >= 16 {
        (Err(Error::HuffmanNoMatch), pos)
    } else {
        match bit_reader::read_field(bits, pos, 1) {
            (Err(e), p) => (Err(e), p),
            (Ok(b), p) => match row_of(rows, 0, 2 * code + b, length + 1) {
                Some(r) => (Ok(rows[r].symbol), p),
                None => parse_symbol(rows, bits, p, 2 * code + b, length + 1),
            },
        }
    }
}

impl VlcTable {
    /// Outcome of decoding a symbol.
    pub open spec fn parse(self, bits: Seq<bool>, pos: nat) -> Parsed<i16> {
        parse_symbol(self.rows@, bits, pos, 0, 0)
    }

    /// Decodes a symbol.
    pub fn read(&self, br: &mut PacketReader<'_>) -> (r: Result<i16>)
        ensures
            final(br)@.bits == old(br)@.bits,
            (r, final(br)@.pos) == self.parse(old(br)@.bits, old(br)@.pos),
    {
        let ghost bits = br@.bits;
        let ghost whole = self.parse(br@.bits, br@.pos);
        let mut code: u32 = 0;
        let mut length: u8 = 0;
        proof {
            lemma2_to64();
        }
        while length < 16
            invariant
                length <= 16,
                code <= 0xFFFF,
                length == 0 ==> code < 1,
                length < 16 ==> code < 0x8000,
                code < pow2(length as nat),
                br@.bits == bits,
                bits == old(br)@.bits,
                whole == self.parse(old(br)@.bits, old(br)@.pos),
                whole == parse_symbol(self.rows@, bits, br@.pos, code as int, length as int),
            decreases 16 - length,
        {
            let ghost here = br@.pos;
            let bit: u32 = br.read_bits(1)?;
            proof {
                bits::lemma_value_bound(bits.subrange(here as int, here + 1int));
                lemma2_to64();
                lemma_pow2_unfold((length + 1) as nat);
                if length < 14 {
                    lemma_pow2_strictly_increases((length + 1) as nat, 15);
                }
            }
            code = 2 * code + bit;
            length = length + 1;
            let mut i: usize = 0;
            while i < self.rows.len()
                invariant
                    i <= self.rows@.len(),
                    br@.bits == bits,
                    bits == old(br)@.bits,
                    whole == self.parse(old(br)@.bits, old(br)@.pos),
                    whole == match row_of(self.rows@, 0, code as int, length as int) {
                        Some(r) => (Ok::<i16, Error>(self.rows@[r].symbol), br@.pos),
                        None => parse_symbol(
                            self.rows@,
                            bits,
                            br@.pos,
                            code as int,
                            length as int,
                        ),
                    },
                    row_of(self.rows@, 0, code as int, length as int) == row_of(
                        self.rows@,
                        i as int,
                        code as int,
                        length as int,
                    ),
                decreases self.rows@.len() - i,
            {
                if self.rows[i].code as u32 == code && self.rows[i].length == length {
                    return Ok(self.rows[i].symbol);
                }
                i = i + 1;
            }
        }
        Err(Error::HuffmanNoMatch)
    }
}

/// The codes of a decoder.
#[derive(Debug)]
pub struct Sv8Vlcs {
    /// Used-band counts.
    pub band: VlcTable,
    /// Scalefactor methods.
    pub scfi: VlcTable,
    /// Scalefactor differences.
    pub dscf: VlcTable,
    /// Band types behind a small one.
    pub res_low: VlcTable,
    /// Band types behind a large one.
    pub res_high: VlcTable,
    /// High parts of large levels.
    pub q9up: VlcTable,
}

/// What a stream header says of the packets.
#[derive(Debug, Clone, Copy, PartialEq, Eq)]
pub struct StreamHeaderSv8 {
    /// Channels.
    pub channels: u8,
    /// Bands that are allowed.
    pub maxbands: u8,
    /// Bands have mid/side flags.
    pub mid_side: bool,
    /// A packet has four to this power sub-frames.
    pub block_power: u8,
}

impl StreamHeaderSv8 {
    /// The header has one or two channels, and the sub-frames of a packet can be counted in
    /// 32 bits.
    pub open spec fn wf(self) -> bool {
        1 <= self.channels <= 2 && self.block_power <= 15
    }

    /// Bands that are allowed.
    pub open spec fn allowed(self) -> int {
        if self.maxbands > 32 {
            32
        } else {
            self.maxbands as int
        }
    }

    /// Sub-frames of a packet.
    pub open spec fn sub_frames(self) -> nat {
        pow2((2 * self.block_power) as nat)
    }
}

/// A decoded sub-frame. Scalefactors and levels are in a row: left and right of the lowest
/// band, then of the next; they are zero where the channel codes nothing.
#[derive(Debug, PartialEq, Eq)]
pub struct Sv8SubFrame {
    /// Band types, left and right.
    pub res: Vec<[i8; 2]>,
    /// Mid/side flags.
    pub ms_flags: Vec<bool>,
    /// Scalefactors, for each third of a band.
    pub scf: Vec<[u8; 3]>,
    /// Levels.
    pub levels: Vec<[i32; SAMPLES_PER_BAND]>,
}

/// A decoded sub-frame, as the contracts speak of it.
#[verifier::ext_equal]
pub struct SubFrame {
    pub res: Seq<[i8; 2]>,
    pub ms_flags: Seq<bool>,
    pub scf: Seq<[u8; 3]>,
    pub levels: Seq<Seq<i32>>,
}

/// Levels in a row, as the contracts speak of them.
pub open spec fn rows_of(levels: Seq<[i32; SAMPLES_PER_BAND]>) -> Seq<Seq<i32>> {
    Seq::new(levels.len(), |i: int| levels[i]@)
}

impl View for Sv8SubFrame {
    type V = SubFrame;

    open spec fn view(&self) -> SubFrame {
        SubFrame {
            res: self.res@,
            ms_flags: self.ms_flags@,
            scf: self.scf@,
            levels: rows_of(self.levels@),
        }
    }
}

// ---------------------------------------------------------------------------
// The used-band count
// ---------------------------------------------------------------------------

/// Outcome of decoding a used-band count.
pub open spec fn parse_max_band(
    v: Sv8Vlcs,
    bits: Seq<bool>,
    pos: nat,
    keyframe: bool,
    allowed: int,
    last: u8,
) -> Parsed<u8> {
    if keyframe {
        match phased::parse(bits, pos, (allowed + 1) as nat) {
            (Err(e), p) => (Err(e), p),
            (Ok(n), p) => (Ok(n as u8), p),
        }
    } else {
        match v.band.parse(bits, pos) {
            (Err(e), p) => (Err(e), p),
            (Ok(d), p) => {
                let n = (last + d - BAND_VLC_CENTRE) % 33;
                (
                    Ok(
                        if n > allowed {
                            allowed as u8
                        } else {
                            n as u8
                        },
                    ),
                    p,
                )
            },
        }
    }
}

/// Decodes a used-band count.
fn read_max_band(
    v: &Sv8Vlcs,
    br: &mut PacketReader<'_>,
    keyframe: bool,
    allowed: u8,
    last: u8,
) -> (r: Result<u8>)
    requires
        allowed <= 32,
    ensures
        final(br)@.bits == old(br)@.bits,
        (r, final(br)@.pos) == parse_max_band(
            *v,
            old(br)@.bits,
            old(br)@.pos,
            keyframe,
            allowed as int,
            last,
        ),
        r is Ok ==> r->Ok_0 <= allowed,
{
    if keyframe {
        let n: u32 = br.read_phased(allowed as u32 + 1)?;
        return Ok(n as u8);
    }
    let d: i16 = v.band.read(br)?;
    let sum: u32 = (last as i32 + d as i32 - BAND_VLC_CENTRE + 33000) as u32;
    proof {
        vstd::arithmetic::div_mod::lemma_mod_multiples_vanish(
            1000,
            last + d - BAND_VLC_CENTRE,
            33,
        );
    }
    let n: u8 = (sum % 33) as u8;
    Ok(
        if n > allowed {
            allowed
        } else {
            n
        },
    )
}

// ---------------------------------------------------------------------------
// Band types
// ---------------------------------------------------------------------------

/// The band type that a symbol behind the type `above` leads to.
pub open spec fn next_type(above: int, symbol: int) -> int {
    if above + symbol - 7 > 15 {
        above + symbol - 24
    } else {
        above + symbol - 7
    }
}

/// Outcome of decoding the type of the band below one of type `above`.
pub open spec fn parse_type(v: Sv8Vlcs, bits: Seq<bool>, pos: nat, above: int) -> Parsed<i8> {
    match (if above > 2 {
        v.res_high
    } else {
        v.res_low
    }).parse(bits, pos) {
        (Err(e), p) => (Err(e), p),
        (Ok(s), p) => {
            let t = next_type(above, s as int);
            if -1 <= t <= 17 {
                (Ok(t as i8), p)
            } else {
                (Err(Error::SampleOutOfRange(t as i32)), p)
            }
        },
    }
}

/// The steps that decode a channel's band types, from the top band down.
pub open spec fn type_step(v: Sv8Vlcs, bits: Seq<bool>) -> spec_fn(Seq<i8>, nat) -> Parsed<i8> {
    |done: Seq<i8>, pos: nat|
        parse_type(
            v,
            bits,
            pos,
            if done.len() == 0 {
                0
            } else {
                done.last() as int
            },
        )
}

/// Outcome of decoding a channel's band types; `coded` is clear where there is no such
/// channel, and its types are zero.
pub open spec fn parse_types(
    v: Sv8Vlcs,
    bits: Seq<bool>,
    pos: nat,
    n: nat,
    coded: bool,
) -> Parsed<Seq<i8>> {
    if coded {
        coding::sweep(type_step(v, bits), n, Seq::empty(), pos).parsed()
    } else {
        (Ok(Seq::new(n, |k: int| 0i8)), pos)
    }
}

/// The band types of both channels, from the lowest band up.
pub open spec fn paired(left: Seq<i8>, right: Seq<i8>) -> Seq<[i8; 2]> {
    Seq::new(left.len(), |b: int| [left[left.len() - 1 - b], right[left.len() - 1 - b]])
}

/// Outcome of decoding the band types of all channels.
pub open spec fn parse_res(
    v: Sv8Vlcs,
    bits: Seq<bool>,
    pos: nat,
    n: nat,
    stereo: bool,
) -> Parsed<Seq<[i8; 2]>> {
    match parse_types(v, bits, pos, n, true) {
        (Err(e), p) => (Err(e), p),
        (Ok(left), p) => match parse_types(v, bits, p, n, stereo) {
            (Err(e), q) => (Err(e), q),
            (Ok(right), q) => (Ok(paired(left, right)), q),
        },
    }
}

/// Decodes a channel's band types, from the top band down.
fn read_types(v: &Sv8Vlcs, br: &mut PacketReader<'_>, n: u8, coded: bool) -> (r: Result<Vec<i8>>)
    ensures
        final(br)@.bits == old(br)@.bits,
        match (parse_types(*v, old(br)@.bits, old(br)@.pos, n as nat, coded), r) {
            ((Ok(s), p), Ok(t)) => t@ == s && s.len() == n && final(br)@.pos == p && forall|i: int|
                0 <= i < n ==> -1 <= #[trigger] s[i] <= 17,
            ((Err(e), p), Err(f)) => e == f && final(br)@.pos == p,
            _ => false,
        },
{
    let ghost bits = br@.bits;
    let ghost step = type_step(*v, bits);
    let ghost whole = coding::sweep(step, n as nat, Seq::empty(), br@.pos);
    let mut out: Vec<i8> = Vec::new();
    let mut above: i8 = 0;
    while out.len() < n as usize
        invariant
            out@.len() <= n,
            -1 <= above <= 17,
            above == if out@.len() == 0 {
                0
            } else {
                out@.last() as int
            },
            br@.bits == bits,
            bits == old(br)@.bits,
            step == type_step(*v, bits),
            whole == coding::sweep(
                type_step(*v, old(br)@.bits),
                n as nat,
                Seq::empty(),
                old(br)@.pos,
            ),
            coded ==> whole == coding::sweep(step, n as nat, out@, br@.pos),
            !coded ==> br@.pos == old(br)@.pos && forall|i: int|
                0 <= i < out@.len() ==> #[trigger] out@[i] == 0,
            forall|i: int| 0 <= i < out@.len() ==> -1 <= #[trigger] out@[i] <= 17,
        decreases n - out@.len(),
    {
        let ghost here = br@.pos;
        if coded {
            let symbol: i16 = if above > 2 {
                v.res_high.read(br)?
            } else {
                v.res_low.read(br)?
            };
            let mut next: i32 = above as i32 + symbol as i32 - 7;
            if next > 15 {
                next = next - 17;
            }
            if next < -1 || next > 17 {
                return Err(Error::SampleOutOfRange(next));
            }
            above = next as i8;
            assert(step(out@, here) == (Ok::<i8, Error>(above), br@.pos));
        } else {
            above = 0;
        }
        out.push(above);
    }
    proof {
        if !coded {
            assert(out@ =~= Seq::new(n as nat, |k: int| 0i8));
        }
    }
    Ok(out)
}

/// Decodes the band types of all channels.
fn read_res_indices(v: &Sv8Vlcs, br: &mut PacketReader<'_>, n: u8, stereo: bool) -> (r: Result<
    Vec<[i8; 2]>,
>)
    ensures
        final(br)@.bits == old(br)@.bits,
        match (parse_res(*v, old(br)@.bits, old(br)@.pos, n as nat, stereo), r) {
            ((Ok(s), p), Ok(t)) => t@ == s && s.len() == n && final(br)@.pos == p && forall|
                b: int,
                ch: int,
            |
                0 <= b < n && 0 <= ch < 2 ==> -1 <= #[trigger] s[b][ch] <= 17,
            ((Err(e), p), Err(f)) => e == f && final(br)@.pos == p,
            _ => false,
        },
{
    let left: Vec<i8> = read_types(v, br, n, true)?;
    let right: Vec<i8> = read_types(v, br, n, stereo)?;
    let mut out: Vec<[i8; 2]> = Vec::new();
    while out.len() < n as usize
        invariant
            out@.len() <= n,
            left@.len() == n,
            right@.len() == n,
            out@ == paired(left@, right@).take(out@.len() as int),
        decreases n - out@.len(),
    {
        let k: usize = n as usize - 1 - out.len();
        let ghost done = out@.len();
        out.push([left[k], right[k]]);
        assert(out@ =~= paired(left@, right@).take(done + 1int));
    }
    assert(out@ =~= paired(left@, right@));
    Ok(out)
}

// ---------------------------------------------------------------------------
// Mid/side flags
// ---------------------------------------------------------------------------

/// Decodes the mid/side flags of all bands, where there are any.
fn read_ms_mask(br: &mut PacketReader<'_>, res: &Vec<[i8; 2]>, stream_ms: bool) -> (r: Result<
    Vec<bool>,
>)
    requires
        res@.len() <= 32,
    ensures
        final(br)@.bits == old(br)@.bits,
        match (
            sv8_stereo_frame::parse_flags(old(br)@.bits, old(br)@.pos, res@, stream_ms),
            r,
        ) {
            ((Ok(s), p), Ok(v)) => v@ == s && final(br)@.pos == p,
            ((Err(e), p), Err(f)) => e == f && final(br)@.pos == p,
            _ => false,
        },
{
    let n: usize = res.len();
    let mut count: u32 = 0;
    let mut b: usize = 0;
    while b < n
        invariant
            b <= n == res@.len(),
            n <= 32,
            count == sv8_stereo_frame::scope_below(res@, b as int),
            count <= b,
        decreases n - b,
    {
        if res[b][0] != 0 || res[b][1] != 0 {
            count = count + 1;
        }
        b = b + 1;
    }
    let ghost start = br@;
    let mut coded: Vec<bool> = Vec::new();
    if stream_ms && count > 0 {
        let t: u32 = br.read_phased(count + 1)?;
        coded = br.read_set(t, count)?;
    }
    proof {
        if stream_ms {
            assert(sv8_band_header::parse_ms_flags(start.bits, start.pos, count as nat) == (
                Ok::<Seq<bool>, Error>(coded@),
                br@.pos,
            ));
        }
    }
    let mut out: Vec<bool> = Vec::new();
    let mut k: usize = 0;
    while out.len() < n
        invariant
            n == res@.len() <= 32,
            out@.len() <= n,
            k == sv8_stereo_frame::scope_below(res@, out@.len() as int),
            count == sv8_stereo_frame::scope_below(res@, n as int),
            stream_ms ==> coded@.len() == count,
            stream_ms ==> out@ == sv8_stereo_frame::spread_flags(res@, coded@).take(
                out@.len() as int,
            ),
            !stream_ms ==> forall|i: int| 0 <= i < out@.len() ==> !#[trigger] out@[i],
        decreases n - out@.len(),
    {
        let b: usize = out.len();
        let here: bool = res[b][0] != 0 || res[b][1] != 0;
        proof {
            sv8_stereo_frame::lemma_scope_grows(res@, b + 1, n as int);
        }
        let ghost done = out@;
        out.push(stream_ms && here && coded[k]);
        if here {
            k = k + 1;
        }
        if stream_ms {
            assert(out@ =~= sv8_stereo_frame::spread_flags(res@, coded@).take(b + 1));
        }
    }
    if stream_ms {
        assert(out@ =~= sv8_stereo_frame::spread_flags(res@, coded@));
    } else {
        assert(out@ =~= Seq::new(res@.len(), |b: int| false));
    }
    Ok(out)
}

// ---------------------------------------------------------------------------
// Scalefactors
// ---------------------------------------------------------------------------

/// Outcome of decoding a scalefactor that follows `before`.
pub open spec fn parse_delta_scf(v: Sv8Vlcs, bits: Seq<bool>, pos: nat, before: u8) -> Parsed<
    u8,
> {
    match v.dscf.parse(bits, pos) {
        (Err(e), p) => (Err(e), p),
        (Ok(s), p) => if s == DSCF_VLC_ESCAPE {
            match bit_reader::read_field(bits, p, 6) {
                (Err(e), q) => (Err(e), q),
                (Ok(x), q) => (Ok(((before + 64 + x - 25) % 128) as u8), q),
            }
        } else {
            (Ok(((before + s - 25) % 128) as u8), p)
        },
    }
}

/// Outcome of decoding a scalefactor, or repeating `before`.
pub open spec fn parse_next_scf(
    v: Sv8Vlcs,
    bits: Seq<bool>,
    pos: nat,
    coded: bool,
    before: u8,
) -> Parsed<u8> {
    if coded {
        parse_delta_scf(v, bits, pos, before)
    } else {
        (Ok(before), pos)
    }
}

/// Outcome of decoding a channel's scalefactors of a band: the first is written out.
pub open spec fn parse_scf(v: Sv8Vlcs, bits: Seq<bool>, pos: nat, band_type: i8) -> Parsed<
    [u8; 3],
> {
    if band_type == 0 {
        (Ok([0u8, 0u8, 0u8]), pos)
    } else {
        match v.scfi.parse(bits, pos) {
            (Err(e), p) => (Err(e), p),
            (Ok(m), p) => match bit_reader::read_field(bits, p, 7) {
                (Err(e), q) => (Err(e), q),
                (Ok(a), q) => match parse_next_scf(v, bits, q, m == 3 || m == 1, a as u8) {
                    (Err(e), s) => (Err(e), s),
                    (Ok(b), s) => match parse_next_scf(v, bits, s, m == 3 || m == 2, b) {
                        (Err(e), t) => (Err(e), t),
                        (Ok(c), t) => (Ok([a as u8, b, c]), t),
                    },
                },
            },
        }
    }
}

/// The steps that decode the scalefactors.
pub open spec fn scf_step(v: Sv8Vlcs, bits: Seq<bool>, res: Seq<[i8; 2]>) -> spec_fn(
    Seq<[u8; 3]>,
    nat,
) -> Parsed<[u8; 3]> {
    |done: Seq<[u8; 3]>, pos: nat|
        {
            let i = done.len() as int;
            parse_scf(v, bits, pos, res[i / 2][i % 2])
        }
}

/// Decodes a scalefactor that follows `before`.
fn read_delta_scf(v: &Sv8Vlcs, br: &mut PacketReader<'_>, before: u8) -> (r: Result<u8>)
    ensures
        final(br)@.bits == old(br)@.bits,
        (r, final(br)@.pos) == parse_delta_scf(*v, old(br)@.bits, old(br)@.pos, before),
{
    let s: i16 = v.dscf.read(br)?;
    let delta: i32 = if s == DSCF_VLC_ESCAPE {
        let ghost here = br@;
        let extra: u32 = br.read_bits(6)?;
        proof {
            bits::lemma_value_bound(here.bits.subrange(here.pos as int, here.pos + 6int));
            lemma2_to64();
        }
        64 + extra as i32
    } else {
        s as i32
    };
    let sum: u32 = (before as i32 + delta - 25 + 32896) as u32;
    proof {
        vstd::arithmetic::div_mod::lemma_mod_multiples_vanish(257, before + delta - 25, 128);
    }
    Ok((sum % 128) as u8)
}

/// Decodes a channel's scalefactors of a band.
fn read_scf(v: &Sv8Vlcs, br: &mut PacketReader<'_>, band_type: i8) -> (r: Result<[u8; 3]>)
    ensures
        final(br)@.bits == old(br)@.bits,
        (r, final(br)@.pos) == parse_scf(*v, old(br)@.bits, old(br)@.pos, band_type),
{
    if band_type == 0 {
        return Ok([0, 0, 0]);
    }
    let method: i16 = v.scfi.read(br)?;
    let ghost here = br@;
    let first: u32 = br.read_bits(7)?;
    proof {
        bits::lemma_value_bound(here.bits.subrange(here.pos as int, here.pos + 7int));
        lemma2_to64();
    }
    let a: u8 = first as u8;
    let b: u8 = if method == 3 || method == 1 {
        read_delta_scf(v, br, a)?
    } else {
        a
    };
    let c: u8 = if method == 3 || method == 2 {
        read_delta_scf(v, br, b)?
    } else {
        b
    };
    Ok([a, b, c])
}

/// Decodes the scalefactors.
fn read_scalefactors(v: &Sv8Vlcs, br: &mut PacketReader<'_>, res: &Vec<[i8; 2]>) -> (r: Result<
    Vec<[u8; 3]>,
>)
    requires
        res@.len() <= 32,
    ensures
        final(br)@.bits == old(br)@.bits,
        match (
            coding::sweep(
                scf_step(*v, old(br)@.bits, res@),
                2 * res@.len(),
                Seq::empty(),
                old(br)@.pos,
            ).parsed(),
            r,
        ) {
            ((Ok(s), p), Ok(t)) => t@ == s && final(br)@.pos == p,
            ((Err(e), p), Err(f)) => e == f && final(br)@.pos == p,
            _ => false,
        },
{
    let ghost bits = br@.bits;
    let ghost step = scf_step(*v, bits, res@);
    let n: usize = 2 * res.len();
    let ghost whole = coding::sweep(step, n as nat, Seq::empty(), br@.pos);
    let mut out: Vec<[u8; 3]> = Vec::new();
    while out.len() < n
        invariant
            n == 2 * res@.len(),
            out@.len() <= n,
            br@.bits == bits,
            bits == old(br)@.bits,
            step == scf_step(*v, bits, res@),
            whole == coding::sweep(
                scf_step(*v, old(br)@.bits, res@),
                n as nat,
                Seq::empty(),
                old(br)@.pos,
            ),
            whole == coding::sweep(step, n as nat, out@, br@.pos),
        decreases n - out@.len(),
    {
        let ghost here = br@.pos;
        let i: usize = out.len();
        let scf: [u8; 3] = read_scf(v, br, res[i / 2][i % 2])?;
        assert(step(out@, here) == (Ok::<[u8; 3], Error>(scf), br@.pos));
        out.push(scf);
    }
    Ok(out)
}

// ---------------------------------------------------------------------------
// Levels
// ---------------------------------------------------------------------------

/// The next seed of the noise of a band.
pub open spec fn next_seed(seed: int) -> int {
    (seed * 1103515245 + 12345) % 0x1_0000_0000
}

/// The seed after `n` steps.
pub open spec fn seed_after(seed: int, n: nat) -> int
    decreases n,
{
    if n == 0 {
        seed
    } else {
        next_seed(seed_after(seed, (n - 1) as nat))
    }
}

/// The noise of a channel in a band, which depends on these two alone.
pub open spec fn fixed_noise(band: int, ch: int) -> Seq<i32> {
    Seq::new(
        36,
        |j: int| (seed_after(256 * band + ch, (j + 1) as nat) / 65536 % 1024 - 510) as i32,
    )
}

/// Bits of a level of a small band type.
pub open spec fn small_width(band_type: int) -> nat {
    if band_type == 1 {
        2
    } else if band_type <= 3 {
        3
    } else if band_type <= 5 {
        4
    } else {
        (band_type - 1) as nat
    }
}

/// The largest level of a small band type.
pub open spec fn small_bound(band_type: int) -> int {
    if band_type <= 4 {
        band_type
    } else {
        pow2((band_type - 2) as nat) - 1
    }
}

/// Outcome of decoding a level.
pub open spec fn parse_level(v: Sv8Vlcs, bits: Seq<bool>, pos: nat, band_type: int) -> Parsed<
    i32,
> {
    if band_type <= 8 {
        match bit_reader::read_field(bits, pos, small_width(band_type)) {
            (Err(e), p) => (Err(e), p),
            (Ok(x), p) => (Ok((x - small_bound(band_type)) as i32), p),
        }
    } else {
        match v.q9up.parse(bits, pos) {
            (Err(e), p) => (Err(e), p),
            (Ok(s), p) => match bit_reader::read_field(bits, p, (band_type - 9) as nat) {
                (Err(e), q) => (Err(e), q),
                (Ok(x), q) => (
                    Ok(
                        (s * pow2((band_type - 9) as nat) + x - small_bound(band_type)) as i32,
                    ),
                    q,
                ),
            },
        }
    }
}

/// The steps that decode the levels of a channel in a band.
pub open spec fn level_step(v: Sv8Vlcs, bits: Seq<bool>, band_type: int) -> spec_fn(
    Seq<i32>,
    nat,
) -> Parsed<i32> {
    |done: Seq<i32>, pos: nat| parse_level(v, bits, pos, band_type)
}

/// Outcome of decoding the levels of a channel in a band.
pub open spec fn parse_levels(
    v: Sv8Vlcs,
    bits: Seq<bool>,
    pos: nat,
    band_type: i8,
    band: int,
    ch: int,
) -> Parsed<Seq<i32>> {
    if band_type == 0 {
        (Ok(sv8_band_decode::silence()), pos)
    } else if band_type == -1 {
        (Ok(fixed_noise(band, ch)), pos)
    } else {
        coding::sweep(level_step(v, bits, band_type as int), 36, Seq::empty(), pos).parsed()
    }
}

/// The steps that decode the levels.
pub open spec fn row_step(v: Sv8Vlcs, bits: Seq<bool>, res: Seq<[i8; 2]>) -> spec_fn(
    Seq<Seq<i32>>,
    nat,
) -> Parsed<Seq<i32>> {
    |done: Seq<Seq<i32>>, pos: nat|
        {
            let i = done.len() as int;
            parse_levels(v, bits, pos, res[i / 2][i % 2], i / 2, i % 2)
        }
}

/// The noise of a channel in a band.
fn fill_noise(band: usize, ch: usize) -> (out: [i32; SAMPLES_PER_BAND])
    requires
        band < 32,
        ch < 2,
    ensures
        out@ == fixed_noise(band as int, ch as int),
{
    let mut out: [i32; SAMPLES_PER_BAND] = [0;36];
    let ghost start = 256 * band + ch;
    let mut seed: u32 = 256 * band as u32 + ch as u32;
    let mut j: usize = 0;
    while j < SAMPLES_PER_BAND
        invariant
            j <= 36,
            seed == seed_after(start, j as nat),
            start == 256 * band + ch,
            forall|k: int|
                0 <= k < j ==> #[trigger] out@[k] == fixed_noise(band as int, ch as int)[k],
        decreases 36 - j,
    {
        let wide: u64 = seed as u64 * 1103515245 + 12345;
        seed = (wide % 0x1_0000_0000) as u32;
        out[j] = (seed / 65536 % 1024) as i32 - 510;
        j = j + 1;
    }
    assert(out@ =~= fixed_noise(band as int, ch as int));
    out
}

/// Width and largest level of a small band type; of a large one, the bits behind its symbol
/// and its largest level.
fn level_shape(band_type: i8) -> (r: (u8, i32))
    requires
        1 <= band_type <= 17,
    ensures
        band_type <= 8 ==> r.0 == small_width(band_type as int) && r.0 <= 7,
        band_type > 8 ==> r.0 == band_type - 9,
        r.1 == small_bound(band_type as int),
        0 < r.1 <= 32767,
{
    let width: u8 = match band_type {
        1 => 2,
        2 | 3 => 3,
        4 | 5 => 4,
        6 => 5,
        7 => 6,
        8 => 7,
        _ => (band_type - 9) as u8,
    };
    let mut bound: i32 = if band_type <= 4 {
        band_type as i32
    } else {
        7
    };
    proof {
        lemma2_to64();
    }
    let mut k: i8 = 5;
    while k < band_type
        invariant
            5 <= k,
            k <= band_type || band_type <= 4,
            band_type <= 17,
            band_type <= 4 ==> bound == band_type && k == 5,
            band_type > 4 ==> bound == pow2((k - 2) as nat) - 1,
            0 < bound <= 32767 || band_type < 1,
        decreases band_type - k,
    {
        proof {
            lemma2_to64();
            lemma_pow2_unfold((k - 1) as nat);
            if k < 16 {
                lemma_pow2_strictly_increases((k - 1) as nat, 15);
            }
        }
        bound = bound * 2 + 1;
        k = k + 1;
    }
    (width, bound)
}

/// Decodes the levels of a channel in a band that codes some.
fn read_levels(v: &Sv8Vlcs, br: &mut PacketReader<'_>, band_type: i8) -> (r: Result<
    [i32; SAMPLES_PER_BAND],
>)
    requires
        1 <= band_type <= 17,
    ensures
        final(br)@.bits == old(br)@.bits,
        match (
            coding::sweep(
                level_step(*v, old(br)@.bits, band_type as int),
                36,
                Seq::empty(),
                old(br)@.pos,
            ).parsed(),
            r,
        ) {
            ((Ok(s), p), Ok(t)) => t@ == s && final(br)@.pos == p,
            ((Err(e), p), Err(f)) => e == f && final(br)@.pos == p,
            _ => false,
        },
{
    let ghost bits = br@.bits;
    let ghost step = level_step(*v, bits, band_type as int);
    let ghost whole = coding::sweep(step, 36, Seq::empty(), br@.pos);
    let (width, bound) = level_shape(band_type);
    let mut out: [i32; SAMPLES_PER_BAND] = [0;36];
    let mut j: usize = 0;
    assert(out@.take(0) =~= Seq::<i32>::empty());
    while j < SAMPLES_PER_BAND
        invariant
            j <= 36,
            1 <= band_type <= 17,
            band_type <= 8 ==> width == small_width(band_type as int) && width <= 7,
            band_type > 8 ==> width == band_type - 9,
            bound == small_bound(band_type as int),
            0 < bound <= 32767,
            br@.bits == bits,
            bits == old(br)@.bits,
            step == level_step(*v, bits, band_type as int),
            whole == coding::sweep(
                level_step(*v, old(br)@.bits, band_type as int),
                36,
                Seq::empty(),
                old(br)@.pos,
            ),
            whole == coding::sweep(step, 36, out@.take(j as int), br@.pos),
        decreases 36 - j,
    {
        let ghost here = br@.pos;
        let ghost done = out@.take(j as int);
        assert(done.len() == j);
        assert(step(done, here) == parse_level(*v, bits, here, band_type as int));
        let base: i32 = if band_type > 8 {
            v.q9up.read(br)? as i32
        } else {
            0
        };
        let ghost mid = br@.pos;
        let extra: u32 = br.read_bits(width)?;
        proof {
            bits::lemma_value_bound(bits.subrange(mid as int, mid + width as int));
            lemma2_to64();
            if width < 8 {
                lemma_pow2_strictly_increases(width as nat, 8);
            }
        }
        let unit: i32 = unit_of(width);
        assert(-8388608 <= base * unit <= 8388608) by (nonlinear_arith)
            requires
                -32768 <= base <= 32767,
                1 <= unit <= 256,
        ;
        out[j] = base * unit + extra as i32 - bound;
        assert(out@.take(j + 1) =~= done.push(out@[j as int]));
        j = j + 1;
    }
    assert(out@.take(36) =~= out@);
    Ok(out)
}

/// A small power of two.
fn unit_of(n: u8) -> (p: i32)
    requires
        n <= 8,
    ensures
        p == pow2(n as nat),
        1 <= p <= 256,
{
    proof {
        lemma2_to64();
    }
    match n {
        0 => 1,
        1 => 2,
        2 => 4,
        3 => 8,
        4 => 16,
        5 => 32,
        6 => 64,
        7 => 128,
        _ => 256,
    }
}

/// Decodes the levels.
fn read_samples(v: &Sv8Vlcs, br: &mut PacketReader<'_>, res: &Vec<[i8; 2]>) -> (r: Result<
    Vec<[i32; SAMPLES_PER_BAND]>,
>)
    requires
        res@.len() <= 32,
        forall|b: int, ch: int|
            0 <= b < res@.len() && 0 <= ch < 2 ==> -1 <= #[trigger] res@[b][ch] <= 17,
    ensures
        final(br)@.bits == old(br)@.bits,
        match (
            coding::sweep(
                row_step(*v, old(br)@.bits, res@),
                2 * res@.len(),
                Seq::empty(),
                old(br)@.pos,
            ).parsed(),
            r,
        ) {
            ((Ok(s), p), Ok(t)) => rows_of(t@) == s && final(br)@.pos == p,
            ((Err(e), p), Err(f)) => e == f && final(br)@.pos == p,
            _ => false,
        },
{
    let ghost bits = br@.bits;
    let ghost step = row_step(*v, bits, res@);
    let n: usize = 2 * res.len();
    let ghost whole = coding::sweep(step, n as nat, Seq::empty(), br@.pos);
    let mut out: Vec<[i32; SAMPLES_PER_BAND]> = Vec::new();
    assert(rows_of(out@) =~= Seq::<Seq<i32>>::empty());
    while out.len() < n
        invariant
            n == 2 * res@.len(),
            res@.len() <= 32,
            forall|b: int, ch: int|
                0 <= b < res@.len() && 0 <= ch < 2 ==> -1 <= #[trigger] res@[b][ch] <= 17,
            out@.len() <= n,
            br@.bits == bits,
            bits == old(br)@.bits,
            step == row_step(*v, bits, res@),
            whole == coding::sweep(
                row_step(*v, old(br)@.bits, res@),
                n as nat,
                Seq::empty(),
                old(br)@.pos,
            ),
            whole == coding::sweep(step, n as nat, rows_of(out@), br@.pos),
        decreases n - out@.len(),
    {
        let ghost here = br@.pos;
        let ghost before = rows_of(out@);
        let i: usize = out.len();
        assert(before.len() == i);
        let t: i8 = res[i / 2][i % 2];
        assert(-1 <= res@[i as int / 2][i as int % 2] <= 17);
        let row: [i32; SAMPLES_PER_BAND] = if t == 0 {
            let zero: [i32; SAMPLES_PER_BAND] = [0;36];
            assert(zero@ =~= sv8_band_decode::silence());
            zero
        } else if t == -1 {
            fill_noise(i / 2, i % 2)
        } else {
            read_levels(v, br, t)?
        };
        assert(step(before, here) == (Ok::<Seq<i32>, Error>(row@), br@.pos));
        out.push(row);
        assert(rows_of(out@) =~= before.push(row@));
    }
    Ok(out)
}

// ---------------------------------------------------------------------------
// Sub-frames and packets
// ---------------------------------------------------------------------------

/// What decoding a sub-frame comes to.
#[verifier::ext_equal]
pub struct SubRead {
    pub result: Result<SubFrame>,
    pub pos: nat,
    pub last: u8,
}

/// Decoding what follows the used-band count `n`.
pub open spec fn body_read(
    v: Sv8Vlcs,
    h: StreamHeaderSv8,
    bits: Seq<bool>,
    pos: nat,
    n: u8,
) -> Parsed<SubFrame> {
    match parse_res(v, bits, pos, n as nat, h.channels == 2) {
        (Err(e), p) => (Err(e), p),
        (Ok(res), p) => match sv8_stereo_frame::parse_flags(
            bits,
            p,
            res,
            h.mid_side && h.channels == 2,
        ) {
            (Err(e), q) => (Err(e), q),
            (Ok(ms_flags), q) => match coding::sweep(
                scf_step(v, bits, res),
                2 * res.len(),
                Seq::empty(),
                q,
            ).parsed() {
                (Err(e), s) => (Err(e), s),
                (Ok(scf), s) => match coding::sweep(
                    row_step(v, bits, res),
                    2 * res.len(),
                    Seq::empty(),
                    s,
                ).parsed() {
                    (Err(e), t) => (Err(e), t),
                    (Ok(levels), t) => (Ok(SubFrame { res, ms_flags, scf, levels }), t),
                },
            },
        },
    }
}

/// Decoding a sub-frame.
pub open spec fn sub_read(
    v: Sv8Vlcs,
    h: StreamHeaderSv8,
    bits: Seq<bool>,
    pos: nat,
    keyframe: bool,
    last: u8,
) -> SubRead {
    match parse_max_band(v, bits, pos, keyframe, h.allowed(), last) {
        (Err(e), p) => SubRead { result: Err(e), pos: p, last },
        (Ok(n), p) => {
            let (result, q) = body_read(v, h, bits, p, n);
            SubRead { result, pos: q, last: n }
        },
    }
}

/// What decoding a packet comes to: the sub-frames before its end or before the first that
/// fails, how it ends, and the used-band count that stays behind.
#[verifier::ext_equal]
pub struct PacketRead {
    pub frames: Seq<SubFrame>,
    pub result: Result<()>,
    pub last: u8,
}

/// Decoding the sub-frames of a packet until there are `n`; the first is a key frame.
pub open spec fn packet_read(
    v: Sv8Vlcs,
    h: StreamHeaderSv8,
    bits: Seq<bool>,
    pos: nat,
    last: u8,
    n: nat,
    done: Seq<SubFrame>,
) -> PacketRead
    decreases n - done.len(),
{
    if done.len() >= n {
        PacketRead { frames: done, result: Ok(()), last }
    } else {
        let read = sub_read(v, h, bits, pos, done.len() == 0, last);
        match read.result {
            Err(e) => PacketRead { frames: done, result: Err(e), last: read.last },
            Ok(f) => packet_read(v, h, bits, read.pos, read.last, n, done.push(f)),
        }
    }
}

/// Sub-frames, as the contracts speak of them.
pub open spec fn views(frames: Seq<Sv8SubFrame>) -> Seq<SubFrame> {
    Seq::new(frames.len(), |i: int| frames[i]@)
}

/// A decoder of packets.
#[derive(Debug)]
pub struct Sv8Decoder {
    /// What the stream header says.
    pub header: StreamHeaderSv8,
    /// The codes.
    pub vlcs: Sv8Vlcs,
    /// The used-band count of the sub-frame before; zero at the start of a packet.
    pub last_max_band: u8,
}

impl Sv8Decoder {
    /// A decoder for the stream of a header.
    #[must_use]
    pub fn new(header: StreamHeaderSv8, vlcs: Sv8Vlcs) -> (d: Self)
        ensures
            d.header == header,
            d.vlcs == vlcs,
            d.last_max_band == 0,
    {
        Sv8Decoder { header, vlcs, last_max_band: 0 }
    }

    /// Decodes the sub-frames of a packet, and appends them to `out`. A packet starts afresh.
    /// Where a sub-frame fails, those before it stay appended.
    pub fn decode_packet(&mut self, payload: &[u8], out: &mut Vec<Sv8SubFrame>) -> (r: Result<()>)
        requires
            old(self).header.wf(),
        ensures
            final(self).header == old(self).header,
            final(self).vlcs == old(self).vlcs,
            ({
                let read = packet_read(
                    old(self).vlcs,
                    old(self).header,
                    bits::of_bytes(payload@),
                    0,
                    0,
                    old(self).header.sub_frames(),
                    Seq::empty(),
                );
                &&& final(self).last_max_band == read.last
                &&& views(final(out)@) == views(old(out)@) + read.frames
                &&& r == read.result
            }),
    {
        let n: usize = sub_frame_count(self.header.block_power);
        let mut br: PacketReader<'_> = PacketReader::new(payload);
        self.last_max_band = 0;
        let ghost bits = bits::of_bytes(payload@);
        let ghost whole = packet_read(self.vlcs, self.header, bits, 0, 0, n as nat, Seq::empty());
        let ghost mut done = Seq::<SubFrame>::empty();
        let mut i: usize = 0;
        assert(views(out@) =~= views(old(out)@) + done);
        while i < n
            invariant
                i <= n,
                i == done.len(),
                views(out@) == views(old(out)@) + done,
                n == old(self).header.sub_frames(),
                bits == bits::of_bytes(payload@),
                self.header == old(self).header,
                self.vlcs == old(self).vlcs,
                self.header.wf(),
                br@.bits == bits,
                whole == packet_read(
                    old(self).vlcs,
                    old(self).header,
                    bits,
                    0,
                    0,
                    n as nat,
                    Seq::empty(),
                ),
                whole == packet_read(
                    self.vlcs,
                    self.header,
                    bits,
                    br@.pos,
                    self.last_max_band,
                    n as nat,
                    done,
                ),
            decreases n - i,
        {
            let ghost before = views(out@);
            let frame: Sv8SubFrame = self.decode_subframe(&mut br, i == 0)?;
            out.push(frame);
            proof {
                assert(views(out@) =~= before.push(frame@));
                done = done.push(frame@);
            }
            assert(views(out@) =~= views(old(out)@) + done);
            i = i + 1;
        }
        Ok(())
    }

    /// Decodes a sub-frame.
    fn decode_subframe(&mut self, br: &mut PacketReader<'_>, keyframe: bool) -> (r: Result<
        Sv8SubFrame,
    >)
        requires
            old(self).header.wf(),
        ensures
            final(self).header == old(self).header,
            final(self).vlcs == old(self).vlcs,
            final(br)@.bits == old(br)@.bits,
            sub_read(
                old(self).vlcs,
                old(self).header,
                old(br)@.bits,
                old(br)@.pos,
                keyframe,
                old(self).last_max_band,
            ) == (SubRead {
                result: match r {
                    Ok(f) => Ok(f@),
                    Err(e) => Err(e),
                },
                pos: final(br)@.pos,
                last: final(self).last_max_band,
            }),
    {
        let allowed: u8 = if self.header.maxbands > 32 {
            32
        } else {
            self.header.maxbands
        };
        let n: u8 = read_max_band(&self.vlcs, br, keyframe, allowed, self.last_max_band)?;
        self.last_max_band = n;
        let stereo: bool = self.header.channels == 2;
        let res: Vec<[i8; 2]> = read_res_indices(&self.vlcs, br, n, stereo)?;
        let ms_flags: Vec<bool> = read_ms_mask(br, &res, self.header.mid_side && stereo)?;
        let scf: Vec<[u8; 3]> = read_scalefactors(&self.vlcs, br, &res)?;
        let levels: Vec<[i32; SAMPLES_PER_BAND]> = read_samples(&self.vlcs, br, &res)?;
        Ok(Sv8SubFrame { res, ms_flags, scf, levels })
    }
}

/// Sub-frames of a packet.
fn sub_frame_count(block_power: u8) -> (n: usize)
    requires
        block_power <= 15,
    ensures
        n == pow2((2 * block_power) as nat),
{
    let shift: u32 = 2 * block_power as u32;
    proof {
        lemma2_to64();
        if shift < 30 {
            lemma_pow2_strictly_increases(shift as nat, 30);
        }
        vstd::bits::lemma_u32_shl_is_mul(1, shift);
    }
    (1u32 << shift) as usize
}

} // verus!
