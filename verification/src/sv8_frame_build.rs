//! Putting a frame together from the channels that were chosen for its bands.

use crate::bits;
use crate::cns::{CnsPrng, SAMPLES_PER_BAND};
use crate::coding;
use crate::error::{Error, Result};
use crate::sv8_band_decode;
use crate::sv8_dscf_loop;
use crate::sv8_dscf_loop::SCF_GRANULES_PER_BAND;
use crate::sv8_huffman::Sv8TableSet;
use crate::sv8_quantize::{QuantizedBand, SV8_SCF_MAX, SV8_SCF_MIN};
use crate::sv8_sample_encode;
use crate::sv8_stereo_frame;
use crate::sv8_stereo_frame::{FrameMemory, FrameRead, StereoFrame, Sv8StereoFrameDecode};
use crate::sv8_stereo_frame_encode;
use crate::sv8_stereo_frame_encode::band_sample_bits;
use crate::sv8_stereo_frame_laws;
use vstd::prelude::*;

verus! {

/// The largest band type that a frame can code.
pub const SV8_MAX_RES: i8 = 15;

/// Bits that the scalefactors of a coded channel are taken to cost.
pub const CODED_CHANNEL_OVERHEAD_BITS: u128 = 22;

/// A channel of a band: its band type and its quantised samples.
#[derive(Debug, Clone, Copy, PartialEq, Eq)]
pub struct ChannelCandidate {
    pub bt: i8,
    pub q: QuantizedBand,
}

/// A band: its channels, which are mid and side where `ms` is set.
#[derive(Debug, Clone, Copy, PartialEq, Eq)]
pub struct ElectedBand {
    pub ms: bool,
    pub channels: [ChannelCandidate; 2],
}

impl ChannelCandidate {
    /// A channel that codes nothing.
    #[must_use]
    pub fn empty() -> (c: Self)
        ensures
            c.bt == 0,
            c.q.scf@ == seq![0i32, 0i32, 0i32],
            c.q.levels@ == sv8_band_decode::silence(),
    {
        let q: QuantizedBand = QuantizedBand { scf: [0;3], levels: [0;36] };
        assert(q.scf@ =~= seq![0i32, 0i32, 0i32]);
        assert(q.levels@ =~= sv8_band_decode::silence());
        ChannelCandidate { bt: 0, q }
    }

    /// A channel of noise with one scalefactor.
    #[must_use]
    pub fn noise(scf: i32) -> (c: Self)
        ensures
            c.bt == -1,
            c.q.scf@ == seq![scf, scf, scf],
            c.q.levels@ == sv8_band_decode::silence(),
    {
        let q: QuantizedBand = QuantizedBand { scf: [scf, scf, scf], levels: [0;36] };
        assert(q.scf@ =~= seq![scf, scf, scf]);
        assert(q.levels@ =~= sv8_band_decode::silence());
        ChannelCandidate { bt: -1, q }
    }

    /// The bits that the channel is taken to cost: those of its levels, and a flat sum for
    /// its scalefactors. A channel that codes nothing costs nothing.
    pub fn bits(&self, tables: &Sv8TableSet) -> (r: Result<u128>)
        ensures
            ({
                let e = sv8_sample_encode::emit_levels(*tables, self.bt, self.q.levels@);
                match r {
                    Ok(n) => if self.bt == 0 {
                        n == 0
                    } else {
                        e.result is Ok && n == e.code.len() + 22
                    },
                    Err(f) => self.bt != 0 && e.result == Err::<(), Error>(f),
                }
            }),
    {
        if self.bt == 0 {
            return Ok(0);
        }
        let n: u128 = band_sample_bits(tables, self.bt, &self.q.levels)?;
        Ok(n + CODED_CHANNEL_OVERHEAD_BITS)
    }
}

/// The band type of a channel, kept to what a frame can code.
#[must_use]
pub fn cap_band_type(bt: i8) -> (t: i8)
    ensures
        t == if bt > 15 {
            15
        } else {
            bt as int
        },
{
    if bt > SV8_MAX_RES {
        SV8_MAX_RES
    } else {
        bt
    }
}

/// The method that shares every scalefactor that equals the one before it.
pub open spec fn sharing_method(scf: [i32; 3]) -> int {
    (if scf[1] == scf[0] {
        2int
    } else {
        0
    }) + (if scf[2] == scf[1] {
        1int
    } else {
        0
    })
}

/// The method that shares every scalefactor that equals the one before it.
#[must_use]
pub fn scfi_for(scf: &[i32; SCF_GRANULES_PER_BAND]) -> (m: u8)
    ensures
        m == sharing_method(*scf),
{
    let share1: u8 = if scf[1] == scf[0] {
        2
    } else {
        0
    };
    let share2: u8 = if scf[2] == scf[1] {
        1
    } else {
        0
    };
    share1 + share2
}

/// A scalefactor that the method does not share differs from the one before it, and one that
/// it shares equals it.
pub proof fn law_method_shares(scf: [i32; 3])
    ensures
        sv8_dscf_loop::is_coded(sharing_method(scf), 1) <==> scf[1] != scf[0],
        sv8_dscf_loop::is_coded(sharing_method(scf), 2) <==> scf[2] != scf[1],
{
}

/// A channel of the band codes something.
pub open spec fn is_coded(band: ElectedBand) -> bool {
    band.channels[0].bt != 0 || band.channels[1].bt != 0
}

/// How many bands a frame has: up to the highest of the first `n` that codes something.
pub open spec fn used_bands(bands: Seq<ElectedBand>, n: int) -> int
    decreases n,
{
    if n <= 0 {
        0
    } else if is_coded(bands[n - 1]) {
        n
    } else {
        used_bands(bands, n - 1)
    }
}

/// How many bands are looked at.
pub open spec fn considered(bands: nat, max_band: u8) -> int {
    if bands <= max_band + 1 {
        bands as int
    } else {
        max_band + 1
    }
}

/// The frame of the first `n` bands.
pub open spec fn frame_of(bands: Seq<ElectedBand>, n: nat) -> StereoFrame {
    StereoFrame {
        nbands: n as u8,
        res: Seq::new(n, |b: int| [bands[b].channels[0].bt, bands[b].channels[1].bt]),
        ms_flags: Seq::new(n, |b: int| bands[b].ms && is_coded(bands[b])),
        scfi: Seq::new(
            n,
            |b: int| [method_of(bands[b].channels[0]), method_of(bands[b].channels[1])],
        ),
        scf: Seq::new(2 * n, |i: int| scf_of(bands[i / 2].channels[i % 2])),
        levels: Seq::new(2 * n, |i: int| levels_of(bands[i / 2].channels[i % 2])),
    }
}

/// The method of a channel; zero where it codes nothing.
pub open spec fn method_of(c: ChannelCandidate) -> u8 {
    if c.bt == 0 {
        0
    } else {
        sharing_method(c.q.scf) as u8
    }
}

/// The scalefactors of a channel; zero where it codes nothing.
pub open spec fn scf_of(c: ChannelCandidate) -> [i32; 3] {
    if c.bt == 0 {
        [0i32, 0i32, 0i32]
    } else {
        c.q.scf
    }
}

/// The levels of a channel; zero where it codes nothing.
pub open spec fn levels_of(c: ChannelCandidate) -> Seq<i32> {
    if c.bt == 0 {
        sv8_band_decode::silence()
    } else {
        c.q.levels@
    }
}

proof fn lemma_used(bands: Seq<ElectedBand>, n: int)
    requires
        0 <= n,
    ensures
        0 <= used_bands(bands, n) <= n,
    decreases n,
{
    if n > 0 {
        lemma_used(bands, n - 1);
    }
}

/// Builds the frame of the bands up to `max_band`. Bands above the highest that codes
/// something are left out. A `max_band` outside `1..=31` is refused.
pub fn build_sv8_stereo_frame(bands: &[ElectedBand], max_band: u8) -> (r: Result<
    Sv8StereoFrameDecode,
>)
    ensures
        match r {
            Ok(f) => 1 <= max_band <= 31 && f@ == frame_of(
                bands@,
                used_bands(bands@, considered(bands@.len(), max_band)) as nat,
            ),
            Err(e) => !(1 <= max_band <= 31) && e == Error::MaxBandOutOfRange(max_band),
        },
{
    if max_band < 1 || max_band > 31 {
        return Err(Error::MaxBandOutOfRange(max_band));
    }
    let mut n: usize = if bands.len() <= max_band as usize + 1 {
        bands.len()
    } else {
        max_band as usize + 1
    };
    while n > 0 && bands[n - 1].channels[0].bt == 0 && bands[n - 1].channels[1].bt == 0
        invariant
            n <= bands@.len(),
            n <= 32,
            used_bands(bands@, n as int) == used_bands(
                bands@,
                considered(bands@.len(), max_band),
            ),
        decreases n,
    {
        n = n - 1;
    }
    let mut res: Vec<[i8; 2]> = Vec::new();
    let mut ms_flags: Vec<bool> = Vec::new();
    let mut scfi: Vec<[u8; 2]> = Vec::new();
    let mut granule_scf: Vec<[[i32; SCF_GRANULES_PER_BAND]; 2]> = Vec::new();
    let mut levels: Vec<[[i32; SAMPLES_PER_BAND]; 2]> = Vec::new();
    let mut b: usize = 0;
    while b < n
        invariant
            b <= n <= bands@.len(),
            n <= 32,
            res@.len() == b,
            ms_flags@.len() == b,
            scfi@.len() == b,
            granule_scf@.len() == b,
            levels@.len() == b,
            forall|i: int|
                0 <= i < b ==> #[trigger] res@[i] == [
                    bands@[i].channels[0].bt,
                    bands@[i].channels[1].bt,
                ],
            forall|i: int|
                0 <= i < b ==> #[trigger] ms_flags@[i] == (bands@[i].ms && is_coded(bands@[i])),
            forall|i: int|
                0 <= i < b ==> #[trigger] scfi@[i] == [
                    method_of(bands@[i].channels[0]),
                    method_of(bands@[i].channels[1]),
                ],
            forall|i: int, ch: int|
                0 <= i < b && 0 <= ch < 2 ==> #[trigger] granule_scf@[i][ch] == scf_of(
                    bands@[i].channels[ch],
                ),
            forall|i: int, ch: int|
                0 <= i < b && 0 <= ch < 2 ==> (#[trigger] levels@[i][ch])@ == levels_of(
                    bands@[i].channels[ch],
                ),
        decreases n - b,
    {
        let left: ChannelCandidate = bands[b].channels[0];
        let right: ChannelCandidate = bands[b].channels[1];
        let (m0, s0, l0) = channel_parts(&left);
        let (m1, s1, l1) = channel_parts(&right);
        res.push([left.bt, right.bt]);
        ms_flags.push(bands[b].ms && (left.bt != 0 || right.bt != 0));
        scfi.push([m0, m1]);
        granule_scf.push([s0, s1]);
        levels.push([l0, l1]);
        b = b + 1;
    }
    let frame: Sv8StereoFrameDecode = Sv8StereoFrameDecode {
        nbands: n as u8,
        res,
        ms_flags,
        scfi,
        granule_scf,
        levels,
    };
    proof {
        let want = frame_of(bands@, n as nat);
        assert(frame@.res =~= want.res);
        assert(frame@.ms_flags =~= want.ms_flags);
        assert(frame@.scfi =~= want.scfi);
        assert(frame@.scf =~= want.scf);
        assert(frame@.levels =~= want.levels);
        if n > 0 {
            assert(is_coded(bands@[n - 1]));
        }
        assert(used_bands(bands@, n as int) == n);
    }
    Ok(frame)
}

/// The method, the scalefactors and the levels of a channel.
fn channel_parts(c: &ChannelCandidate) -> (r: (
    u8,
    [i32; SCF_GRANULES_PER_BAND],
    [i32; SAMPLES_PER_BAND],
))
    ensures
        r.0 == method_of(*c),
        r.1 == scf_of(*c),
        r.2@ == levels_of(*c),
{
    if c.bt == 0 {
        let scf: [i32; SCF_GRANULES_PER_BAND] = [0;3];
        let levels: [i32; SAMPLES_PER_BAND] = [0;36];
        proof {
            coding::lemma_triple(scf);
            assert(levels@ =~= sv8_band_decode::silence());
        }
        (0, scf, levels)
    } else {
        (scfi_for(&c.q.scf), c.q.scf, c.q.levels)
    }
}

// ---------------------------------------------------------------------------
// Law
// ---------------------------------------------------------------------------

/// The channel can stand in a frame: its band type and its scalefactors are in range.
pub open spec fn in_range(c: ChannelCandidate) -> bool {
    &&& -1 <= c.bt <= SV8_MAX_RES
    &&& forall|g: int| 0 <= g < 3 ==> SV8_SCF_MIN <= #[trigger] c.q.scf[g] <= SV8_SCF_MAX
}

/// A frame with the noise that a decoder puts into its noise bands.
pub open spec fn with_noise(f: StereoFrame, noise: CnsPrng) -> StereoFrame {
    StereoFrame {
        levels: Seq::new(
            f.levels.len(),
            |i: int|
                if f.res[i / 2][i % 2] == -1 {
                    sv8_stereo_frame::noise_after(noise, f.res, i).noise()
                } else {
                    f.levels[i]
                },
        ),
        ..f
    }
}

/// Noise is not written.
proof fn lemma_noise_unwritten(
    tables: Sv8TableSet,
    f: StereoFrame,
    max_band: u8,
    keyframe: bool,
    stream_ms: bool,
    memory: FrameMemory,
    noise: CnsPrng,
)
    requires
        f.levels.len() == 2 * f.nbands,
    ensures
        sv8_stereo_frame_encode::frame_write(
            tables,
            with_noise(f, noise),
            max_band,
            keyframe,
            stream_ms,
            memory,
        ) == sv8_stereo_frame_encode::frame_write(
            tables,
            f,
            max_band,
            keyframe,
            stream_ms,
            memory,
        ),
{
    reveal(sv8_stereo_frame_encode::frame_write);
    let g = with_noise(f, noise);
    let n = 2 * f.nbands as int;
    lemma_levels_alike(tables, f.res, f.levels, g.levels, 0, n);
    let m = memory.with_count(f.nbands);
    assert(sv8_stereo_frame_encode::body_write(tables, g, keyframe, stream_ms, m)
        == sv8_stereo_frame_encode::body_write(tables, f, keyframe, stream_ms, m));
}

proof fn lemma_levels_alike(
    tables: Sv8TableSet,
    res: Seq<[i8; 2]>,
    a: Seq<Seq<i32>>,
    b: Seq<Seq<i32>>,
    from: int,
    n: int,
)
    requires
        0 <= from,
        forall|i: int| 0 <= i < n && res[i / 2][i % 2] != -1 ==> #[trigger] a[i] == b[i],
    ensures
        coding::emit_each(sv8_stereo_frame_encode::level_emit(tables, res, a), from, n)
            == coding::emit_each(sv8_stereo_frame_encode::level_emit(tables, res, b), from, n),
    decreases n - from,
{
    if from < n {
        lemma_levels_alike(tables, res, a, b, from + 1, n);
        if res[from / 2][from % 2] != -1 {
            assert(a[from] == b[from]);
        }
    }
}

/// What is built is what decodes: the frame of bands in range, once written, reads back with
/// noise in its noise bands.
pub proof fn law_built_frame_reads_back(
    tables: Sv8TableSet,
    bits: Seq<bool>,
    pos: nat,
    bands: Seq<ElectedBand>,
    n: nat,
    max_band: u8,
    keyframe: bool,
    stream_ms: bool,
    memory: FrameMemory,
    noise: CnsPrng,
)
    requires
        tables.canonical(),
        n <= bands.len(),
        n <= 32,
        forall|b: int, ch: int|
            0 <= b < n && 0 <= ch < 2 ==> in_range(#[trigger] bands[b].channels[ch]),
        forall|b: int| 0 <= b < n && (#[trigger] bands[b]).ms ==> stream_ms,
        keyframe || memory.last_nbands <= 32,
        ({
            let w = sv8_stereo_frame_encode::frame_write(
                tables,
                frame_of(bands, n),
                max_band,
                keyframe,
                stream_ms,
                memory,
            );
            w.emit.result is Ok && coding::readable(bits, pos, w.emit.code)
        }),
    ensures
        ({
            let f = frame_of(bands, n);
            let w = sv8_stereo_frame_encode::frame_write(
                tables,
                f,
                max_band,
                keyframe,
                stream_ms,
                memory,
            );
            sv8_stereo_frame::frame_read(
                tables,
                bits,
                pos,
                max_band,
                keyframe,
                stream_ms,
                memory,
                noise,
            ) == (FrameRead {
                result: Ok(with_noise(f, noise)),
                pos: pos + w.emit.code.len(),
                memory: w.memory,
                noise: sv8_stereo_frame::noise_after(noise, f.res, 2 * f.nbands),
            })
        }),
{
    let f = frame_of(bands, n);
    let g = with_noise(f, noise);
    lemma_noise_unwritten(tables, f, max_band, keyframe, stream_ms, memory, noise);
    assert(sv8_stereo_frame_laws::plain(g, stream_ms, noise)) by {
        reveal(sv8_stereo_frame_laws::plain);
        assert forall|b: int, ch: int| 0 <= b < n && 0 <= ch < 2 implies -1
            <= #[trigger] g.res[b][ch] <= 15 by {
            assert(in_range(bands[b].channels[ch]));
        }
        assert forall|b: int| 0 <= b < n && #[trigger] g.ms_flags[b] implies stream_ms
            && sv8_stereo_frame::in_scope(g.res[b]) by {
            assert(bands[b].ms);
        }
        assert forall|i: int| 0 <= i < 2 * n implies sv8_stereo_frame_laws::plain_scf(
            g.res[i / 2][i % 2],
            #[trigger] g.scf[i],
        ) by {
            let c = bands[i / 2].channels[i % 2];
            assert(in_range(c));
            assert(SV8_SCF_MIN <= c.q.scf[0] && SV8_SCF_MIN <= c.q.scf[1] && SV8_SCF_MIN
                <= c.q.scf[2]);
        }
        assert forall|i: int| 0 <= i < 2 * n implies sv8_stereo_frame_laws::plain_levels(
            g.res[i / 2][i % 2],
            #[trigger] g.levels[i],
            sv8_stereo_frame::noise_after(noise, g.res, i),
        ) by {
            let c = bands[i / 2].channels[i % 2];
            assert(f.levels[i] == levels_of(c));
        }
    }
    sv8_stereo_frame_laws::law_frame_reads_back(
        tables,
        bits,
        pos,
        g,
        max_band,
        keyframe,
        stream_ms,
        memory,
        noise,
    );
}

} // verus!
