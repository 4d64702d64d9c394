//! What noise changes in a decoded packet: nothing but the levels of the noise bands.

use crate::cns::CnsPrng;
use crate::coding;
use crate::sv8_band_header;
use crate::sv8_huffman::Sv8TableSet;
use crate::sv8_stereo_frame;
use crate::sv8_stereo_frame::{FrameMemory, FrameRead, StereoFrame};
use crate::sv8_stream;
use crate::sv8_stream::RunRead;
use vstd::prelude::*;

verus! {

/// Rows of levels that differ at most where the channel is noise.
pub open spec fn rows_alike(a: Seq<Seq<i32>>, b: Seq<Seq<i32>>, res: Seq<[i8; 2]>) -> bool {
    &&& a.len() == b.len()
    &&& forall|i: int|
        0 <= i < a.len() && res[i / 2][i % 2] != -1 ==> #[trigger] a[i] == b[i]
}

/// Frames that differ at most in the levels of noise bands.
pub open spec fn alike(a: StereoFrame, b: StereoFrame) -> bool {
    &&& a.nbands == b.nbands
    &&& a.res == b.res
    &&& a.ms_flags == b.ms_flags
    &&& a.scfi == b.scfi
    &&& a.scf == b.scf
    &&& rows_alike(a.levels, b.levels, a.res)
}

/// Outcomes of decoding a frame that differ at most so.
pub open spec fn reads_alike(a: FrameRead, b: FrameRead) -> bool {
    &&& a.pos == b.pos
    &&& a.memory == b.memory
    &&& match (a.result, b.result) {
        (Ok(f), Ok(g)) => alike(f, g),
        (Err(e), Err(f)) => e == f,
        _ => false,
    }
}

/// Runs of frames that differ at most so.
pub open spec fn runs_alike(a: RunRead, b: RunRead) -> bool {
    &&& a.result == b.result
    &&& a.pos == b.pos
    &&& a.memory == b.memory
    &&& a.frames.len() == b.frames.len()
    &&& forall|i: int| 0 <= i < a.frames.len() ==> alike(#[trigger] a.frames[i], b.frames[i])
}

/// Channels that are not noise are decoded alike; noise takes no bits.
proof fn lemma_channel_alike(
    tables: Sv8TableSet,
    bits: Seq<bool>,
    pos: nat,
    band_type: i8,
    x: CnsPrng,
    y: CnsPrng,
)
    ensures
        ({
            let a = sv8_stereo_frame::parse_channel_levels(tables, bits, pos, band_type, x);
            let b = sv8_stereo_frame::parse_channel_levels(tables, bits, pos, band_type, y);
            &&& a.1 == b.1
            &&& match (a.0, b.0) {
                (Ok(f), Ok(g)) => band_type != -1 ==> f == g,
                (Err(e), Err(f)) => e == f,
                _ => false,
            }
        }),
{
}

/// The sweep over the levels goes alike.
proof fn lemma_levels_alike(
    tables: Sv8TableSet,
    bits: Seq<bool>,
    pos: nat,
    res: Seq<[i8; 2]>,
    x: CnsPrng,
    y: CnsPrng,
    n: nat,
    a: Seq<Seq<i32>>,
    b: Seq<Seq<i32>>,
)
    requires
        rows_alike(a, b, res),
    ensures
        ({
            let p = coding::sweep(sv8_stereo_frame::level_step(tables, bits, x, res), n, a, pos);
            let q = coding::sweep(sv8_stereo_frame::level_step(tables, bits, y, res), n, b, pos);
            &&& p.result == q.result
            &&& p.pos == q.pos
            &&& rows_alike(p.done, q.done, res)
        }),
    decreases n - a.len(),
{
    if a.len() < n {
        let i = a.len() as int;
        let t = res[i / 2][i % 2];
        let u = sv8_stereo_frame::noise_after(x, res, i);
        let v = sv8_stereo_frame::noise_after(y, res, i);
        lemma_channel_alike(tables, bits, pos, t, u, v);
        let f = sv8_stereo_frame::parse_channel_levels(tables, bits, pos, t, u);
        let g = sv8_stereo_frame::parse_channel_levels(tables, bits, pos, t, v);
        if f.0 is Ok {
            let c = a.push(f.0->Ok_0);
            let d = b.push(g.0->Ok_0);
            assert(rows_alike(c, d, res)) by {
                assert forall|j: int|
                    0 <= j < c.len() && res[j / 2][j % 2] != -1 implies #[trigger] c[j] == d[j] by {
                    if j < i {
                        assert(a[j] == b[j]);
                    }
                }
            }
            lemma_levels_alike(tables, bits, f.1, res, x, y, n, c, d);
        }
    }
}

/// What follows the used-band count is decoded alike.
proof fn lemma_body_alike(
    tables: Sv8TableSet,
    bits: Seq<bool>,
    pos: nat,
    keyframe: bool,
    stream_ms: bool,
    memory: FrameMemory,
    x: CnsPrng,
    y: CnsPrng,
)
    ensures
        reads_alike(
            sv8_stereo_frame::body_read(tables, bits, pos, keyframe, stream_ms, memory, x),
            sv8_stereo_frame::body_read(tables, bits, pos, keyframe, stream_ms, memory, y),
        ),
{
    let types = sv8_band_header::parse_type_pairs(tables, bits, pos, memory.last_nbands as nat);
    if types.0 is Ok {
        let res = types.0->Ok_0;
        let flags = sv8_stereo_frame::parse_flags(bits, types.1, res, stream_ms);
        if flags.0 is Ok {
            let methods = sv8_stereo_frame::method_sweep(tables, bits, flags.1, res).parsed();
            if methods.0 is Ok {
                let scf = sv8_stereo_frame::scf_sweep(
                    tables,
                    bits,
                    methods.1,
                    keyframe,
                    memory,
                    res,
                    methods.0->Ok_0,
                );
                lemma_levels_alike(
                    tables,
                    bits,
                    scf.pos,
                    res,
                    x,
                    y,
                    2 * res.len(),
                    Seq::empty(),
                    Seq::empty(),
                );
            }
        }
    }
}

/// Whatever the noise generator stands at, a frame comes out the same, but for the levels of
/// its noise bands.
pub proof fn law_frame_stands_alone(
    tables: Sv8TableSet,
    bits: Seq<bool>,
    pos: nat,
    max_band: u8,
    keyframe: bool,
    stream_ms: bool,
    memory: FrameMemory,
    x: CnsPrng,
    y: CnsPrng,
)
    ensures
        reads_alike(
            sv8_stereo_frame::frame_read(
                tables,
                bits,
                pos,
                max_band,
                keyframe,
                stream_ms,
                memory,
                x,
            ),
            sv8_stereo_frame::frame_read(
                tables,
                bits,
                pos,
                max_band,
                keyframe,
                stream_ms,
                memory,
                y,
            ),
        ),
{
    reveal(sv8_stereo_frame::frame_read);
    let count = sv8_stereo_frame::parse_used_bands(
        tables,
        bits,
        pos,
        max_band,
        keyframe,
        memory.last_nbands,
    );
    if count.0 is Ok {
        let m = memory.with_count(count.0->Ok_0);
        lemma_body_alike(tables, bits, count.1, keyframe, stream_ms, m, x, y);
    }
}

/// Runs of frames are decoded alike.
proof fn lemma_runs_alike(
    tables: Sv8TableSet,
    bits: Seq<bool>,
    max_band: u8,
    stream_ms: bool,
    n: nat,
    a: Seq<StereoFrame>,
    b: Seq<StereoFrame>,
    pos: nat,
    memory: FrameMemory,
    x: CnsPrng,
    y: CnsPrng,
)
    requires
        a.len() == b.len(),
        forall|i: int| 0 <= i < a.len() ==> alike(#[trigger] a[i], b[i]),
    ensures
        runs_alike(
            sv8_stream::run_read(tables, bits, max_band, stream_ms, n, a, pos, memory, x),
            sv8_stream::run_read(tables, bits, max_band, stream_ms, n, b, pos, memory, y),
        ),
    decreases n - a.len(),
{
    if a.len() < n {
        let key = a.len() == 0;
        law_frame_stands_alone(tables, bits, pos, max_band, key, stream_ms, memory, x, y);
        let f = sv8_stereo_frame::frame_read(
            tables,
            bits,
            pos,
            max_band,
            key,
            stream_ms,
            memory,
            x,
        );
        let g = sv8_stereo_frame::frame_read(
            tables,
            bits,
            pos,
            max_band,
            key,
            stream_ms,
            memory,
            y,
        );
        if f.result is Ok {
            let c = a.push(f.result->Ok_0);
            let d = b.push(g.result->Ok_0);
            assert forall|i: int| 0 <= i < c.len() implies alike(#[trigger] c[i], d[i]) by {
                if i < a.len() {
                    assert(alike(a[i], b[i]));
                }
            }
            lemma_runs_alike(
                tables,
                bits,
                max_band,
                stream_ms,
                n,
                c,
                d,
                f.pos,
                f.memory,
                f.noise,
                g.noise,
            );
        }
    }
}

/// An audio packet stands alone: whatever was decoded before it, its frames come out the same,
/// but for the levels of their noise bands.
pub proof fn law_packet_stands_alone(
    tables: Sv8TableSet,
    payload: Seq<u8>,
    max_band: u8,
    stream_ms: bool,
    n: nat,
    x: CnsPrng,
    y: CnsPrng,
)
    ensures
        runs_alike(
            sv8_stream::packet_read(tables, payload, max_band, stream_ms, n, x),
            sv8_stream::packet_read(tables, payload, max_band, stream_ms, n, y),
        ),
{
    lemma_runs_alike(
        tables,
        sv8_stream::payload_bits(payload),
        max_band,
        stream_ms,
        n,
        Seq::empty(),
        Seq::empty(),
        0,
        FrameMemory::blank(),
        x,
        y,
    );
}

} // verus!
