//! Frames of the older stream format that are written one after the other decode one after
//! the other.

use crate::bits;
use crate::cns::CnsPrng;
use crate::coding;
use crate::coding::Emit;
use crate::error::Error;
use crate::sv7_band_decode::Sv7TableSet;
use crate::sv7_frame_encode::Sv7EncBand;
use crate::sv7_stereo_frame;
use crate::sv7_stereo_frame::{ScfMemory, StereoBody};
use crate::sv7_stereo_frame_encode;
use crate::sv7_stereo_frame_encode::BodyWrite;
use crate::sv7_stream;
use crate::sv7_stream::{FramesRead, StreamState};
use crate::sv8_stereo_frame;
use vstd::prelude::*;

verus! {

/// The bands of a frame.
pub struct FrameBands {
    pub left: Seq<Sv7EncBand>,
    pub right: Seq<Sv7EncBand>,
    pub ms_flags: Seq<bool>,
}

/// Writing frames one after the other.
pub open spec fn run_write(
    tables: Sv7TableSet,
    frames: Seq<FrameBands>,
    stream_ms: bool,
    memory: ScfMemory,
) -> BodyWrite
    decreases frames.len(),
{
    if frames.len() == 0 {
        BodyWrite { emit: Emit::of(Seq::empty()), memory }
    } else {
        let f = frames[0];
        let first = sv7_stereo_frame_encode::body_write(
            tables,
            f.left,
            f.right,
            f.ms_flags,
            stream_ms,
            memory,
        );
        let rest = run_write(tables, frames.skip(1), stream_ms, first.memory);
        BodyWrite { emit: first.emit.chain(rest.emit), memory: rest.memory }
    }
}

/// The noise generator behind a frame.
pub open spec fn noise_behind(f: FrameBands, noise: CnsPrng) -> CnsPrng {
    sv8_stereo_frame::noise_after(
        noise,
        sv7_stereo_frame_encode::types_of(f.left, f.right),
        2 * f.left.len() as int,
    )
}

/// The noise generator behind frames.
pub open spec fn run_noise(frames: Seq<FrameBands>, noise: CnsPrng) -> CnsPrng
    decreases frames.len(),
{
    if frames.len() == 0 {
        noise
    } else {
        run_noise(frames.skip(1), noise_behind(frames[0], noise))
    }
}

/// The frame bodies that a decoder yields for frames.
pub open spec fn run_bodies(
    frames: Seq<FrameBands>,
    stream_ms: bool,
    noise: CnsPrng,
) -> Seq<StereoBody>
    decreases frames.len(),
{
    if frames.len() == 0 {
        Seq::empty()
    } else {
        let f = frames[0];
        seq![
            sv7_stereo_frame_encode::body_for(f.left, f.right, f.ms_flags, stream_ms, noise),
        ] + run_bodies(frames.skip(1), stream_ms, noise_behind(f, noise))
    }
}

/// Frames that are written one after the other decode to their bands, and the decoder is
/// left with the memory that writing them left.
pub proof fn law_frames_read_back(
    tables: Sv7TableSet,
    bits: Seq<bool>,
    pos: nat,
    state: StreamState,
    frames: Seq<FrameBands>,
    done: Seq<StereoBody>,
)
    requires
        tables.orderly(),
        state.max_band <= 31,
        forall|i: int|
            0 <= i < frames.len() ==> (#[trigger] frames[i]).left.len() == state.max_band + 1,
        ({
            let w = run_write(tables, frames, state.stream_ms, state.memory);
            w.emit.result is Ok && coding::readable(bits, pos, w.emit.code)
        }),
    ensures
        sv7_stream::frames_read(tables, bits, pos, state, frames.len(), done) == (FramesRead {
            result: Ok(done + run_bodies(frames, state.stream_ms, state.noise)),
            pos: pos + run_write(
                tables,
                frames,
                state.stream_ms,
                state.memory,
            ).emit.code.len(),
            state: StreamState {
                memory: run_write(tables, frames, state.stream_ms, state.memory).memory,
                noise: run_noise(frames, state.noise),
                frames: state.frames + frames.len(),
                ..state
            },
        }),
    decreases frames.len(),
{
    if frames.len() == 0 {
        assert(done + Seq::<StereoBody>::empty() =~= done);
    } else {
        let f = frames[0];
        let tail = frames.skip(1);
        let first = sv7_stereo_frame_encode::body_write(
            tables,
            f.left,
            f.right,
            f.ms_flags,
            state.stream_ms,
            state.memory,
        );
        let rest = run_write(tables, tail, state.stream_ms, first.memory);
        bits::lemma_at_concat(bits, pos, first.emit.code, rest.emit.code);
        sv7_stereo_frame_encode::law_body_reads_back(
            tables,
            bits,
            pos,
            f.left,
            f.right,
            f.ms_flags,
            state.stream_ms,
            state.memory,
            state.noise,
        );
        let body = sv7_stereo_frame_encode::body_for(
            f.left,
            f.right,
            f.ms_flags,
            state.stream_ms,
            state.noise,
        );
        let read = state.next_read(tables, bits, pos);
        let next = state.behind(read);
        assert(read.result == Ok::<StereoBody, Error>(body));
        assert forall|i: int| 0 <= i < tail.len() implies (#[trigger] tail[i]).left.len()
            == next.max_band + 1 by {
            assert(tail[i] == frames[i + 1]);
        }
        law_frames_read_back(tables, bits, read.pos, next, tail, done.push(body));
        let bodies = run_bodies(tail, state.stream_ms, next.noise);
        assert(done.push(body) + bodies =~= done + (seq![body] + bodies));
    }
}

/// A run of frames goes on frame by frame, each from where the one before it stopped and with
/// what it left: the scalefactors, the noise generator and a count one higher. It ends without
/// a fault at the end of the bits, even within a frame, and where it has as many as it was
/// asked for.
pub proof fn law_run_goes_on(
    tables: Sv7TableSet,
    bits: Seq<bool>,
    pos: nat,
    state: StreamState,
    n: nat,
    done: Seq<StereoBody>,
)
    ensures
        ({
            let run = sv7_stream::frames_read(tables, bits, pos, state, n, done);
            let read = sv7_stereo_frame::body_read(
                tables,
                bits,
                pos,
                state.max_band,
                state.stream_ms,
                state.memory,
                state.noise,
            );
            let next = StreamState {
                max_band: state.max_band,
                stream_ms: state.stream_ms,
                noise: read.noise,
                memory: read.memory,
                frames: state.frames + 1,
            };
            let over = n == 0 || pos >= bits.len();
            let starved = read.result == Err::<StereoBody, Error>(Error::UnexpectedEof) && read.pos
                >= bits.len();
            &&& over ==> run.result == Ok::<Seq<StereoBody>, Error>(done) && run.pos == pos
                && run.state == state
            &&& !over && read.result is Ok ==> run == sv7_stream::frames_read(
                tables,
                bits,
                read.pos,
                next,
                (n - 1) as nat,
                done.push(read.result->Ok_0),
            )
            &&& !over && starved ==> run.result == Ok::<Seq<StereoBody>, Error>(done)
            &&& !over && read.result is Err && !starved ==> run.result == Err::<
                Seq<StereoBody>,
                Error,
            >(read.result->Err_0)
            &&& !over && read.result is Err ==> run.pos == read.pos && run.state.frames
                == state.frames
        }),
{
}

} // verus!
