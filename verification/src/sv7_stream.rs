//! Decoding the frames of a stream of the older format, one after the other.

use crate::bit_reader::Sv7BitReader;
use crate::cns::CnsPrng;
use crate::error::{Error, Result};
use crate::progress;
use crate::sv7_band_decode::Sv7TableSet;
use crate::sv7_band_header::SV7_MAX_BAND_INCLUSIVE;
use crate::sv7_stereo_frame;
use crate::sv7_stereo_frame::{
    decode_sv7_stereo_frame, BodyRead, ScfMemory, StereoBody, Sv7ScfMemory, Sv7StereoFrame,
};
use crate::sv8_stream::SAMPLES_PER_FRAME_PER_CHANNEL;
use vstd::prelude::*;

verus! {

/// Samples that a frame comes to, both channels together.
pub const STEREO_FRAME_PCM_LEN: usize = 2 * SAMPLES_PER_FRAME_PER_CHANNEL;

/// The fields of a stream header that decoding needs.
#[derive(Debug, Clone, Copy, PartialEq, Eq)]
pub struct Sv7HeaderFields {
    /// The highest band.
    pub max_band: u8,
    /// Bands have mid/side flags.
    pub mid_side: bool,
}

impl Default for Sv7HeaderFields {
    fn default() -> (h: Self)
        ensures
            h == (Sv7HeaderFields { max_band: 0, mid_side: false }),
    {
        Sv7HeaderFields { max_band: 0, mid_side: false }
    }
}

/// A decoder of the frames of a stream.
#[derive(Debug, Clone, PartialEq, Eq)]
pub struct Sv7StreamDecoder {
    max_band: u8,
    stream_ms: bool,
    cns: CnsPrng,
    scf: Sv7ScfMemory,
    frames_decoded: u64,
}

/// A decoder, as the contracts speak of it.
#[verifier::ext_equal]
pub struct StreamState {
    pub max_band: u8,
    pub stream_ms: bool,
    pub noise: CnsPrng,
    pub memory: ScfMemory,
    pub frames: nat,
}

impl StreamState {
    /// The decoder at the start of a stream.
    pub open spec fn fresh(max_band: u8, stream_ms: bool) -> StreamState {
        StreamState {
            max_band,
            stream_ms,
            noise: CnsPrng { down: 1, up: 1 },
            memory: sv7_stereo_frame::blank(),
            frames: 0,
        }
    }

    /// What decoding the next frame comes to.
    pub open spec fn next_read(self, tables: Sv7TableSet, bits: Seq<bool>, pos: nat) -> BodyRead {
        sv7_stereo_frame::body_read(
            tables,
            bits,
            pos,
            self.max_band,
            self.stream_ms,
            self.memory,
            self.noise,
        )
    }

    /// The decoder behind a frame. A frame that failed is not counted.
    pub open spec fn behind(self, read: BodyRead) -> StreamState {
        StreamState {
            noise: read.noise,
            memory: read.memory,
            frames: if read.result is Ok {
                self.frames + 1
            } else {
                self.frames
            },
            ..self
        }
    }
}

impl View for Sv7StreamDecoder {
    type V = StreamState;

    closed spec fn view(&self) -> StreamState {
        StreamState {
            max_band: self.max_band,
            stream_ms: self.stream_ms,
            noise: self.cns,
            memory: self.scf@,
            frames: self.frames_decoded as nat,
        }
    }
}

/// What decoding a run of frames comes to.
#[verifier::ext_equal]
pub struct FramesRead {
    pub result: Result<Seq<StereoBody>>,
    pub pos: nat,
    pub state: StreamState,
}

/// Decoding up to `n` frames. The run ends where no bit is left, also inside a frame.
pub open spec fn frames_read(
    tables: Sv7TableSet,
    bits: Seq<bool>,
    pos: nat,
    state: StreamState,
    n: nat,
    done: Seq<StereoBody>,
) -> FramesRead
    decreases n,
{
    if n == 0 || pos >= bits.len() {
        FramesRead { result: Ok(done), pos, state }
    } else {
        let read = state.next_read(tables, bits, pos);
        let after = state.behind(read);
        match read.result {
            Ok(f) => frames_read(tables, bits, read.pos, after, (n - 1) as nat, done.push(f)),
            Err(e) => FramesRead {
                result: if e == Error::UnexpectedEof && read.pos >= bits.len() {
                    Ok(done)
                } else {
                    Err(e)
                },
                pos: read.pos,
                state: after,
            },
        }
    }
}

/// A run counts the frames that it decodes, and no more than are asked for.
pub proof fn lemma_frames_counted(
    tables: Sv7TableSet,
    bits: Seq<bool>,
    pos: nat,
    state: StreamState,
    n: nat,
    done: Seq<StereoBody>,
)
    ensures
        state.frames <= frames_read(tables, bits, pos, state, n, done).state.frames
            <= state.frames + n,
    decreases n,
{
    if n > 0 && pos < bits.len() {
        let read = state.next_read(tables, bits, pos);
        if read.result is Ok {
            lemma_frames_counted(
                tables,
                bits,
                read.pos,
                state.behind(read),
                (n - 1) as nat,
                done.push(read.result->Ok_0),
            );
        }
    }
}

/// Frames, as the contracts speak of them.
pub open spec fn bodies(frames: Seq<Sv7StereoFrame>) -> Seq<StereoBody> {
    Seq::new(frames.len(), |i: int| frames[i]@)
}

impl Sv7StreamDecoder {
    /// A decoder at the start of a stream. A stream of more than 32 bands is refused.
    pub fn new(max_band: u8, stream_ms: bool) -> (r: Result<Self>)
        ensures
            match r {
                Ok(d) => max_band <= 31 && d@ == StreamState::fresh(max_band, stream_ms),
                Err(e) => max_band > 31 && e == Error::MaxBandOutOfRange(max_band),
            },
    {
        if max_band > SV7_MAX_BAND_INCLUSIVE {
            return Err(Error::MaxBandOutOfRange(max_band));
        }
        Ok(
            Sv7StreamDecoder {
                max_band,
                stream_ms,
                cns: CnsPrng::new(),
                scf: Sv7ScfMemory::new(),
                frames_decoded: 0,
            },
        )
    }

    /// A decoder for the stream of a header. A stream of more than 32 bands is refused.
    pub fn from_header(header: &Sv7HeaderFields) -> (r: Result<Self>)
        ensures
            match r {
                Ok(d) => header.max_band <= 31 && d@ == StreamState::fresh(
                    header.max_band,
                    header.mid_side,
                ),
                Err(e) => header.max_band > 31 && e == Error::MaxBandOutOfRange(header.max_band),
            },
    {
        Sv7StreamDecoder::new(header.max_band, header.mid_side)
    }

    /// The highest band.
    #[must_use]
    pub fn max_band(&self) -> (b: u8)
        ensures
            b == self@.max_band,
    {
        self.max_band
    }

    /// Bands have mid/side flags.
    #[must_use]
    pub fn stream_ms(&self) -> (b: bool)
        ensures
            b == self@.stream_ms,
    {
        self.stream_ms
    }

    /// The scalefactor memory.
    #[must_use]
    pub fn scf_memory(&self) -> (m: &Sv7ScfMemory)
        ensures
            m@ == self@.memory,
    {
        &self.scf
    }

    /// How many frames were decoded.
    #[must_use]
    pub fn frames_decoded(&self) -> (n: u64)
        ensures
            n == self@.frames,
    {
        self.frames_decoded
    }

    /// Back to the start of the stream.
    pub fn reset(&mut self)
        ensures
            final(self)@ == StreamState::fresh(old(self)@.max_band, old(self)@.stream_ms),
    {
        self.cns = CnsPrng::new();
        self.scf.reset();
        self.frames_decoded = 0;
    }

    /// Decodes the next frame body.
    pub fn decode_frame(&mut self, tables: &Sv7TableSet, reader: &mut Sv7BitReader<'_>) -> (r:
        Result<Sv7StereoFrame>)
        requires
            old(self)@.behind(
                old(self)@.next_read(*tables, old(reader)@.bits, old(reader)@.pos),
            ).frames <= u64::MAX,
        ensures
            final(reader)@.bits == old(reader)@.bits,
            ({
                let read = old(self)@.next_read(*tables, old(reader)@.bits, old(reader)@.pos);
                &&& final(reader)@.pos == read.pos
                &&& final(self)@ == old(self)@.behind(read)
                &&& read.result == match r {
                    Ok(f) => Ok::<StereoBody, Error>(f@),
                    Err(e) => Err(e),
                }
            }),
    {
        let frame: Sv7StereoFrame = decode_sv7_stereo_frame(
            tables,
            reader,
            self.max_band,
            self.stream_ms,
            &mut self.scf,
            &mut self.cns,
        )?;
        self.frames_decoded = self.frames_decoded + 1;
        Ok(frame)
    }

    /// Decodes up to `max_frames` frame bodies that follow each other directly. The run ends
    /// where no bit is left, also inside a frame.
    pub fn decode_frames(
        &mut self,
        tables: &Sv7TableSet,
        reader: &mut Sv7BitReader<'_>,
        max_frames: u64,
    ) -> (r: Result<Vec<Sv7StereoFrame>>)
        requires
            old(self)@.frames + max_frames <= u64::MAX || old(self)@.frames + old(
                reader,
            )@.bits.len() <= u64::MAX,
        ensures
            final(reader)@.bits == old(reader)@.bits,
            ({
                let read = frames_read(
                    *tables,
                    old(reader)@.bits,
                    old(reader)@.pos,
                    old(self)@,
                    max_frames as nat,
                    Seq::empty(),
                );
                &&& final(reader)@.pos == read.pos
                &&& final(self)@ == read.state
                &&& match (read.result, r) {
                    (Ok(s), Ok(v)) => bodies(v@) == s,
                    (Err(e), Err(f)) => e == f,
                    _ => false,
                }
            }),
    {
        let ghost bits = reader@.bits;
        let ghost whole = frames_read(
            *tables,
            bits,
            reader@.pos,
            self@,
            max_frames as nat,
            Seq::empty(),
        );
        proof {
            let n = max_frames as nat;
            progress::law_frames_fit(*tables, bits, reader@.pos, self@, n, Seq::empty());
            lemma_frames_counted(*tables, bits, reader@.pos, self@, n, Seq::empty());
        }
        let mut out: Vec<Sv7StereoFrame> = Vec::new();
        let mut left: u64 = max_frames;
        assert(bodies(out@) =~= Seq::<StereoBody>::empty());
        while left > 0 && !reader.is_empty()
            invariant
                reader@.bits == bits,
                bits == old(reader)@.bits,
                left <= max_frames,
                whole.state.frames <= u64::MAX,
                whole == frames_read(
                    *tables,
                    old(reader)@.bits,
                    old(reader)@.pos,
                    old(self)@,
                    max_frames as nat,
                    Seq::empty(),
                ),
                whole == frames_read(
                    *tables,
                    bits,
                    reader@.pos,
                    self@,
                    left as nat,
                    bodies(out@),
                ),
            decreases left,
        {
            let ghost before = bodies(out@);
            proof {
                let read = self@.next_read(*tables, bits, reader@.pos);
                if read.result is Ok {
                    lemma_frames_counted(
                        *tables,
                        bits,
                        read.pos,
                        self@.behind(read),
                        (left - 1) as nat,
                        before.push(read.result->Ok_0),
                    );
                }
            }
            match self.decode_frame(tables, reader) {
                Ok(frame) => {
                    out.push(frame);
                    assert(bodies(out@) =~= before.push(frame@));
                },
                Err(Error::UnexpectedEof) => {
                    if reader.is_empty() {
                        return Ok(out);
                    }
                    return Err(Error::UnexpectedEof);
                },
                Err(e) => {
                    return Err(e);
                },
            }
            left = left - 1;
        }
        Ok(out)
    }
}

} // verus!
