//! Decoding the frames of audio packets.

use crate::bit_reader::Sv7BitReader;
use crate::bits;
use crate::cns::CnsPrng;
use crate::error::{Error, Result};
use crate::packets::append_bytes;
use crate::progress;
use crate::stream_headers::StreamHeaderFields;
use crate::sv8_huffman::Sv8TableSet;
use crate::sv8_stereo_frame;
use crate::sv8_stereo_frame::{
    decode_sv8_stereo_frame, FrameMemory, StereoFrame, Sv8FrameState, Sv8StereoFrameDecode,
};
use vstd::prelude::*;

verus! {

/// Samples per channel that a frame decodes to.
pub const SAMPLES_PER_FRAME_PER_CHANNEL: usize = 1152;

/// The frames of a vector, as the contracts speak of them.
pub open spec fn models(frames: Seq<Sv8StereoFrameDecode>) -> Seq<StereoFrame> {
    Seq::new(frames.len(), |i: int| frames[i]@)
}

/// What decoding a run of frames comes to.
#[verifier::ext_equal]
pub struct RunRead {
    pub frames: Seq<StereoFrame>,
    pub result: Result<()>,
    pub pos: nat,
    pub memory: FrameMemory,
    pub noise: CnsPrng,
}

/// Decoding frames, behind the frames `done`, until there are `n`. The first frame of all
/// is a key frame.
pub open spec fn run_read(
    tables: Sv8TableSet,
    bits: Seq<bool>,
    max_band: u8,
    stream_ms: bool,
    n: nat,
    done: Seq<StereoFrame>,
    pos: nat,
    memory: FrameMemory,
    noise: CnsPrng,
) -> RunRead
    decreases n - done.len(),
{
    if done.len() >= n {
        RunRead { frames: done, result: Ok(()), pos, memory, noise }
    } else {
        let r = sv8_stereo_frame::frame_read(
            tables,
            bits,
            pos,
            max_band,
            done.len() == 0,
            stream_ms,
            memory,
            noise,
        );
        match r.result {
            Ok(f) => run_read(
                tables,
                bits,
                max_band,
                stream_ms,
                n,
                done.push(f),
                r.pos,
                r.memory,
                r.noise,
            ),
            Err(e) => RunRead {
                frames: done,
                result: Err(e),
                pos: r.pos,
                memory: r.memory,
                noise: r.noise,
            },
        }
    }
}

/// The bits that the frames of an audio packet are read from: two clear bytes follow the
/// payload.
pub open spec fn payload_bits(payload: Seq<u8>) -> Seq<bool> {
    bits::of_bytes(payload + seq![0u8, 0u8])
}

/// Decoding `n` frames of an audio packet.
pub open spec fn packet_read(
    tables: Sv8TableSet,
    payload: Seq<u8>,
    max_band: u8,
    stream_ms: bool,
    n: nat,
    noise: CnsPrng,
) -> RunRead {
    run_read(
        tables,
        payload_bits(payload),
        max_band,
        stream_ms,
        n,
        Seq::empty(),
        0,
        FrameMemory::blank(),
        noise,
    )
}

/// A run keeps the frames that it starts from.
pub proof fn lemma_run_grows(
    tables: Sv8TableSet,
    bits: Seq<bool>,
    max_band: u8,
    stream_ms: bool,
    n: nat,
    done: Seq<StereoFrame>,
    pos: nat,
    memory: FrameMemory,
    noise: CnsPrng,
)
    requires
        done.len() <= n,
    ensures
        ({
            let r = run_read(tables, bits, max_band, stream_ms, n, done, pos, memory, noise);
            &&& done.len() <= r.frames.len() <= n
            &&& r.result is Ok ==> r.frames.len() == n
        }),
    decreases n - done.len(),
{
    if done.len() < n {
        let r = sv8_stereo_frame::frame_read(
            tables,
            bits,
            pos,
            max_band,
            done.len() == 0,
            stream_ms,
            memory,
            noise,
        );
        if r.result is Ok {
            lemma_run_grows(
                tables,
                bits,
                max_band,
                stream_ms,
                n,
                done.push(r.result->Ok_0),
                r.pos,
                r.memory,
                r.noise,
            );
        }
    }
}

/// Decodes the audio packets of a stream.
#[derive(Debug, Clone, PartialEq, Eq)]
pub struct Sv8StreamDecoder {
    max_band: u8,
    stream_ms: bool,
    cns: CnsPrng,
    frames_decoded: u64,
}

/// What decoding carries from packet to packet.
pub struct StreamMemory {
    pub max_band: u8,
    pub stream_ms: bool,
    pub noise: CnsPrng,
    pub frames_decoded: u64,
}

impl View for Sv8StreamDecoder {
    type V = StreamMemory;

    closed spec fn view(&self) -> StreamMemory {
        StreamMemory {
            max_band: self.max_band,
            stream_ms: self.stream_ms,
            noise: self.cns,
            frames_decoded: self.frames_decoded,
        }
    }
}

impl StreamMemory {
    /// A decoder that has decoded nothing yet.
    pub open spec fn fresh(header: StreamHeaderFields) -> StreamMemory {
        StreamMemory {
            max_band: header.max_band,
            stream_ms: header.mid_side,
            noise: CnsPrng { down: 1, up: 1 },
            frames_decoded: 0,
        }
    }

    /// Decoding `n` frames of an audio packet.
    pub open spec fn reading(self, tables: Sv8TableSet, payload: Seq<u8>, n: nat) -> RunRead {
        packet_read(tables, payload, self.max_band, self.stream_ms, n, self.noise)
    }

    /// The decoder behind such a packet.
    pub open spec fn after(self, run: RunRead) -> StreamMemory {
        StreamMemory {
            max_band: self.max_band,
            stream_ms: self.stream_ms,
            noise: run.noise,
            frames_decoded: (self.frames_decoded + run.frames.len()) as u64,
        }
    }
}

/// What a stream header refuses.
pub open spec fn header_fault(header: StreamHeaderFields) -> Option<Error> {
    if 1 <= header.channels <= 2 {
        None
    } else {
        Some(Error::ChannelCountInvalid(header.channels))
    }
}

impl Sv8StreamDecoder {
    /// A decoder for the stream of a header. A stream of other than one or two channels
    /// is refused.
    pub fn from_header(header: &StreamHeaderFields) -> (r: Result<Self>)
        ensures
            match r {
                Ok(d) => header_fault(*header) is None && d@ == StreamMemory::fresh(*header),
                Err(e) => header_fault(*header) == Some(e),
            },
    {
        if header.channels < 1 || header.channels > 2 {
            return Err(Error::ChannelCountInvalid(header.channels));
        }
        Ok(
            Sv8StreamDecoder {
                max_band: header.max_band,
                stream_ms: header.mid_side,
                cns: CnsPrng::new(),
                frames_decoded: 0,
            },
        )
    }

    /// How many frames were decoded.
    #[must_use]
    pub fn frames_decoded(&self) -> (n: u64)
        ensures
            n == self@.frames_decoded,
    {
        self.frames_decoded
    }

    /// Decodes the first `frames` frames of an audio packet. The first is a key frame;
    /// nothing but the noise generator carries over from the packet before.
    pub fn decode_audio_packet(
        &mut self,
        tables: &Sv8TableSet,
        payload: &[u8],
        frames: u64,
    ) -> (r: Result<Vec<Sv8StereoFrameDecode>>)
        requires
            old(self)@.frames_decoded + frames <= u64::MAX || old(self)@.frames_decoded + 8
                * payload@.len() + 17 <= u64::MAX,
        ensures
            ({
                let run = old(self)@.reading(*tables, payload@, frames as nat);
                &&& final(self)@ == old(self)@.after(run)
                &&& match (run.result, r) {
                    (Ok(_), Ok(v)) => models(v@) == run.frames && v@.len() == frames,
                    (Err(e), Err(f)) => e == f,
                    _ => false,
                }
            }),
    {
        let ghost noise = self@.noise;
        let max_band: u8 = self.max_band;
        let stream_ms: bool = self.stream_ms;
        let ghost count = self@.frames_decoded;
        let mut padded: Vec<u8> = Vec::new();
        append_bytes(&mut padded, payload);
        padded.push(0);
        padded.push(0);
        assert(padded@ =~= payload@ + seq![0u8, 0u8]);
        let mut reader: Sv7BitReader<'_> = Sv7BitReader::new(padded.as_slice());
        let ghost bits = payload_bits(payload@);
        let ghost whole = packet_read(
            *tables,
            payload@,
            max_band,
            stream_ms,
            frames as nat,
            noise,
        );
        proof {
            progress::law_packet_frames_fit(
                *tables,
                payload@,
                max_band,
                stream_ms,
                frames as nat,
                noise,
            );
            lemma_run_grows(
                *tables,
                bits,
                max_band,
                stream_ms,
                frames as nat,
                Seq::empty(),
                0,
                FrameMemory::blank(),
                noise,
            );
        }
        let mut state: Sv8FrameState = Sv8FrameState::new();
        let mut out: Vec<Sv8StereoFrameDecode> = Vec::new();
        let mut i: u64 = 0;
        assert(models(out@) =~= Seq::<StereoFrame>::empty());
        while i < frames
            invariant
                i <= frames,
                out@.len() == i,
                reader@.bits == bits,
                old(self)@.frames_decoded == count,
                count + whole.frames.len() <= u64::MAX,
                self@.frames_decoded == count + i,
                self@.max_band == max_band,
                self@.stream_ms == stream_ms,
                old(self)@.max_band == max_band,
                old(self)@.stream_ms == stream_ms,
                whole == old(self)@.reading(*tables, payload@, frames as nat),
                whole == run_read(
                    *tables,
                    bits,
                    max_band,
                    stream_ms,
                    frames as nat,
                    models(out@),
                    reader@.pos,
                    state@,
                    self@.noise,
                ),
            decreases frames - i,
        {
            let mut cns: CnsPrng = self.cns;
            let decoded: Result<Sv8StereoFrameDecode> = decode_sv8_stereo_frame(
                tables,
                &mut reader,
                max_band,
                i == 0,
                stream_ms,
                &mut state,
                &mut cns,
            );
            self.cns = cns;
            match decoded {
                Ok(f) => {
                    let ghost shorter = models(out@);
                    out.push(f);
                    assert(models(out@) =~= shorter.push(f@));
                    proof {
                        lemma_run_grows(
                            *tables,
                            bits,
                            max_band,
                            stream_ms,
                            frames as nat,
                            models(out@),
                            reader@.pos,
                            state@,
                            self@.noise,
                        );
                    }
                    self.frames_decoded = self.frames_decoded + 1;
                },
                Err(e) => {
                    return Err(e);
                },
            }
            i = i + 1;
        }
        Ok(out)
    }
}

} // verus!
