//! Decoding a whole stream, up to the frames that the filterbank turns into samples.

use crate::error::{Error, Result};
use crate::framing;
use crate::framing::{parse_sv8_magic, Packet, PacketKey, PacketStream, SV8_MAGIC};
use crate::stream_headers;
use crate::stream_headers::StreamHeaderFields;
use crate::sv8_file_encode::ANALYSIS_SYNTHESIS_DELAY;
use crate::sv8_huffman::Sv8TableSet;
use crate::sv8_stereo_frame::{StereoFrame, Sv8StereoFrameDecode};
use crate::sv8_stream;
use crate::sv8_stream::{StreamMemory, Sv8StreamDecoder};
use vstd::prelude::*;

verus! {

/// A stream whose header was read.
#[verifier::ext_equal]
pub struct Opened {
    pub header: StreamHeaderFields,
    pub memory: StreamMemory,
    /// Frames that the header's totals still ask for.
    pub remaining: nat,
}

/// How far the walk over the packets of a stream has come.
#[verifier::ext_equal]
pub struct Walk {
    pub opened: Option<Opened>,
    pub audio_packets: nat,
    pub frames: Seq<StereoFrame>,
}

/// How many frames `samples` samples take.
pub open spec fn frames_for(samples: nat) -> nat {
    (samples + 1151) / 1152
}

impl Opened {
    /// How many frames the next audio packet has.
    pub open spec fn due(self) -> nat {
        let most = self.header.packet_frames();
        if self.remaining < most {
            self.remaining
        } else {
            most
        }
    }
}

impl Walk {
    /// Nothing was read yet.
    pub open spec fn start() -> Walk {
        Walk { opened: None, audio_packets: 0, frames: Seq::empty() }
    }

    /// A stream header was read.
    pub open spec fn headed(self, h: StreamHeaderFields) -> Walk {
        Walk {
            opened: Some(
                Opened {
                    header: h,
                    memory: StreamMemory::fresh(h),
                    remaining: frames_for((h.sample_count + h.beginning_silence) as nat),
                },
            ),
            audio_packets: self.audio_packets,
            frames: self.frames,
        }
    }

    /// An audio packet with `n` frames was read.
    pub open spec fn played(self, run: sv8_stream::RunRead, n: nat) -> Walk {
        let o = self.opened->0;
        Walk {
            opened: Some(
                Opened {
                    header: o.header,
                    memory: o.memory.after(run),
                    remaining: (o.remaining - n) as nat,
                },
            ),
            audio_packets: self.audio_packets + 1,
            frames: self.frames + run.frames,
        }
    }
}

/// The walk over the packets of `data`, from `w` on: the first stream header sets up the
/// decoder; each audio packet decodes as many frames as it has, but no more than the
/// totals ask for; other packets are skipped; the walk ends at the stream end.
pub open spec fn walk(tables: Sv8TableSet, data: Seq<u8>, w: Walk) -> Result<Walk>
    decreases data.len(),
{
    proof {
        framing::lemma_packet_extent(data);
    }
    match framing::packet_at(data) {
        Err(e) => Err(e),
        Ok(None) => Ok(w),
        Ok(Some(p)) => {
            let rest = data.skip(p.extent() as int);
            match p.key {
                PacketKey::StreamHeader => match stream_headers::header_of(p.payload) {
                    Err(e) => Err(e),
                    Ok(h) => match sv8_stream::header_fault(h) {
                        Some(e) => Err(e),
                        None => walk(tables, rest, w.headed(h)),
                    },
                },
                PacketKey::AudioPacket => match w.opened {
                    None => Err(Error::NotImplemented),
                    Some(o) => if o.due() == 0 {
                        walk(tables, rest, w)
                    } else {
                        let run = o.memory.reading(tables, p.payload, o.due());
                        match run.result {
                            Err(e) => Err(e),
                            Ok(_) => walk(tables, rest, w.played(run, o.due())),
                        }
                    },
                },
                PacketKey::StreamEnd => Ok(w),
                _ => walk(tables, rest, w),
            }
        },
    }
}

/// A decoded stream.
#[derive(Debug, Clone, PartialEq, Eq)]
pub struct Sv8DecodedStream {
    /// The stream header.
    pub header: StreamHeaderFields,
    /// Audio packets that were decoded.
    pub audio_packets: u64,
    /// Frames that were decoded.
    pub frames_decoded: u64,
    /// The frames, in stream order.
    pub frames: Vec<Sv8StereoFrameDecode>,
}

/// The samples of `frames` frames that are to be heard, counted per channel from the
/// first sample that the stream codes: those behind the silence, up to the sample count.
pub open spec fn audible(header: StreamHeaderFields, frames: nat) -> (nat, nat) {
    let len = 1152 * frames;
    let end = if header.sample_count < len {
        header.sample_count as nat
    } else {
        len
    };
    let start = if header.beginning_silence < end {
        header.beginning_silence as nat
    } else {
        end
    };
    (start, end)
}

impl Sv8DecodedStream {
    /// The first sample per channel that is to be heard, and the one behind the last. The
    /// filterbank's own delay is not counted.
    pub fn audible_window(&self) -> (w: (u64, u64))
        ensures
            w.0 == audible(self.header, self.frames@.len()).0,
            w.1 == audible(self.header, self.frames@.len()).1,
            w.0 <= w.1 <= self.header.sample_count,
    {
        let len: u128 = self.frames.len() as u128 * 1152;
        let end: u64 = if (self.header.sample_count as u128) < len {
            self.header.sample_count
        } else {
            len as u64
        };
        let start: u64 = if self.header.beginning_silence < end {
            self.header.beginning_silence
        } else {
            end
        };
        (start, end)
    }

    /// How many values the heard samples of all channels are.
    pub fn pcm_len(&self) -> (n: u128)
        ensures
            n == (audible(self.header, self.frames@.len()).1 - audible(
                self.header,
                self.frames@.len(),
            ).0) * self.header.channels,
    {
        let (start, end): (u64, u64) = self.audible_window();
        let span: u128 = (end - start) as u128;
        let channels: u128 = self.header.channels as u128;
        assert(span * channels <= 0xFFFF_FFFF_FFFF_FFFF * 255) by (nonlinear_arith)
            requires
                span <= 0xFFFF_FFFF_FFFF_FFFF,
                channels <= 255,
        ;
        span * channels
    }
}

/// Where samples to be heard stand among `len` interleaved samples of two channels, which come
/// out of the filterbanks with their delay.
pub open spec fn heard(window: (nat, nat), len: nat) -> (nat, nat) {
    let to = 2 * (window.1 + 481);
    let end = if to < len {
        to as nat
    } else {
        len
    };
    let from = 2 * (window.0 + 481);
    let start = if from < end {
        from as nat
    } else {
        end
    };
    (start, end)
}

/// Where the samples of a window stand among `len` interleaved samples of two channels, which
/// come out of the filterbanks with their delay: the first of them, and the one behind the last.
#[must_use]
pub fn heard_range(window: (u64, u64), len: usize) -> (r: (usize, usize))
    ensures
        (r.0 as nat, r.1 as nat) == heard((window.0 as nat, window.1 as nat), len as nat),
        r.0 <= r.1 <= len,
{
    let to: u128 = 2 * (window.1 as u128 + ANALYSIS_SYNTHESIS_DELAY as u128);
    let end: usize = if to < len as u128 { to as usize } else { len };
    let from: u128 = 2 * (window.0 as u128 + ANALYSIS_SYNTHESIS_DELAY as u128);
    let start: usize = if from < end as u128 { from as usize } else { end };
    (start, end)
}

/// Decodes a whole stream. It has to start with the magic and to have a stream header
/// before its first audio packet.
pub fn decode_sv8_stream(tables: &Sv8TableSet, input: &[u8]) -> (r: Result<Sv8DecodedStream>)
    ensures
        ({
            let magic = input@.len() >= 4 && input@.take(4) == SV8_MAGIC@;
            if !magic {
                r == Err::<Sv8DecodedStream, Error>(Error::InvalidMagic)
            } else {
                match (walk(*tables, input@.skip(4), Walk::start()), r) {
                    (Err(e), Err(f)) => e == f,
                    (Ok(w), Err(f)) => w.opened is None && f == Error::NotImplemented,
                    (Ok(w), Ok(s)) => {
                        &&& w.opened is Some
                        &&& s.header == w.opened->0.header
                        &&& s.frames_decoded == w.opened->0.memory.frames_decoded
                        &&& s.audio_packets == w.audio_packets
                        &&& sv8_stream::models(s.frames@) == w.frames
                    },
                    _ => false,
                }
            }
        }),
{
    let start: usize = parse_sv8_magic(input)?;
    let mut stream: PacketStream<'_> = PacketStream::starting_at(input, start);
    let ghost whole = walk(*tables, input@.skip(4), Walk::start());
    let mut header: Option<StreamHeaderFields> = None;
    let mut decoder: Option<Sv8StreamDecoder> = None;
    let mut remaining: u64 = 0;
    let mut per_packet: u64 = 0;
    let mut audio_packets: u64 = 0;
    let mut frames: Vec<Sv8StereoFrameDecode> = Vec::new();
    let ghost mut w = Walk::start();
    assert(input.len() == input@.len());
    assert(sv8_stream::models(frames@) =~= Seq::<StereoFrame>::empty());
    loop
        invariant_except_break
            whole == walk(*tables, stream@, w),
        invariant
            input@.len() >= 4,
            input@.take(4) == SV8_MAGIC@,
            whole == walk(*tables, input@.skip(4), Walk::start()),
            header is Some == w.opened is Some,
            decoder is Some == w.opened is Some,
            w.opened is Some ==> {
                &&& header == Some(w.opened->0.header)
                &&& decoder->0@ == w.opened->0.memory
                &&& remaining == w.opened->0.remaining
                &&& header->0.wf()
                &&& per_packet == header->0.packet_frames()
                &&& decoder->0@.frames_decoded + remaining <= 0x4000_0000_0000_0000
            },
            audio_packets == w.audio_packets,
            audio_packets + stream@.len() <= usize::MAX,
            sv8_stream::models(frames@) == w.frames,
        ensures
            whole == Ok::<Walk, Error>(w),
        decreases stream@.len(),
    {
        let ghost rest = stream@;
        let packet: Packet<'_> = match stream.next_packet() {
            Ok(Some(p)) => p,
            Ok(None) => {
                break ;
            },
            Err(e) => {
                return Err(e);
            },
        };
        match packet.key {
            PacketKey::StreamHeader => {
                let fields: StreamHeaderFields = StreamHeaderFields::parse(packet.payload)?;
                let fresh: Sv8StreamDecoder = Sv8StreamDecoder::from_header(&fields)?;
                decoder = Some(fresh);
                per_packet = fields.frames_per_audio_packet();
                let samples: u64 = fields.sample_count + fields.beginning_silence;
                remaining = samples / 1152 + if samples % 1152 > 0 { 1 } else { 0 };
                header = Some(fields);
                proof {
                    w = w.headed(fields);
                }
            },
            PacketKey::AudioPacket => {
                let mut dec: Sv8StreamDecoder = match decoder {
                    Some(d) => d,
                    None => {
                        return Err(Error::NotImplemented);
                    },
                };
                let n: u64 = if remaining < per_packet { remaining } else { per_packet };
                if n == 0 {
                    decoder = Some(dec);
                } else {
                    let ghost run = dec@.reading(*tables, packet.payload@, n as nat);
                    let decoded: Result<Vec<Sv8StereoFrameDecode>> = dec.decode_audio_packet(
                        tables,
                        packet.payload,
                        n,
                    );
                    decoder = Some(dec);
                    let mut more: Vec<Sv8StereoFrameDecode> = match decoded {
                        Ok(v) => v,
                        Err(e) => {
                            return Err(e);
                        },
                    };
                    let ghost before = frames@;
                    let ghost added = more@;
                    frames.append(&mut more);
                    assert(sv8_stream::models(frames@) =~= sv8_stream::models(before)
                        + sv8_stream::models(added));
                    remaining = remaining - n;
                    audio_packets = audio_packets + 1;
                    proof {
                        w = w.played(run, n as nat);
                    }
                }
            },
            PacketKey::StreamEnd => {
                break ;
            },
            _ => {},
        }
    }
    let header: StreamHeaderFields = match header {
        Some(h) => h,
        None => {
            return Err(Error::NotImplemented);
        },
    };
    let decoder: Sv8StreamDecoder = match decoder {
        Some(d) => d,
        None => {
            return Err(Error::NotImplemented);
        },
    };
    Ok(
        Sv8DecodedStream {
            header,
            audio_packets,
            frames_decoded: decoder.frames_decoded(),
            frames,
        },
    )
}

} // verus!
