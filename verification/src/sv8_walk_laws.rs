//! What a walk over a stream does: the frames of packets, what each packet adds, and which
//! samples are to be heard.

use crate::bits;
use crate::cns::CnsPrng;
use crate::error::Error;
use crate::framing;
use crate::stream_headers;
use crate::stream_headers::StreamHeaderFields;
use crate::sv8_decode;
use crate::sv8_decode::Walk;
use crate::sv8_file_encode;
use crate::sv8_file_encode::Sv8StreamSettings;
use crate::sv8_huffman::Sv8TableSet;
use crate::sv8_seek;
use crate::sv8_seek::SeekTable;
use crate::sv8_seek_index;
use crate::sv8_stereo_frame;
use crate::sv8_stereo_frame::{FrameMemory, StereoFrame};
use crate::sv8_stream;
use vstd::arithmetic::power2::*;
use vstd::prelude::*;

verus! {

// ---------------------------------------------------------------------------
// Packets
// ---------------------------------------------------------------------------

/// The frames are read in a row: each from its start, with its memory and its generator, and
/// the next ones are those that it leaves. The first is a key frame, and no other.
pub open spec fn frames_in_row(
    tables: Sv8TableSet,
    bits: Seq<bool>,
    max_band: u8,
    stream_ms: bool,
    frames: Seq<StereoFrame>,
    starts: Seq<nat>,
    memories: Seq<FrameMemory>,
    noises: Seq<CnsPrng>,
) -> bool {
    &&& starts.len() == frames.len() + 1
    &&& memories.len() == frames.len() + 1
    &&& noises.len() == frames.len() + 1
    &&& forall|i: int|
        0 <= i < frames.len() ==> {
            let read = sv8_stereo_frame::frame_read(
                tables,
                bits,
                starts[i],
                max_band,
                i == 0,
                stream_ms,
                memories[i],
                noises[i],
            );
            &&& read.result == Ok::<StereoFrame, Error>(#[trigger] frames[i])
            &&& starts[i + 1] == read.pos
            &&& memories[i + 1] == read.memory
            &&& noises[i + 1] == read.noise
        }
}

/// An audio packet is frames in a row, from its first bit on. The first is a key frame and
/// remembers nothing; each other goes on from what the one before left. The noise generator
/// goes on from packet to packet. Where a frame fails, those before it are what was read. The
/// starts, the memories and the generators are returned.
pub proof fn law_packet_frames(
    tables: Sv8TableSet,
    payload: Seq<u8>,
    max_band: u8,
    stream_ms: bool,
    n: nat,
    noise: CnsPrng,
    ch: int,
    b: int,
) -> (walk: (Seq<nat>, Seq<FrameMemory>, Seq<CnsPrng>))
    ensures
        ({
            let run = sv8_stream::packet_read(tables, payload, max_band, stream_ms, n, noise);
            let bits = sv8_stream::payload_bits(payload);
            let m = run.frames.len() as int;
            let (starts, memories, noises) = walk;
            &&& m <= n
            &&& frames_in_row(
                tables,
                bits,
                max_band,
                stream_ms,
                run.frames,
                starts,
                memories,
                noises,
            )
            &&& starts[0] == 0
            &&& memories[0].last_nbands == 0
            &&& (memories[0].scf)(ch, b) is None
            &&& noises[0] == noise
            &&& m == n ==> run.result is Ok && run.pos == starts[m] && run.noise == noises[m]
            &&& m < n ==> {
                let read = sv8_stereo_frame::frame_read(
                    tables,
                    bits,
                    starts[m],
                    max_band,
                    m == 0,
                    stream_ms,
                    memories[m],
                    noises[m],
                );
                &&& read.result is Err
                &&& run.result == Err::<(), Error>(read.result->Err_0)
                &&& run.noise == read.noise
            }
        }),
{
    let bits = sv8_stream::payload_bits(payload);
    let blank = FrameMemory::blank();
    let s = seq![0nat];
    let m = seq![blank];
    let c = seq![noise];
    assert(s.last() == 0 && m.last() == blank && c.last() == noise);
    assert(s[0] == 0 && m[0] == blank && c[0] == noise);
    let walk = lemma_run_from(tables, bits, max_band, stream_ms, n, Seq::empty(), s, m, c);
    assert((blank.scf)(ch, b) is None);
    assert(walk.1[0] == blank && walk.1[0].scf == blank.scf);
    walk
}

proof fn lemma_run_from(
    tables: Sv8TableSet,
    bits: Seq<bool>,
    max_band: u8,
    stream_ms: bool,
    n: nat,
    done: Seq<StereoFrame>,
    s: Seq<nat>,
    m: Seq<FrameMemory>,
    c: Seq<CnsPrng>,
) -> (walk: (Seq<nat>, Seq<FrameMemory>, Seq<CnsPrng>))
    requires
        done.len() <= n,
        frames_in_row(tables, bits, max_band, stream_ms, done, s, m, c),
    ensures
        ({
            let run = sv8_stream::run_read(
                tables,
                bits,
                max_band,
                stream_ms,
                n,
                done,
                s.last(),
                m.last(),
                c.last(),
            );
            let k = run.frames.len() as int;
            let (starts, memories, noises) = walk;
            &&& k <= n
            &&& frames_in_row(
                tables,
                bits,
                max_band,
                stream_ms,
                run.frames,
                starts,
                memories,
                noises,
            )
            &&& starts[0] == s[0]
            &&& memories[0] == m[0]
            &&& noises[0] == c[0]
            &&& k == n ==> run.result is Ok && run.pos == starts[k] && run.noise == noises[k]
            &&& k < n ==> {
                let read = sv8_stereo_frame::frame_read(
                    tables,
                    bits,
                    starts[k],
                    max_band,
                    k == 0,
                    stream_ms,
                    memories[k],
                    noises[k],
                );
                &&& read.result is Err
                &&& run.result == Err::<(), Error>(read.result->Err_0)
                &&& run.noise == read.noise
            }
        }),
    decreases n - done.len(),
{
    let read = sv8_stereo_frame::frame_read(
        tables,
        bits,
        s.last(),
        max_band,
        done.len() == 0,
        stream_ms,
        m.last(),
        c.last(),
    );
    if done.len() < n && read.result is Ok {
        let more = done.push(read.result->Ok_0);
        let s2 = s.push(read.pos);
        let m2 = m.push(read.memory);
        let c2 = c.push(read.noise);
        assert forall|i: int| 0 <= i < more.len() implies {
            let read = sv8_stereo_frame::frame_read(
                tables,
                bits,
                s2[i],
                max_band,
                i == 0,
                stream_ms,
                m2[i],
                c2[i],
            );
            &&& read.result == Ok::<StereoFrame, Error>(#[trigger] more[i])
            &&& s2[i + 1] == read.pos
            &&& m2[i + 1] == read.memory
            &&& c2[i + 1] == read.noise
        } by {
            if i < done.len() {
                assert(more[i] == done[i]);
            }
        }
        lemma_run_from(tables, bits, max_band, stream_ms, n, more, s2, m2, c2)
    } else {
        (s, m, c)
    }
}

// ---------------------------------------------------------------------------
// Streams
// ---------------------------------------------------------------------------

/// Samples take as few frames of 1152 as hold them.
pub proof fn law_frames_hold_samples(samples: nat)
    ensures
        samples <= 1152 * sv8_decode::frames_for(samples) < samples + 1152,
{
}

/// A stream header starts the decoder of a stream: its highest band and mid/side flag, a noise
/// generator with both registers one, and as many frames to come as hold its samples and its
/// silence. What was read before it stays. A header with no channels or more than two is
/// refused.
pub proof fn law_walk_header(tables: Sv8TableSet, data: Seq<u8>, w: Walk)
    requires
        framing::packet_at(data) is Ok,
        data.len() > 1,
        data[0] == 'S' as u8,
        data[1] == 'H' as u8,
        stream_headers::header_of(framing::packet_at(data)->Ok_0->0.payload) is Ok,
    ensures
        ({
            let p = framing::packet_at(data)->Ok_0->0;
            let h = stream_headers::header_of(p.payload)->Ok_0;
            let rest = data.skip(p.extent() as int);
            let next = w.headed(h);
            let o = next.opened->0;
            &&& !(1 <= h.channels <= 2) ==> sv8_decode::walk(tables, data, w) == Err::<Walk, Error>(
                Error::ChannelCountInvalid(h.channels),
            )
            &&& 1 <= h.channels <= 2 ==> sv8_decode::walk(tables, data, w) == sv8_decode::walk(
                tables,
                rest,
                next,
            )
            &&& next.frames == w.frames
            &&& next.audio_packets == w.audio_packets
            &&& next.opened is Some
            &&& o.header == h
            &&& o.memory.max_band == h.max_band
            &&& o.memory.stream_ms == h.mid_side
            &&& o.memory.noise.down == 1 && o.memory.noise.up == 1
            &&& o.memory.frames_decoded == 0
            &&& h.sample_count + h.beginning_silence <= 1152 * o.remaining < h.sample_count
                + h.beginning_silence + 1152
        }),
{
    reveal(framing::packet_at);
    framing::lemma_packet_extent(data);
}

/// An audio packet behind a stream header adds its frames: four to the block power, or those
/// that are still to come where they are fewer. The noise generator goes on. A packet behind
/// the last frame adds nothing, and one before any header is refused.
pub proof fn law_walk_audio(tables: Sv8TableSet, data: Seq<u8>, w: Walk)
    requires
        framing::packet_at(data) is Ok,
        data.len() > 1,
        data[0] == 'A' as u8,
        data[1] == 'P' as u8,
    ensures
        ({
            let p = framing::packet_at(data)->Ok_0->0;
            let rest = data.skip(p.extent() as int);
            let o = w.opened->0;
            let most = pow2((2 * o.header.block_power) as nat);
            let n = if o.remaining < most {
                o.remaining
            } else {
                most
            };
            let run = sv8_stream::packet_read(
                tables,
                p.payload,
                o.memory.max_band,
                o.memory.stream_ms,
                n,
                o.memory.noise,
            );
            let next = w.played(run, n);
            &&& w.opened is None ==> sv8_decode::walk(tables, data, w) == Err::<Walk, Error>(
                Error::NotImplemented,
            )
            &&& w.opened is Some && o.remaining == 0 ==> sv8_decode::walk(tables, data, w)
                == sv8_decode::walk(tables, rest, w)
            &&& w.opened is Some && o.remaining > 0 && run.result is Err ==> sv8_decode::walk(
                tables,
                data,
                w,
            ) == Err::<Walk, Error>(run.result->Err_0)
            &&& w.opened is Some && o.remaining > 0 && run.result is Ok ==> sv8_decode::walk(
                tables,
                data,
                w,
            ) == sv8_decode::walk(tables, rest, next)
            &&& next.frames == w.frames + run.frames
            &&& next.audio_packets == w.audio_packets + 1
            &&& next.opened is Some
            &&& next.opened->0.header == o.header
            &&& next.opened->0.remaining == o.remaining - n
            &&& next.opened->0.memory.noise == run.noise
            &&& next.opened->0.memory.max_band == o.memory.max_band
            &&& next.opened->0.memory.stream_ms == o.memory.stream_ms
        }),
{
    reveal(framing::packet_at);
    framing::lemma_packet_extent(data);
    let o = w.opened->0;
    crate::header_laws::law_frames_of_power(o.header.block_power as nat);
    lemma_pow2_pos((2 * o.header.block_power) as nat);
}

/// The walk ends at the stream end and at the end of the data. Packets of other letters are
/// passed over.
pub proof fn law_walk_others(tables: Sv8TableSet, data: Seq<u8>, w: Walk)
    requires
        framing::packet_at(data) is Ok,
    ensures
        data.len() == 0 ==> sv8_decode::walk(tables, data, w) == Ok::<Walk, Error>(w),
        data.len() > 0 && data[0] == 'S' as u8 && data[1] == 'E' as u8 ==> sv8_decode::walk(
            tables,
            data,
            w,
        ) == Ok::<Walk, Error>(w),
        data.len() > 0 && !(data[0] == 'S' as u8 && (data[1] == 'E' as u8 || data[1] == 'H' as u8))
            && !(data[0] == 'A' as u8 && data[1] == 'P' as u8) ==> sv8_decode::walk(
            tables,
            data,
            w,
        ) == sv8_decode::walk(
            tables,
            data.skip(framing::packet_at(data)->Ok_0->0.extent() as int),
            w,
        ),
{
    reveal(framing::packet_at);
    if data.len() > 0 {
        framing::lemma_packet_extent(data);
    }
}

/// A sample is to be heard where it lies behind the silence, before the sample count, and in
/// the frames that there are.
pub proof fn law_audible(header: StreamHeaderFields, frames: nat, s: nat)
    ensures
        ({
            let (from, to) = sv8_decode::audible(header, frames);
            &&& from <= to
            &&& from <= s < to <==> header.beginning_silence <= s < header.sample_count && s < 1152
                * frames
        }),
{
}

/// A sample is heard where its number per channel, less the delay of 481 samples of the
/// filterbanks, lies in the window, and there is such a sample.
pub proof fn law_heard(window: (nat, nat), len: nat, x: nat)
    requires
        window.0 <= window.1,
    ensures
        ({
            let (from, to) = sv8_decode::heard(window, len);
            &&& from <= to <= len
            &&& from <= x < to <==> x < len && window.0 + 481 <= x / 2 < window.1 + 481
        }),
{
}

// ---------------------------------------------------------------------------
// Writing
// ---------------------------------------------------------------------------

/// A written packet has four to the block power frames, or those that are left.
pub proof fn law_packet_end(from: int, len: int, s: Sv8StreamSettings)
    requires
        0 <= from <= len,
    ensures
        ({
            let to = sv8_file_encode::packet_end(from, len, s);
            let most = pow2((2 * s.block_power) as nat);
            &&& from <= to <= len
            &&& to - from <= most
            &&& to < len ==> to - from == most
        }),
{
    crate::header_laws::law_frames_of_power(s.block_power as nat);
}

/// A written seek table has an entry for every second audio packet, from the first on, and
/// says so.
pub proof fn law_table_for(offsets: Seq<u64>, i: int)
    ensures
        ({
            let t = sv8_file_encode::table_for(offsets);
            &&& pow2(t.seek_pwr_delta as nat) == 2
            &&& 2 * t.entries.len() == offsets.len() || 2 * t.entries.len() == offsets.len() + 1
            &&& 0 <= i < t.entries.len() ==> t.entries[i] == offsets[2 * i]
        }),
{
    lemma2_to64();
}

// ---------------------------------------------------------------------------
// Seeking
// ---------------------------------------------------------------------------

/// As many entries are needed as reach over the samples at their distance, and one more.
pub proof fn law_needed_entries(samples: nat, power: nat)
    ensures
        ({
            let n = sv8_seek_index::needed(samples, power) as int;
            let distance = 1152 * pow2(power) as int;
            &&& n >= 2
            &&& (n - 2) * distance <= samples < (n - 1) * distance
        }),
{
    lemma_pow2_pos(power);
    let d = 1152 * pow2(power) as int;
    let q = samples as int / d;
    vstd::arithmetic::div_mod::lemma_fundamental_div_mod(samples as int, d);
    vstd::arithmetic::div_mod::lemma_mod_bound(samples as int, d);
    assert(q >= 0) by {
        vstd::arithmetic::div_mod::lemma_div_pos_is_pos(samples as int, d);
    }
    vstd::arithmetic::mul::lemma_mul_is_commutative(q, d);
    assert((q + 1) * d == q * d + d) by (nonlinear_arith);
}

/// The distance of the entries doubles no more often than the ceiling asks for.
pub proof fn law_fewest_doublings(samples: nat, power: nat, ceiling: nat, k: nat)
    requires
        k < sv8_seek_index::doublings(samples, power, ceiling, 0),
    ensures
        sv8_seek_index::needed(samples, power + k) > ceiling,
{
    lemma_doublings_from(samples, power, ceiling, 0, k);
}

proof fn lemma_doublings_from(samples: nat, power: nat, ceiling: nat, d: nat, k: nat)
    requires
        d <= k < sv8_seek_index::doublings(samples, power, ceiling, d),
    ensures
        sv8_seek_index::needed(samples, power + k) > ceiling,
    decreases k - d,
{
    if d < k {
        lemma_doublings_from(samples, power, ceiling, d + 1, k);
    }
}

/// What was decoded before stays in front of what follows.
proof fn lemma_frames_follow(
    tables: Sv8TableSet,
    data: Seq<u8>,
    per_packet: nat,
    first: bool,
    memory: sv8_stream::StreamMemory,
    remaining: nat,
    done: Seq<StereoFrame>,
)
    ensures
        ({
            let r = sv8_seek_index::frames_from(
                tables,
                data,
                per_packet,
                first,
                memory,
                remaining,
                done,
            );
            r is Ok ==> done.is_prefix_of(r->Ok_0)
        }),
    decreases data.len(),
{
    framing::lemma_packet_extent(data);
    match framing::packet_at(data) {
        Ok(Some(p)) => {
            let rest = data.skip(p.extent() as int);
            if p.key is AudioPacket {
                let n = if remaining < per_packet {
                    remaining
                } else {
                    per_packet
                };
                if n == 0 {
                    lemma_frames_follow(tables, rest, per_packet, false, memory, remaining, done);
                } else {
                    let run = memory.reading(tables, p.payload, n);
                    if run.result is Ok {
                        let more = done + run.frames;
                        lemma_frames_follow(
                            tables,
                            rest,
                            per_packet,
                            false,
                            memory.after(run),
                            (remaining - n) as nat,
                            more,
                        );
                        let r = sv8_seek_index::frames_from(
                            tables,
                            data,
                            per_packet,
                            first,
                            memory,
                            remaining,
                            done,
                        );
                        if r is Ok {
                            assert(r->Ok_0.subrange(0, done.len() as int) =~= done) by {
                                assert(r->Ok_0.subrange(0, more.len() as int) =~= more);
                                assert forall|i: int| 0 <= i < done.len() implies r->Ok_0[i]
                                    == done[i] by {
                                    assert(more[i] == done[i]);
                                    assert(r->Ok_0.subrange(0, more.len() as int)[i] == more[i]);
                                }
                            }
                        }
                    }
                }
            } else if !(p.key is StreamEnd) && !first {
                lemma_frames_follow(tables, rest, per_packet, false, memory, remaining, done);
            }
        },
        _ => {},
    }
}

/// Decoding from an entry starts at the entry's byte, at an audio packet, with the decoder of a
/// fresh stream. The number of its first frame is that of the entry, times the packets per
/// entry and the frames per packet. The packet has four to the block power frames, or those
/// that the sample count leaves, and they come first.
pub proof fn law_from_entry(
    tables: Sv8TableSet,
    input: Seq<u8>,
    index: sv8_seek_index::SeekIndex,
    entry: nat,
)
    requires
        sv8_seek_index::decode_from(tables, input, index, entry) is Ok,
    ensures
        ({
            let (first, frames) = sv8_seek_index::decode_from(tables, input, index, entry)->Ok_0;
            let at = index.positions[entry as int];
            let header = sv8_seek_index::first_header(input.skip(4));
            let h = header->Ok_0->0;
            let data = input.skip(at as int);
            let packet = framing::packet_at(data);
            let total = sv8_decode::frames_for(h.sample_count as nat);
            let most = pow2((2 * h.block_power) as nat);
            let left = if total > first {
                (total - first) as nat
            } else {
                0
            };
            let n = if left < most {
                left
            } else {
                most
            };
            let run = sv8_stream::packet_read(
                tables,
                packet->Ok_0->0.payload,
                h.max_band,
                h.mid_side,
                n,
                CnsPrng { down: 1, up: 1 },
            );
            &&& input[0] == 'M' as u8 && input[1] == 'P' as u8 && input[2] == 'C' as u8 && input[3]
                == 'K' as u8
            &&& entry < index.positions.len()
            &&& first == entry * (index.packets_per_entry * index.frames_per_packet)
            &&& at < input.len()
            &&& header matches Ok(Some(_))
            &&& 1 <= h.channels <= 2
            &&& packet matches Ok(Some(_))
            &&& data[0] == 'A' as u8 && data[1] == 'P' as u8
            &&& n > 0 ==> run.result is Ok && run.frames.is_prefix_of(frames)
        }),
{
    let (first, frames) = sv8_seek_index::decode_from(tables, input, index, entry)->Ok_0;
    let at = index.positions[entry as int];
    let h = sv8_seek_index::first_header(input.skip(4))->Ok_0->0;
    let data = input.skip(at as int);
    crate::header_laws::law_frames_of_power(h.block_power as nat);
    let magic = framing::SV8_MAGIC@;
    assert(input.take(4)[0] == magic[0] && input.take(4)[1] == magic[1] && input.take(4)[2]
        == magic[2] && input.take(4)[3] == magic[3]);
    let total = sv8_decode::frames_for(h.sample_count as nat);
    let left = if total > first {
        (total - first) as nat
    } else {
        0
    };
    let per = h.packet_frames();
    let n = if left < per {
        left
    } else {
        per
    };
    let fresh = sv8_stream::StreamMemory::fresh(h);
    reveal(framing::packet_at);
    framing::lemma_packet_extent(data);
    let p = framing::packet_at(data)->Ok_0->0;
    let rest = data.skip(p.extent() as int);
    let none = Seq::<StereoFrame>::empty();
    if n > 0 {
        let run = fresh.reading(tables, p.payload, n);
        assert(none + run.frames =~= run.frames);
        lemma_frames_follow(
            tables,
            rest,
            per,
            false,
            fresh.after(run),
            (left - n) as nat,
            run.frames,
        );
    }
}

/// The frames of a packet are read from its payload, with sixteen clear bits behind it to look
/// ahead into.
pub proof fn law_payload_bits(payload: Seq<u8>, i: int)
    ensures
        sv8_stream::payload_bits(payload).len() == 8 * payload.len() + 16,
        0 <= i < 8 * payload.len() ==> sv8_stream::payload_bits(payload)[i] == bits::of_bytes(
            payload,
        )[i],
        8 * payload.len() <= i < 8 * payload.len() + 16 ==> !sv8_stream::payload_bits(payload)[i],
{
    let tail = seq![0u8, 0u8];
    bits::lemma_of_bytes_concat(payload, tail);
    let j = i - 8 * payload.len();
    if 0 <= j < 16 {
        bits::lemma_field_zero(8);
        assert(tail[j / 8] == 0);
        assert(bits::of_bytes(tail)[j] == bits::field(0, 8)[j % 8]);
    }
}

/// An index by walking has the byte at which each audio packet starts, in their order, and the
/// frames per packet of the stream header. It ends at the stream end.
pub proof fn law_index_walks(data: Seq<u8>, at: nat, done: Seq<u64>, frames: nat)
    requires
        data.len() > 1,
        framing::packet_at(data) is Ok,
    ensures
        ({
            let p = framing::packet_at(data)->Ok_0->0;
            let rest = data.skip(p.extent() as int);
            let next = at + p.extent();
            let index = sv8_seek_index::positions_of(data, at, done, frames);
            let (a, b) = (data[0], data[1]);
            let header = stream_headers::header_of(p.payload);
            &&& a == 'A' as u8 && b == 'P' as u8 ==> index == sv8_seek_index::positions_of(
                rest,
                next,
                done.push(at as u64),
                frames,
            )
            &&& a == 'S' as u8 && b == 'H' as u8 && header is Ok ==> index
                == sv8_seek_index::positions_of(
                rest,
                next,
                done,
                pow2((2 * header->Ok_0.block_power) as nat),
            )
            &&& a == 'S' as u8 && b == 'E' as u8 ==> index is Ok && index->Ok_0.positions == done
                && index->Ok_0.packets_per_entry == 1 && index->Ok_0.frames_per_packet == frames
            &&& !(a == 'A' as u8 && b == 'P' as u8) && !(a == 'S' as u8 && (b == 'H' as u8 || b
                == 'E' as u8)) ==> index == sv8_seek_index::positions_of(rest, next, done, frames)
        }),
{
    reveal(framing::packet_at);
    framing::lemma_packet_extent(data);
    let h = stream_headers::header_of(framing::packet_at(data)->Ok_0->0.payload)->Ok_0;
    crate::header_laws::law_frames_of_power(h.block_power as nat);
}

/// A stored seek table stands as many bytes behind the packet of the seek offset as the offset
/// says, in a packet of its own letters.
pub proof fn law_table_stands(body: Seq<u8>, at: nat, offset: u64)
    requires
        sv8_seek_index::table_at(body, at, offset) is Ok,
    ensures
        at + offset < body.len(),
        ({
            let data = body.skip(at + offset);
            let p = framing::packet_at(data);
            &&& p matches Ok(Some(_))
            &&& data[0] == 'S' as u8 && data[1] == 'T' as u8
            &&& sv8_seek::table_of(p->Ok_0->0.payload) == sv8_seek_index::table_at(body, at, offset)
        }),
{
    reveal(framing::packet_at);
}

/// The packets before the audio are walked for the stream header and the seek offset: the last
/// header before it counts, and the offset is counted from the start of its own packet.
pub proof fn law_prefix_walks(data: Seq<u8>, at: nat, header: Option<StreamHeaderFields>)
    requires
        data.len() > 1,
        framing::packet_at(data) is Ok,
    ensures
        ({
            let p = framing::packet_at(data)->Ok_0->0;
            let rest = data.skip(p.extent() as int);
            let next = at + p.extent();
            let prefix = sv8_seek_index::prefix_of(data, at, header);
            let (a, b) = (data[0], data[1]);
            let h = stream_headers::header_of(p.payload);
            let v = framing::varint_at(p.payload);
            &&& a == 'S' as u8 && b == 'H' as u8 && h is Ok ==> prefix == sv8_seek_index::prefix_of(
                rest,
                next,
                Some(h->Ok_0),
            )
            &&& a == 'S' as u8 && b == 'O' as u8 && v is Ok ==> prefix is Ok && prefix->Ok_0.header
                == header && prefix->Ok_0.offset == Some((at, v->Ok_0.0))
            &&& a == 'A' as u8 && b == 'P' as u8 || a == 'S' as u8 && b == 'E' as u8
                ==> prefix is Ok && prefix->Ok_0.header == header && prefix->Ok_0.offset is None
            &&& !(a == 'A' as u8 && b == 'P' as u8) && !(a == 'S' as u8 && (b == 'H' as u8 || b
                == 'O' as u8 || b == 'E' as u8)) ==> prefix == sv8_seek_index::prefix_of(
                rest,
                next,
                header,
            )
        }),
{
    reveal(framing::packet_at);
    framing::lemma_packet_extent(data);
}

/// The index that a seek table makes without a stream header has all its entries, and the
/// distance that the table names.
pub proof fn law_plain_index(table: SeekTable, ceiling: nat)
    ensures
        ({
            let index = sv8_seek_index::index_of(table, None, ceiling);
            &&& index.positions == table.entries
            &&& index.packets_per_entry == pow2(table.seek_pwr_delta as nat)
            &&& index.frames_per_packet == 0
        }),
{
}

/// The index that a seek table makes with a stream header has every entry at the doubled
/// distance, from the first on, up to those that reach over the samples. How often the distance
/// doubles is returned.
pub proof fn law_index_of(table: SeekTable, h: StreamHeaderFields, ceiling: nat) -> (d: nat)
    ensures
        ({
            let index = sv8_seek_index::index_of(table, Some(h), ceiling);
            let n = index.positions.len() as int;
            let power = (2 * h.block_power + table.seek_pwr_delta) as nat;
            let stride = pow2(d) as int;
            let most = sv8_seek_index::needed(h.sample_count as nat, power + d) as int;
            &&& index.packets_per_entry == pow2(table.seek_pwr_delta as nat + d)
            &&& index.frames_per_packet == pow2((2 * h.block_power) as nat)
            &&& n <= most
            &&& n == most || n * stride >= table.entries.len()
            &&& forall|i: int|
                0 <= i < n ==> #[trigger] index.positions[i] == table.entries[i * stride] && i
                    * stride < table.entries.len()
            &&& forall|k: nat|
                k < d ==> #[trigger] sv8_seek_index::needed(h.sample_count as nat, power + k) > 2
                    && sv8_seek_index::needed(h.sample_count as nat, power + k) > ceiling
        }),
{
    let samples = h.sample_count as nat;
    let power = (2 * h.block_power + table.seek_pwr_delta) as nat;
    let cap = if ceiling < 2 {
        2
    } else {
        ceiling
    };
    let d = sv8_seek_index::doublings(samples, power, cap, 0);
    let stride = pow2(d) as int;
    let most = sv8_seek_index::needed(samples, power + d) as int;
    let index = sv8_seek_index::index_of(table, Some(h), ceiling);
    let entries = table.entries;
    let kept = if entries.len() > most * stride {
        entries.take(most * stride)
    } else {
        entries
    };
    lemma_pow2_pos(d);
    vstd::arithmetic::power2::lemma_pow2_adds(table.seek_pwr_delta as nat, d);
    crate::header_laws::law_frames_of_power(h.block_power as nat);
    assert(index.positions == sv8_seek_index::strided(kept, pow2(d)));
    let n = index.positions.len() as int;
    let m = kept.len() + stride - 1;
    vstd::arithmetic::div_mod::lemma_fundamental_div_mod(m, stride);
    vstd::arithmetic::div_mod::lemma_mod_bound(m, stride);
    assert(n == m / stride);
    assert(most >= 0 && most * stride >= 0) by {
        law_needed_entries(samples, power + d);
        vstd::arithmetic::mul::lemma_mul_nonnegative(most, stride);
    }
    assert(n * stride >= kept.len() && (n - 1) * stride < kept.len()) by (nonlinear_arith)
        requires
            m == stride * n + m % stride,
            0 <= m % stride < stride,
            m == kept.len() + stride - 1,
            stride > 0,
    ;
    assert(n <= most) by (nonlinear_arith)
        requires
            (n - 1) * stride < kept.len(),
            kept.len() <= most * stride,
            stride > 0,
    ;
    if entries.len() > most * stride {
        assert(n >= most) by (nonlinear_arith)
            requires
                n * stride >= kept.len(),
                kept.len() == most * stride,
                stride > 0,
        ;
    }
    assert forall|i: int| 0 <= i < n implies #[trigger] index.positions[i] == entries[i * stride]
        && i * stride < entries.len() by {
        assert(0 <= i * stride <= (n - 1) * stride) by (nonlinear_arith)
            requires
                0 <= i <= n - 1,
                stride > 0,
        ;
        assert(index.positions[i] == kept[i * stride]);
    }
    assert forall|k: nat| k < d implies #[trigger] sv8_seek_index::needed(samples, power + k) > 2
        && sv8_seek_index::needed(samples, power + k) > ceiling by {
        law_fewest_doublings(samples, power, cap, k);
    }
    d
}

/// An index is read only behind the four letters of a stream, and counts from the start of it.
pub proof fn law_index_magic(input: Seq<u8>, ceiling: nat)
    ensures
        input.len() >= 4 && input[0] == 'M' as u8 && input[1] == 'P' as u8 && input[2] == 'C' as u8
            && input[3] == 'K' as u8 ==> sv8_seek_index::walked_index(input)
            == sv8_seek_index::positions_of(input.skip(4), 4, Seq::empty(), 0),
        !(input.len() >= 4 && input[0] == 'M' as u8 && input[1] == 'P' as u8 && input[2]
            == 'C' as u8 && input[3] == 'K' as u8) ==> sv8_seek_index::walked_index(input) is Err
            && sv8_seek_index::stored_index(input, ceiling) is Err,
{
    if input.len() >= 4 {
        assert(input.take(4)[0] == input[0] && input.take(4)[1] == input[1]);
        assert(input.take(4)[2] == input[2] && input.take(4)[3] == input[3]);
        if input[0] == 'M' as u8 && input[1] == 'P' as u8 && input[2] == 'C' as u8 && input[3]
            == 'K' as u8 {
            assert(input.take(4) =~= framing::SV8_MAGIC@);
        }
    }
}

} // verus!
