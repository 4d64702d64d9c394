//! Decoding goes forward: no decoder steps back, or past the last bit, and a frame takes bits.
//! So a run has no more frames than there are bits.

use crate::bit_reader;
use crate::cns::CnsPrng;
use crate::coding;
use crate::coding::Parsed;
use crate::combinadic;
use crate::phased;
use crate::sv7_band_decode;
use crate::sv7_band_decode::Sv7TableSet;
use crate::sv7_band_header;
use crate::sv7_huffman;
use crate::sv7_huffman::Sv7HuffmanEntry;
use crate::sv7_scf_decode;
use crate::sv7_stereo_frame;
use crate::sv7_stereo_frame::{ScfMemory, StereoBody};
use crate::sv7_stream;
use crate::sv7_stream::StreamState;
use crate::sv8_band_decode;
use crate::sv8_band_header;
use crate::sv8_dscf_loop;
use crate::sv8_huffman::{Sv8CanonicalEntry, Sv8CanonicalTable, Sv8TableSet};
use crate::sv8_huffman;
use crate::sv8_sample_decode;
use crate::sv8_stereo_frame;
use crate::sv8_stereo_frame::{FrameMemory, StereoFrame};
use crate::sv8_stream;
use vstd::prelude::*;

verus! {

/// A decoder that stood at `pos` stands at `q`: no bit is taken back, and none behind the last
/// is taken.
pub open spec fn forward(bits: Seq<bool>, pos: nat, q: nat) -> bool {
    pos <= bits.len() ==> pos <= q <= bits.len()
}

/// A run of steps that go forward goes forward.
proof fn lemma_sweep<T>(
    step: spec_fn(Seq<T>, nat) -> Parsed<T>,
    bits: Seq<bool>,
    n: nat,
    done: Seq<T>,
    pos: nat,
)
    requires
        forall|d: Seq<T>, p: nat| forward(bits, p, (#[trigger] step(d, p)).1),
    ensures
        forward(bits, pos, coding::sweep(step, n, done, pos).pos),
    decreases n - done.len(),
{
    if done.len() < n {
        assert(forward(bits, pos, step(done, pos).1));
        match step(done, pos) {
            (Ok(v), p) => {
                lemma_sweep(step, bits, n, done.push(v), p);
            },
            (Err(_), _) => {},
        }
    }
}

// ---------------------------------------------------------------------------
// Shared codes
// ---------------------------------------------------------------------------

proof fn lemma_phased(bits: Seq<bool>, pos: nat, max: nat)
    ensures
        forward(bits, pos, phased::parse(bits, pos, max).1),
{
}

proof fn lemma_set(bits: Seq<bool>, pos: nat, cnt: nat, n: nat)
    ensures
        forward(bits, pos, combinadic::parse_set(bits, pos, cnt, n).1),
{
    lemma_phased(bits, pos, combinadic::choose_count(n, cnt));
    if cnt <= n {
        lemma_phased(bits, pos, combinadic::choose_count(n, (n - cnt) as nat));
    }
}

// ---------------------------------------------------------------------------
// SV8
// ---------------------------------------------------------------------------

/// A matching row holds a code word.
proof fn lemma_row(rows: Seq<Sv8CanonicalEntry>, from: int, peek: int)
    requires
        0 <= from,
    ensures
        sv8_huffman::matching_row(rows, from, peek) matches Some(r) ==> rows[r].is_code(),
    decreases rows.len() - from,
{
    if from < rows.len() && !(rows[from].is_code() && rows[from].code <= peek) {
        lemma_row(rows, from + 1, peek);
    }
}

/// A symbol takes a bit at least.
proof fn lemma_symbol(t: Sv8CanonicalTable, bits: Seq<bool>, pos: nat)
    ensures
        forward(bits, pos, t.parse(bits, pos).1),
        t.parse(bits, pos).0 is Ok ==> t.parse(bits, pos).1 > pos,
{
    lemma_row(t.lengths@, 0, crate::bits::field_at(bits, pos, 16) as int);
}

proof fn lemma_types(tables: Sv8TableSet, bits: Seq<bool>, pos: nat, n: nat)
    ensures
        forward(bits, pos, sv8_band_header::parse_type_pairs(tables, bits, pos, n).1),
{
    let step = sv8_band_header::type_pair_step(tables, bits);
    assert forall|d: Seq<[i8; 2]>, p: nat| forward(bits, p, (#[trigger] step(d, p)).1) by {
        let left = sv8_band_header::pair_above(d, 0);
        let right = sv8_band_header::pair_above(d, 1);
        lemma_symbol(tables.res[sv8_band_header::context_under(left)], bits, p);
        let q = sv8_band_header::parse_type(tables, bits, p, left).1;
        lemma_symbol(tables.res[sv8_band_header::context_under(right)], bits, q);
    }
    lemma_sweep(step, bits, n, Seq::empty(), pos);
}

proof fn lemma_flags(bits: Seq<bool>, pos: nat, res: Seq<[i8; 2]>, stream_ms: bool)
    ensures
        forward(bits, pos, sv8_stereo_frame::parse_flags(bits, pos, res, stream_ms).1),
{
    let n = sv8_stereo_frame::scope_below(res, res.len() as int);
    lemma_phased(bits, pos, n + 1);
    let count = phased::parse(bits, pos, n + 1);
    if count.0 is Ok {
        lemma_set(bits, count.1, count.0->Ok_0 as nat, n);
    }
}

proof fn lemma_methods(tables: Sv8TableSet, bits: Seq<bool>, pos: nat, res: Seq<[i8; 2]>)
    ensures
        forward(bits, pos, sv8_stereo_frame::method_sweep(tables, bits, pos, res).pos),
{
    let step = sv8_stereo_frame::method_step(tables, bits, res);
    assert forall|d: Seq<[u8; 2]>, p: nat| forward(bits, p, (#[trigger] step(d, p)).1) by {
        lemma_symbol(tables.scfi[0], bits, p);
        lemma_symbol(tables.scfi[1], bits, p);
    }
    lemma_sweep(step, bits, res.len(), Seq::empty(), pos);
}

proof fn lemma_later(tables: Sv8TableSet, bits: Seq<bool>, pos: nat, coded: bool, prev: i32)
    ensures
        forward(bits, pos, sv8_dscf_loop::parse_later(tables, bits, pos, coded, prev).1),
{
    lemma_symbol(tables.dscf[0], bits, pos);
}

proof fn lemma_band_scf(
    tables: Sv8TableSet,
    bits: Seq<bool>,
    pos: nat,
    scfi: u8,
    new_block: bool,
    prev: int,
)
    ensures
        forward(
            bits,
            pos,
            sv8_dscf_loop::parse_band_scf(tables, bits, pos, scfi, new_block, prev).1,
        ),
{
    lemma_symbol(tables.dscf[1], bits, pos);
    let a = sv8_dscf_loop::parse_first(tables, bits, pos, new_block, prev);
    assert(forward(bits, pos, a.1));
    if a.0 is Ok {
        let coded = sv8_dscf_loop::is_coded(scfi as int, 1);
        lemma_later(tables, bits, a.1, coded, a.0->Ok_0);
        let b = sv8_dscf_loop::parse_later(tables, bits, a.1, coded, a.0->Ok_0);
        if b.0 is Ok {
            lemma_later(tables, bits, b.1, sv8_dscf_loop::is_coded(scfi as int, 2), b.0->Ok_0);
        }
    }
}

proof fn lemma_scalefactors(
    tables: Sv8TableSet,
    bits: Seq<bool>,
    pos: nat,
    keyframe: bool,
    memory: FrameMemory,
    res: Seq<[i8; 2]>,
    scfi: Seq<[u8; 2]>,
)
    ensures
        forward(
            bits,
            pos,
            sv8_stereo_frame::scf_sweep(tables, bits, pos, keyframe, memory, res, scfi).pos,
        ),
{
    let step = sv8_stereo_frame::scf_step(tables, bits, keyframe, memory, res, scfi);
    assert forall|d: Seq<[i32; 3]>, p: nat| forward(bits, p, (#[trigger] step(d, p)).1) by {
        let b = d.len() as int / 2;
        let ch = d.len() as int % 2;
        lemma_band_scf(
            tables,
            bits,
            p,
            scfi[b][ch],
            sv8_stereo_frame::is_new_block(keyframe, memory, ch, b),
            sv8_stereo_frame::reference(memory, ch, b),
        );
    }
    lemma_sweep(step, bits, 2 * res.len(), Seq::empty(), pos);
}

proof fn lemma_group(t: Sv8CanonicalTable, bits: Seq<bool>, pos: nat)
    ensures
        forward(bits, pos, sv8_sample_decode::parse_group(t, bits, pos).1),
{
    lemma_symbol(t, bits, pos);
    let count = t.parse(bits, pos);
    if count.0 is Ok && 0 <= count.0->Ok_0 <= 18 {
        let cnt = count.0->Ok_0 as nat;
        lemma_set(bits, count.1, cnt, 18);
        let set = combinadic::parse_set(bits, count.1, cnt, 18);
        if set.0 is Ok {
            let step = sv8_sample_decode::sign_step(bits, set.0->Ok_0);
            assert forall|d: Seq<i8>, p: nat| forward(bits, p, (#[trigger] step(d, p)).1) by {}
            lemma_sweep(step, bits, 18, Seq::empty(), set.1);
        }
    }
}

proof fn lemma_sparse_band(tables: Sv8TableSet, bits: Seq<bool>, pos: nat)
    ensures
        forward(bits, pos, sv8_sample_decode::sparse_band(tables, bits, pos).pos),
{
    let step = sv8_sample_decode::group_step(tables.q1, bits);
    assert forall|d: Seq<Seq<i8>>, p: nat| forward(bits, p, (#[trigger] step(d, p)).1) by {
        lemma_group(tables.q1, bits, p);
    }
    lemma_sweep(step, bits, 2, Seq::empty(), pos);
}

proof fn lemma_triple_band(tables: Sv8TableSet, bits: Seq<bool>, pos: nat)
    ensures
        forward(bits, pos, sv8_sample_decode::triple_context_band(tables, bits, pos).pos),
{
    let step = sv8_sample_decode::triple_context_step(tables, bits);
    assert forall|d: Seq<i8>, p: nat| forward(bits, p, (#[trigger] step(d, p)).1) by {
        let ctx = crate::sv8_context::after_triples(3, d).table();
        lemma_symbol(tables.table(sv8_huffman::Sv8TableRole::Q2, ctx), bits, p);
    }
    let n = sv8_sample_decode::GROUPED3_CODEWORDS_PER_BAND as nat;
    lemma_sweep(step, bits, n, Seq::empty(), pos);
}

proof fn lemma_pair_band(tables: Sv8TableSet, bits: Seq<bool>, pos: nat, band_type: int)
    ensures
        forward(bits, pos, sv8_sample_decode::pair_band(tables, bits, pos, band_type).pos),
{
    let step = sv8_sample_decode::pair_step(tables, bits, band_type);
    assert forall|d: Seq<i8>, p: nat| forward(bits, p, (#[trigger] step(d, p)).1) by {
        lemma_symbol(tables.table(sv8_sample_decode::sample_role(band_type), 0), bits, p);
    }
    let n = sv8_sample_decode::GROUPED2_CODEWORDS_PER_BAND as nat;
    lemma_sweep(step, bits, n, Seq::empty(), pos);
}

proof fn lemma_sample_band(tables: Sv8TableSet, bits: Seq<bool>, pos: nat, band_type: int)
    ensures
        forward(bits, pos, sv8_sample_decode::sample_band(tables, bits, pos, band_type).pos),
{
    let step = sv8_sample_decode::sample_context_step(tables, bits, band_type);
    assert forall|d: Seq<i8>, p: nat| forward(bits, p, (#[trigger] step(d, p)).1) by {
        let ctx = crate::sv8_context::after_samples(
            crate::sv8_context::threshold(band_type)->0 as nat,
            d,
        ).table();
        lemma_symbol(tables.table(sv8_sample_decode::sample_role(band_type), ctx), bits, p);
    }
    lemma_sweep(step, bits, 36, Seq::empty(), pos);
}

proof fn lemma_escape_band(tables: Sv8TableSet, bits: Seq<bool>, pos: nat, band_type: int)
    ensures
        forward(bits, pos, sv8_sample_decode::escape_band(tables, bits, pos, band_type).pos),
{
    let step = sv8_sample_decode::escape_step(tables.q9up, bits, (band_type - 9) as nat);
    assert forall|d: Seq<i32>, p: nat| forward(bits, p, (#[trigger] step(d, p)).1) by {
        lemma_symbol(tables.q9up, bits, p);
    }
    lemma_sweep(step, bits, 36, Seq::empty(), pos);
}

proof fn lemma_levels(
    tables: Sv8TableSet,
    bits: Seq<bool>,
    pos: nat,
    noise: CnsPrng,
    res: Seq<[i8; 2]>,
)
    ensures
        forward(bits, pos, sv8_stereo_frame::level_sweep(tables, bits, pos, noise, res).pos),
{
    let step = sv8_stereo_frame::level_step(tables, bits, noise, res);
    assert forall|d: Seq<Seq<i32>>, p: nat| forward(bits, p, (#[trigger] step(d, p)).1) by {
        let i = d.len() as int;
        let t = res[i / 2][i % 2] as int;
        lemma_sparse_band(tables, bits, p);
        lemma_triple_band(tables, bits, p);
        lemma_pair_band(tables, bits, p, t);
        lemma_sample_band(tables, bits, p, t);
        lemma_escape_band(tables, bits, p, t);
        let read = sv8_band_decode::band_read(
            tables,
            bits,
            p,
            t,
            sv8_stereo_frame::noise_after(noise, res, i),
            sv8_band_decode::silence(),
        );
        assert(forward(bits, p, read.pos));
    }
    lemma_sweep(step, bits, 2 * res.len(), Seq::empty(), pos);
}

/// Scalefactors and levels go forward.
proof fn lemma_values(
    tables: Sv8TableSet,
    bits: Seq<bool>,
    pos: nat,
    keyframe: bool,
    memory: FrameMemory,
    noise: CnsPrng,
    res: Seq<[i8; 2]>,
    ms_flags: Seq<bool>,
    scfi: Seq<[u8; 2]>,
)
    ensures
        forward(
            bits,
            pos,
            sv8_stereo_frame::values_read(
                tables,
                bits,
                pos,
                keyframe,
                memory,
                noise,
                res,
                ms_flags,
                scfi,
            ).pos,
        ),
{
    lemma_scalefactors(tables, bits, pos, keyframe, memory, res, scfi);
    let scf = sv8_stereo_frame::scf_sweep(tables, bits, pos, keyframe, memory, res, scfi);
    lemma_levels(tables, bits, scf.pos, noise, res);
}

/// What follows the used-band count goes forward.
proof fn lemma_rest(
    tables: Sv8TableSet,
    bits: Seq<bool>,
    pos: nat,
    keyframe: bool,
    stream_ms: bool,
    memory: FrameMemory,
    noise: CnsPrng,
)
    ensures
        forward(
            bits,
            pos,
            sv8_stereo_frame::body_read(
                tables,
                bits,
                pos,
                keyframe,
                stream_ms,
                memory,
                noise,
            ).pos,
        ),
{
    let n = memory.last_nbands as nat;
    lemma_types(tables, bits, pos, n);
    let types = sv8_band_header::parse_type_pairs(tables, bits, pos, n);
    if types.0 is Ok {
        let res = types.0->Ok_0;
        lemma_flags(bits, types.1, res, stream_ms);
        let flags = sv8_stereo_frame::parse_flags(bits, types.1, res, stream_ms);
        if flags.0 is Ok {
            lemma_methods(tables, bits, flags.1, res);
            let methods = sv8_stereo_frame::method_sweep(tables, bits, flags.1, res).parsed();
            if methods.0 is Ok {
                lemma_values(
                    tables,
                    bits,
                    methods.1,
                    keyframe,
                    memory,
                    noise,
                    res,
                    flags.0->Ok_0,
                    methods.0->Ok_0,
                );
            }
        }
    }
}

/// A used-band count goes forward, and that of a frame behind another takes a bit at least.
proof fn lemma_count(
    tables: Sv8TableSet,
    bits: Seq<bool>,
    pos: nat,
    max_band: u8,
    keyframe: bool,
    last: u8,
)
    ensures
        ({
            let r = sv8_stereo_frame::parse_used_bands(
                tables,
                bits,
                pos,
                max_band,
                keyframe,
                last,
            );
            &&& forward(bits, pos, r.1)
            &&& r.0 is Ok && !keyframe ==> r.1 > pos
        }),
{
    lemma_phased(bits, pos, (max_band + 2) as nat);
    lemma_symbol(tables.bands, bits, pos);
}

/// A frame goes forward, and one that follows another takes a bit at least.
proof fn lemma_frame(
    tables: Sv8TableSet,
    bits: Seq<bool>,
    pos: nat,
    max_band: u8,
    keyframe: bool,
    stream_ms: bool,
    memory: FrameMemory,
    noise: CnsPrng,
)
    ensures
        ({
            let r = sv8_stereo_frame::frame_read(
                tables,
                bits,
                pos,
                max_band,
                keyframe,
                stream_ms,
                memory,
                noise,
            );
            &&& forward(bits, pos, r.pos)
            &&& pos <= bits.len() && r.result is Ok && !keyframe ==> r.pos > pos
        }),
{
    reveal(sv8_stereo_frame::frame_read);
    lemma_count(tables, bits, pos, max_band, keyframe, memory.last_nbands);
    let count = sv8_stereo_frame::parse_used_bands(
        tables,
        bits,
        pos,
        max_band,
        keyframe,
        memory.last_nbands,
    );
    if count.0 is Ok {
        let m = memory.with_count(count.0->Ok_0);
        lemma_rest(tables, bits, count.1, keyframe, stream_ms, m, noise);
    }
}

/// Behind the frames `done`, a run has no more frames than there are bits, and one more where
/// it starts.
proof fn lemma_run(
    tables: Sv8TableSet,
    bits: Seq<bool>,
    max_band: u8,
    stream_ms: bool,
    n: nat,
    done: Seq<StereoFrame>,
    pos: nat,
    memory: FrameMemory,
    noise: CnsPrng,
)
    requires
        pos <= bits.len(),
    ensures
        sv8_stream::run_read(
            tables,
            bits,
            max_band,
            stream_ms,
            n,
            done,
            pos,
            memory,
            noise,
        ).frames.len() <= done.len() + bits.len() - pos + if done.len() == 0 {
            1int
        } else {
            0
        },
    decreases n - done.len(),
{
    if done.len() < n {
        let key = done.len() == 0;
        lemma_frame(tables, bits, pos, max_band, key, stream_ms, memory, noise);
        let r = sv8_stereo_frame::frame_read(
            tables,
            bits,
            pos,
            max_band,
            key,
            stream_ms,
            memory,
            noise,
        );
        if r.result is Ok {
            lemma_run(
                tables,
                bits,
                max_band,
                stream_ms,
                n,
                done.push(r.result->Ok_0),
                r.pos,
                r.memory,
                r.noise,
            );
        }
    }
}

/// An audio packet has no more frames than bits, whatever number is asked for; the two clear
/// bytes behind it count, and one frame is free.
pub proof fn law_packet_frames_fit(
    tables: Sv8TableSet,
    payload: Seq<u8>,
    max_band: u8,
    stream_ms: bool,
    n: nat,
    noise: CnsPrng,
)
    ensures
        sv8_stream::packet_read(tables, payload, max_band, stream_ms, n, noise).frames.len() <= 8
            * payload.len() + 17,
{
    let bits = sv8_stream::payload_bits(payload);
    assert(bits.len() == 8 * (payload.len() + 2));
    lemma_run(
        tables,
        bits,
        max_band,
        stream_ms,
        n,
        Seq::empty(),
        0,
        FrameMemory::blank(),
        noise,
    );
}

// ---------------------------------------------------------------------------
// SV7
// ---------------------------------------------------------------------------

/// A matching row holds a code word.
proof fn lemma_sv7_row(rows: Seq<Sv7HuffmanEntry>, from: int, peek: int)
    requires
        0 <= from,
    ensures
        sv7_huffman::matching(rows, from, peek) matches Some(r) ==> rows[r].is_code(),
    decreases rows.len() - from,
{
    if from < rows.len() && !(rows[from].is_code() && rows[from].code <= peek) {
        lemma_sv7_row(rows, from + 1, peek);
    }
}

proof fn lemma_value(rows: Seq<Sv7HuffmanEntry>, bits: Seq<bool>, pos: nat)
    ensures
        forward(bits, pos, sv7_huffman::parse(rows, bits, pos).1),
{
    lemma_sv7_row(rows, 0, crate::bits::field_at(bits, pos, 16) as int);
}

proof fn lemma_type(hdr: Seq<Sv7HuffmanEntry>, bits: Seq<bool>, pos: nat, below: Option<i8>)
    ensures
        forward(bits, pos, sv7_band_header::parse_type(hdr, bits, pos, below).1),
        below is None && sv7_band_header::parse_type(hdr, bits, pos, below).0 is Ok
            ==> sv7_band_header::parse_type(hdr, bits, pos, below).1 == pos + 4,
{
    lemma_value(hdr, bits, pos);
}

proof fn lemma_head(
    hdr: Seq<Sv7HuffmanEntry>,
    bits: Seq<bool>,
    pos: nat,
    left: Option<i8>,
    right: Option<i8>,
    stream_ms: bool,
)
    ensures
        ({
            let r = sv7_band_header::parse_head(hdr, bits, pos, left, right, stream_ms);
            &&& forward(bits, pos, r.1)
            &&& pos <= bits.len() && left is None && r.0 is Ok ==> r.1 > pos
        }),
{
    lemma_type(hdr, bits, pos, left);
    let a = sv7_band_header::parse_type(hdr, bits, pos, left);
    if a.0 is Ok {
        lemma_type(hdr, bits, a.1, right);
    }
}

/// The heads take a bit at least.
proof fn lemma_heads(
    hdr: Seq<Sv7HuffmanEntry>,
    bits: Seq<bool>,
    pos: nat,
    n: nat,
    stream_ms: bool,
)
    requires
        n > 0,
    ensures
        ({
            let r = sv7_band_header::parse_heads(hdr, bits, pos, n, stream_ms);
            &&& forward(bits, pos, r.1)
            &&& pos <= bits.len() && r.0 is Ok ==> r.1 > pos
        }),
{
    let step = sv7_band_header::head_step(hdr, bits, stream_ms);
    let none = Seq::<sv7_band_header::Sv7ResBand>::empty();
    assert forall|d: Seq<sv7_band_header::Sv7ResBand>, p: nat|
        forward(bits, p, (#[trigger] step(d, p)).1) by {
        lemma_head(
            hdr,
            bits,
            p,
            sv7_band_header::type_below(d, 0),
            sv7_band_header::type_below(d, 1),
            stream_ms,
        );
    }
    lemma_head(hdr, bits, pos, None, None, stream_ms);
    let first = step(none, pos);
    assert(first == sv7_band_header::parse_head(hdr, bits, pos, None, None, stream_ms));
    if first.0 is Ok {
        lemma_sweep(step, bits, n, none.push(first.0->Ok_0), first.1);
    }
    assert(coding::sweep(step, n, none, pos) == match first {
        (Ok(v), p) => coding::sweep(step, n, none.push(v), p),
        (Err(e), p) => coding::Swept { done: none, result: Err(e), pos: p },
    });
}

proof fn lemma_sv7_methods(bits: Seq<bool>, pos: nat, res: Seq<[i8; 2]>)
    ensures
        forward(bits, pos, sv7_stereo_frame::method_sweep(bits, pos, res).pos),
{
    let step = sv7_stereo_frame::method_step(bits, res);
    assert forall|d: Seq<u8>, p: nat| forward(bits, p, (#[trigger] step(d, p)).1) by {
        lemma_value(sv7_scf_decode::method_rows(), bits, p);
    }
    lemma_sweep(step, bits, 2 * res.len(), Seq::empty(), pos);
}

proof fn lemma_index(bits: Seq<bool>, pos: nat, reference: i32)
    ensures
        forward(bits, pos, sv7_scf_decode::parse_index(bits, pos, reference).1),
{
    lemma_value(sv7_scf_decode::difference_rows(), bits, pos);
}

proof fn lemma_sv7_band_scf(bits: Seq<bool>, pos: nat, scfi: u8, reference: i32)
    ensures
        forward(bits, pos, sv7_scf_decode::parse_scalefactors(bits, pos, scfi, reference).1),
{
    lemma_index(bits, pos, reference);
    let a = sv7_scf_decode::parse_index(bits, pos, reference);
    if a.0 is Ok {
        lemma_index(bits, a.1, a.0->Ok_0);
        let coded = sv8_dscf_loop::is_coded(scfi as int, 1);
        let b = sv7_scf_decode::parse_later(bits, a.1, coded, a.0->Ok_0);
        if b.0 is Ok {
            lemma_index(bits, b.1, b.0->Ok_0);
        }
    }
}

proof fn lemma_sv7_scalefactors(
    bits: Seq<bool>,
    pos: nat,
    memory: ScfMemory,
    res: Seq<[i8; 2]>,
    scfi: Seq<u8>,
)
    ensures
        forward(bits, pos, sv7_stereo_frame::scf_sweep(bits, pos, memory, res, scfi).pos),
{
    let step = sv7_stereo_frame::scf_step(bits, memory, res, scfi);
    assert forall|d: Seq<[i32; 3]>, p: nat| forward(bits, p, (#[trigger] step(d, p)).1) by {
        let i = d.len() as int;
        lemma_sv7_band_scf(bits, p, scfi[i], memory(i % 2, i / 2));
    }
    lemma_sweep(step, bits, 2 * res.len(), Seq::empty(), pos);
}

proof fn lemma_sv7_band(
    tables: Sv7TableSet,
    bits: Seq<bool>,
    pos: nat,
    band_type: i8,
    ctx: int,
    noise: CnsPrng,
)
    ensures
        forward(
            bits,
            pos,
            sv7_band_decode::parse_levels(tables, bits, pos, band_type, ctx, noise).1,
        ),
{
    let t = band_type as int;
    let rows = tables.code(t, ctx);
    let step = sv7_band_decode::symbol_step(rows, bits, t);
    assert forall|d: Seq<i8>, p: nat| forward(bits, p, (#[trigger] step(d, p)).1) by {
        lemma_value(rows, bits, p);
    }
    lemma_sweep(step, bits, sv7_band_decode::symbol_count(t), Seq::empty(), pos);
    let plain = sv7_band_decode::plain_step(bits, t);
    assert forall|d: Seq<i32>, p: nat| forward(bits, p, (#[trigger] plain(d, p)).1) by {}
    lemma_sweep(plain, bits, 36, Seq::empty(), pos);
}

proof fn lemma_sv7_levels(
    tables: Sv7TableSet,
    bits: Seq<bool>,
    pos: nat,
    noise: CnsPrng,
    res: Seq<[i8; 2]>,
)
    ensures
        forward(bits, pos, sv7_stereo_frame::level_sweep(tables, bits, pos, noise, res).pos),
{
    let step = sv7_stereo_frame::level_step(tables, bits, noise, res);
    assert forall|d: Seq<Seq<i32>>, p: nat| forward(bits, p, (#[trigger] step(d, p)).1) by {
        let i = d.len() as int;
        let t = res[i / 2][i % 2];
        let u = sv8_stereo_frame::noise_after(noise, res, i);
        lemma_sv7_band(tables, bits, p, t, 0, u);
        let bit = bit_reader::read_field(bits, p, 1);
        if bit.0 is Ok {
            lemma_sv7_band(tables, bits, bit.1, t, bit.0->Ok_0 as int, u);
        }
    }
    lemma_sweep(step, bits, 2 * res.len(), Seq::empty(), pos);
}

/// A frame body takes a bit at least.
proof fn lemma_body(
    tables: Sv7TableSet,
    bits: Seq<bool>,
    pos: nat,
    max_band: u8,
    stream_ms: bool,
    memory: ScfMemory,
    noise: CnsPrng,
)
    ensures
        ({
            let r = sv7_stereo_frame::body_read(
                tables,
                bits,
                pos,
                max_band,
                stream_ms,
                memory,
                noise,
            );
            &&& forward(bits, pos, r.pos)
            &&& pos <= bits.len() && r.result is Ok ==> r.pos > pos
        }),
{
    reveal(sv7_stereo_frame::body_read);
    let n = (max_band + 1) as nat;
    lemma_heads(tables.hdr@, bits, pos, n, stream_ms);
    let heads = sv7_band_header::parse_heads(tables.hdr@, bits, pos, n, stream_ms);
    if heads.0 is Ok {
        let res = sv7_stereo_frame::types_of(heads.0->Ok_0);
        lemma_sv7_methods(bits, heads.1, res);
        let methods = sv7_stereo_frame::method_sweep(bits, heads.1, res).parsed();
        if methods.0 is Ok {
            lemma_sv7_scalefactors(bits, methods.1, memory, res, methods.0->Ok_0);
            let scf = sv7_stereo_frame::scf_sweep(
                bits,
                methods.1,
                memory,
                res,
                methods.0->Ok_0,
            );
            lemma_sv7_levels(tables, bits, scf.pos, noise, res);
        }
    }
}

/// A run of frame bodies has no more frames than bits, whatever number is asked for.
pub proof fn law_frames_fit(
    tables: Sv7TableSet,
    bits: Seq<bool>,
    pos: nat,
    state: StreamState,
    n: nat,
    done: Seq<StereoBody>,
)
    ensures
        sv7_stream::frames_read(tables, bits, pos, state, n, done).state.frames <= state.frames
            + bits.len(),
        pos <= bits.len() ==> sv7_stream::frames_read(
            tables,
            bits,
            pos,
            state,
            n,
            done,
        ).state.frames <= state.frames + (bits.len() - pos),
    decreases n,
{
    if n > 0 && pos < bits.len() {
        let read = state.next_read(tables, bits, pos);
        lemma_body(
            tables,
            bits,
            pos,
            state.max_band,
            state.stream_ms,
            state.memory,
            state.noise,
        );
        if read.result is Ok {
            law_frames_fit(
                tables,
                bits,
                read.pos,
                state.behind(read),
                (n - 1) as nat,
                done.push(read.result->Ok_0),
            );
        }
    }
}

} // verus!
