//! The head of a frame body of the older stream format: the band types and the mid/side
//! flags.

use crate::bit_reader;
use crate::bit_reader::Sv7BitReader;
use crate::bit_writer::Sv7BitWriter;
use crate::bits;
use crate::coding;
use crate::coding::{Emit, Parsed};
use crate::error::{Error, Result};
use crate::sv7_huffman;
use crate::sv7_huffman::{decode, write_value, Sv7HuffmanEntry};
use crate::sv8_stereo_frame;
use vstd::arithmetic::power2::*;
use vstd::prelude::*;

verus! {

/// The highest band that a stream can have.
pub const SV7_MAX_BAND_INCLUSIVE: u8 = 31;

/// The difference that announces a band type outright.
pub const HDR_ESCAPE_SYMBOL: i8 = 4;

/// Bits of such a band type.
pub const HDR_ESCAPE_RAW_BITS: u8 = 4;

/// The head of a band: the band types of its channels, and its mid/side flag where it has
/// one.
#[derive(Debug, Clone, Copy, PartialEq, Eq)]
pub struct Sv7ResBand {
    pub res: [i8; 2],
    pub ms_flag: Option<bool>,
}

/// A sum that stays within 8 bits.
pub open spec fn saturated(v: int) -> i8 {
    if v > 127 {
        127
    } else if v < -128 {
        -128i8
    } else {
        v as i8
    }
}

/// Outcome of reading a band type outright.
pub open spec fn parse_raw(bits: Seq<bool>, pos: nat) -> Parsed<i8> {
    match bit_reader::read_field(bits, pos, 4) {
        (Err(e), p) => (Err(e), p),
        (Ok(v), p) => (Ok(v as i8), p),
    }
}

/// Outcome of decoding the type of a band that follows one of type `below`; the lowest band
/// has none below.
pub open spec fn parse_type(
    hdr: Seq<Sv7HuffmanEntry>,
    bits: Seq<bool>,
    pos: nat,
    below: Option<i8>,
) -> Parsed<i8> {
    match below {
        None => parse_raw(bits, pos),
        Some(a) => match sv7_huffman::parse(hdr, bits, pos) {
            (Err(e), p) => (Err(e), p),
            (Ok(d), p) => if d == HDR_ESCAPE_SYMBOL {
                parse_raw(bits, p)
            } else {
                (Ok(saturated(a + d)), p)
            },
        },
    }
}

/// Outcome of decoding the mid/side flag of a band: it is there where the stream has such
/// flags and the band codes something.
pub open spec fn parse_flag(
    bits: Seq<bool>,
    pos: nat,
    res: [i8; 2],
    stream_ms: bool,
) -> Parsed<Option<bool>> {
    if stream_ms && sv8_stereo_frame::in_scope(res) {
        match bit_reader::read_field(bits, pos, 1) {
            (Err(e), p) => (Err(e), p),
            (Ok(v), p) => (Ok(Some(v == 1)), p),
        }
    } else {
        (Ok(None), pos)
    }
}

/// The type of channel `ch` of the band decoded last.
pub open spec fn type_below(done: Seq<Sv7ResBand>, ch: int) -> Option<i8> {
    if done.len() == 0 {
        None
    } else {
        Some(done.last().res[ch])
    }
}

/// Outcome of decoding the head of a band.
pub open spec fn parse_head(
    hdr: Seq<Sv7HuffmanEntry>,
    bits: Seq<bool>,
    pos: nat,
    left: Option<i8>,
    right: Option<i8>,
    stream_ms: bool,
) -> Parsed<Sv7ResBand> {
    match parse_type(hdr, bits, pos, left) {
        (Err(e), p) => (Err(e), p),
        (Ok(l), p) => match parse_type(hdr, bits, p, right) {
            (Err(e), q) => (Err(e), q),
            (Ok(r), q) => match parse_flag(bits, q, [l, r], stream_ms) {
                (Err(e), s) => (Err(e), s),
                (Ok(ms_flag), s) => (Ok(Sv7ResBand { res: [l, r], ms_flag }), s),
            },
        },
    }
}

/// The steps that decode the heads of the bands, from the lowest up.
pub open spec fn head_step(
    hdr: Seq<Sv7HuffmanEntry>,
    bits: Seq<bool>,
    stream_ms: bool,
) -> spec_fn(Seq<Sv7ResBand>, nat) -> Parsed<Sv7ResBand> {
    |done: Seq<Sv7ResBand>, pos: nat|
        parse_head(hdr, bits, pos, type_below(done, 0), type_below(done, 1), stream_ms)
}

/// Outcome of decoding the heads of `n` bands.
pub open spec fn parse_heads(
    hdr: Seq<Sv7HuffmanEntry>,
    bits: Seq<bool>,
    pos: nat,
    n: nat,
    stream_ms: bool,
) -> Parsed<Seq<Sv7ResBand>> {
    coding::sweep(head_step(hdr, bits, stream_ms), n, Seq::empty(), pos).parsed()
}

/// Decodes the type of a band that follows one of type `below`.
fn decode_type(hdr: &[Sv7HuffmanEntry], reader: &mut Sv7BitReader<'_>, below: Option<i8>) -> (r:
    Result<i8>)
    ensures
        final(reader)@.bits == old(reader)@.bits,
        (r, final(reader)@.pos) == parse_type(
            hdr@,
            old(reader)@.bits,
            old(reader)@.pos,
            below,
        ),
{
    if let Some(a) = below {
        let d: i8 = decode(reader, hdr)?;
        if d != HDR_ESCAPE_SYMBOL {
            let sum: i32 = a as i32 + d as i32;
            return Ok(
                if sum > 127 {
                    127
                } else if sum < -128 {
                    -128
                } else {
                    sum as i8
                },
            );
        }
    }
    let ghost here = reader@;
    let raw: u32 = reader.read_bits(HDR_ESCAPE_RAW_BITS)?;
    proof {
        bits::lemma_value_bound(here.bits.subrange(here.pos as int, here.pos + 4int));
        lemma2_to64();
    }
    Ok(raw as i8)
}

/// Decodes the heads of the bands up to `max_band`. A stream of more than 32 bands is
/// refused.
pub fn decode_res_header(
    hdr: &[Sv7HuffmanEntry],
    reader: &mut Sv7BitReader<'_>,
    max_band: u8,
    stream_ms: bool,
) -> (r: Result<Vec<Sv7ResBand>>)
    ensures
        final(reader)@.bits == old(reader)@.bits,
        if max_band > 31 {
            r == Err::<Vec<Sv7ResBand>, Error>(Error::MaxBandOutOfRange(max_band))
                && final(reader)@.pos == old(reader)@.pos
        } else {
            match (
                parse_heads(
                    hdr@,
                    old(reader)@.bits,
                    old(reader)@.pos,
                    (max_band + 1) as nat,
                    stream_ms,
                ),
                r,
            ) {
                ((Ok(s), p), Ok(v)) => v@ == s && s.len() == max_band + 1 && final(reader)@.pos
                    == p,
                ((Err(e), p), Err(f)) => e == f && final(reader)@.pos == p,
                _ => false,
            }
        },
{
    if max_band > SV7_MAX_BAND_INCLUSIVE {
        return Err(Error::MaxBandOutOfRange(max_band));
    }
    let ghost bits = reader@.bits;
    let ghost step = head_step(hdr@, bits, stream_ms);
    let n: usize = max_band as usize + 1;
    let ghost whole = coding::sweep(step, n as nat, Seq::empty(), reader@.pos);
    let mut out: Vec<Sv7ResBand> = Vec::new();
    while out.len() < n
        invariant
            out@.len() <= n,
            n == max_band + 1,
            max_band <= 31,
            reader@.bits == bits,
            bits == old(reader)@.bits,
            step == head_step(hdr@, bits, stream_ms),
            whole == coding::sweep(
                head_step(hdr@, old(reader)@.bits, stream_ms),
                n as nat,
                Seq::empty(),
                old(reader)@.pos,
            ),
            whole == coding::sweep(step, n as nat, out@, reader@.pos),
        decreases n - out@.len(),
    {
        let ghost here = reader@.pos;
        let len: usize = out.len();
        let below: [Option<i8>; 2] = if len == 0 {
            [None, None]
        } else {
            [Some(out[len - 1].res[0]), Some(out[len - 1].res[1])]
        };
        let left: i8 = decode_type(hdr, reader, below[0])?;
        let right: i8 = decode_type(hdr, reader, below[1])?;
        let res: [i8; 2] = [left, right];
        let ms_flag: Option<bool> = if stream_ms && (left != 0 || right != 0) {
            let bit: u32 = reader.read_bits(1)?;
            Some(bit == 1)
        } else {
            None
        };
        let band: Sv7ResBand = Sv7ResBand { res, ms_flag };
        assert(step(out@, here) == (Ok::<Sv7ResBand, Error>(band), reader@.pos));
        out.push(band);
    }
    Ok(out)
}

// ---------------------------------------------------------------------------
// Encoding
// ---------------------------------------------------------------------------

/// What the type of a band that follows one of type `below` is written as.
pub open spec fn emit_type(hdr: Seq<Sv7HuffmanEntry>, below: Option<i8>, t: i8) -> Emit {
    let raw = if 0 <= t <= 15 {
        Emit::of(bits::field(t as nat, 4))
    } else {
        Emit::fail(Error::UnsupportedBandType(t))
    };
    match below {
        None => raw,
        Some(a) => if -5 <= t - a <= 3 {
            sv7_huffman::emit(hdr, (t - a) as i8)
        } else if 0 <= t <= 15 {
            sv7_huffman::emit(hdr, HDR_ESCAPE_SYMBOL).chain(raw)
        } else {
            Emit::fail(Error::UnsupportedBandType(t))
        },
    }
}

/// What the mid/side flag of a band is written as.
pub open spec fn flag_code(res: [i8; 2], flag: bool, stream_ms: bool) -> Seq<bool> {
    if stream_ms && sv8_stereo_frame::in_scope(res) {
        seq![flag]
    } else {
        Seq::empty()
    }
}

/// The type of channel `ch` below band `b`.
pub open spec fn type_under(res: Seq<[i8; 2]>, b: int, ch: int) -> Option<i8> {
    if b <= 0 {
        None
    } else {
        Some(res[b - 1][ch])
    }
}

/// What the head of a band is written as.
pub open spec fn emit_head(
    hdr: Seq<Sv7HuffmanEntry>,
    left: Option<i8>,
    right: Option<i8>,
    res: [i8; 2],
    flag: bool,
    stream_ms: bool,
) -> Emit {
    emit_type(hdr, left, res[0]).chain(emit_type(hdr, right, res[1])).chain(
        Emit::of(flag_code(res, flag, stream_ms)),
    )
}

/// The steps that write the heads of the bands.
pub open spec fn head_emit(
    hdr: Seq<Sv7HuffmanEntry>,
    res: Seq<[i8; 2]>,
    flags: Seq<bool>,
    stream_ms: bool,
) -> spec_fn(int) -> Emit {
    |b: int|
        emit_head(
            hdr,
            type_under(res, b, 0),
            type_under(res, b, 1),
            res[b],
            flags[b],
            stream_ms,
        )
}

/// Writes the type of a band that follows one of type `below`. A type that neither follows
/// closely nor fits four bits is refused.
pub fn encode_type(
    hdr: &[Sv7HuffmanEntry],
    writer: &mut Sv7BitWriter,
    below: Option<i8>,
    t: i8,
) -> (r: Result<()>)
    ensures
        final(writer)@ == old(writer)@ + emit_type(hdr@, below, t).code,
        r == emit_type(hdr@, below, t).result,
{
    let ghost start = writer@;
    let raw: bool = 0 <= t && t <= 15;
    if let Some(a) = below {
        let d: i32 = t as i32 - a as i32;
        if -5 <= d && d <= 3 {
            return write_value(writer, hdr, d as i8);
        }
        if !raw {
            assert(writer@ =~= start + Seq::<bool>::empty());
            return Err(Error::UnsupportedBandType(t));
        }
        match write_value(writer, hdr, HDR_ESCAPE_SYMBOL) {
            Ok(_) => {},
            Err(e) => {
                return Err(e);
            },
        }
        writer.write_bits(t as u32, HDR_ESCAPE_RAW_BITS);
        assert(writer@ =~= start + (sv7_huffman::emit(hdr@, HDR_ESCAPE_SYMBOL).code + bits::field(
            t as nat,
            4,
        )));
        return Ok(());
    }
    if !raw {
        assert(writer@ =~= start + Seq::<bool>::empty());
        return Err(Error::UnsupportedBandType(t));
    }
    writer.write_bits(t as u32, HDR_ESCAPE_RAW_BITS);
    Ok(())
}

/// Writes the head of a band.
fn encode_head(
    hdr: &[Sv7HuffmanEntry],
    writer: &mut Sv7BitWriter,
    left: Option<i8>,
    right: Option<i8>,
    res: [i8; 2],
    flag: bool,
    stream_ms: bool,
) -> (r: Result<()>)
    ensures
        final(writer)@ == old(writer)@ + emit_head(hdr@, left, right, res, flag, stream_ms).code,
        r == emit_head(hdr@, left, right, res, flag, stream_ms).result,
{
    let ghost start = writer@;
    let ghost first = emit_type(hdr@, left, res[0]);
    let ghost second = emit_type(hdr@, right, res[1]);
    match encode_type(hdr, writer, left, res[0]) {
        Ok(_) => {},
        Err(e) => {
            return Err(e);
        },
    }
    let second_result: Result<()> = encode_type(hdr, writer, right, res[1]);
    assert(writer@ =~= start + (first.code + second.code));
    match second_result {
        Ok(_) => {},
        Err(e) => {
            return Err(e);
        },
    }
    if stream_ms && (res[0] != 0 || res[1] != 0) {
        writer.write_bits(
            if flag {
                1
            } else {
                0
            },
            1,
        );
        proof {
            reveal_with_fuel(bits::field, 2);
            assert(bits::field(1, 1) =~= seq![true]);
            assert(bits::field(0, 1) =~= seq![false]);
        }
    }
    assert(writer@ =~= start + (first.code + second.code + flag_code(res, flag, stream_ms)));
    Ok(())
}

/// Writes the heads of the bands.
pub fn encode_res_header(
    hdr: &[Sv7HuffmanEntry],
    writer: &mut Sv7BitWriter,
    res: &Vec<[i8; 2]>,
    flags: &[bool],
    stream_ms: bool,
) -> (r: Result<()>)
    requires
        flags@.len() == res@.len(),
    ensures
        ({
            let e = coding::emit_each(
                head_emit(hdr@, res@, flags@, stream_ms),
                0,
                res@.len() as int,
            );
            final(writer)@ == old(writer)@ + e.code && r == e.result
        }),
{
    let ghost start = writer@;
    let ghost step = head_emit(hdr@, res@, flags@, stream_ms);
    let n: usize = res.len();
    let ghost whole = coding::emit_each(step, 0, n as int);
    let ghost mut done: Seq<bool> = Seq::empty();
    proof {
        assert(start + done =~= start);
        assert(whole =~= whole.after(done));
    }
    let mut b: usize = 0;
    while b < n
        invariant
            b <= n == res@.len(),
            flags@.len() == n,
            start == old(writer)@,
            step == head_emit(hdr@, res@, flags@, stream_ms),
            whole == coding::emit_each(step, 0, n as int),
            whole == coding::emit_each(step, b as int, n as int).after(done),
            writer@ == start + done,
        decreases n - b,
    {
        let below: [Option<i8>; 2] = if b == 0 {
            [None, None]
        } else {
            [Some(res[b - 1][0]), Some(res[b - 1][1])]
        };
        proof {
            coding::lemma_emit_one(step, b as int, n as int, done);
        }
        let head: Result<()> = encode_head(
            hdr,
            writer,
            below[0],
            below[1],
            res[b],
            flags[b],
            stream_ms,
        );
        assert(writer@ =~= start + (done + step(b as int).code));
        match head {
            Ok(_) => {},
            Err(e) => {
                return Err(e);
            },
        }
        proof {
            done = done + step(b as int).code;
        }
        b = b + 1;
    }
    assert(whole.code =~= done);
    Ok(())
}

/// A written band type reads back.
proof fn lemma_type_reads_back(
    hdr: Seq<Sv7HuffmanEntry>,
    bits: Seq<bool>,
    pos: nat,
    below: Option<i8>,
    t: i8,
)
    requires
        sv7_huffman::orderly(hdr),
        emit_type(hdr, below, t).result is Ok,
        coding::readable(bits, pos, emit_type(hdr, below, t).code),
    ensures
        parse_type(hdr, bits, pos, below) == (
            Ok::<i8, Error>(t),
            pos + emit_type(hdr, below, t).code.len(),
        ),
{
    lemma2_to64();
    let raw = bits::field(t as nat, 4);
    bits::lemma_field_len(t as nat, 4);
    match below {
        None => {
            bits::lemma_field_at(bits, pos, t as nat, 4);
        },
        Some(a) => {
            if -5 <= t - a <= 3 {
                sv7_huffman::law_value_reads_back(hdr, bits, pos, (t - a) as i8);
            } else {
                let e = sv7_huffman::emit(hdr, HDR_ESCAPE_SYMBOL);
                bits::lemma_at_concat(bits, pos, e.code, raw);
                sv7_huffman::law_value_reads_back(hdr, bits, pos, HDR_ESCAPE_SYMBOL);
                bits::lemma_field_at(bits, pos + e.code.len(), t as nat, 4);
            }
        },
    }
}

/// The heads that a decoder yields for band types and flags.
pub open spec fn heads_for(
    res: Seq<[i8; 2]>,
    flags: Seq<bool>,
    stream_ms: bool,
) -> Seq<Sv7ResBand> {
    Seq::new(
        res.len(),
        |b: int|
            Sv7ResBand {
                res: res[b],
                ms_flag: if stream_ms && sv8_stereo_frame::in_scope(res[b]) {
                    Some(flags[b])
                } else {
                    None
                },
            },
    )
}

/// Written heads read back.
pub proof fn law_heads_read_back(
    hdr: Seq<Sv7HuffmanEntry>,
    bits: Seq<bool>,
    pos: nat,
    res: Seq<[i8; 2]>,
    flags: Seq<bool>,
    stream_ms: bool,
)
    requires
        sv7_huffman::orderly(hdr),
        flags.len() == res.len(),
        ({
            let e = coding::emit_each(
                head_emit(hdr, res, flags, stream_ms),
                0,
                res.len() as int,
            );
            e.result is Ok && coding::readable(bits, pos, e.code)
        }),
    ensures
        parse_heads(hdr, bits, pos, res.len(), stream_ms) == (
            Ok::<Seq<Sv7ResBand>, Error>(heads_for(res, flags, stream_ms)),
            pos + coding::emit_each(
                head_emit(hdr, res, flags, stream_ms),
                0,
                res.len() as int,
            ).code.len(),
        ),
{
    let parse = head_step(hdr, bits, stream_ms);
    let emit = head_emit(hdr, res, flags, stream_ms);
    let items = heads_for(res, flags, stream_ms);
    assert forall|j: int, p: nat|
        0 <= j < items.len() && emit(j).result is Ok && coding::readable(
            bits,
            p,
            emit(j).code,
        ) implies #[trigger] parse(items.take(j), p) == (
        Ok::<Sv7ResBand, Error>(items[j]),
        (p + emit(j).code.len()) as nat,
    ) by {
        let left = type_under(res, j, 0);
        let right = type_under(res, j, 1);
        if j > 0 {
            assert(items.take(j).last() == items[j - 1]);
        }
        assert(type_below(items.take(j), 0) == left);
        assert(type_below(items.take(j), 1) == right);
        let a = emit_type(hdr, left, res[j][0]);
        let b = emit_type(hdr, right, res[j][1]);
        let c = flag_code(res[j], flags[j], stream_ms);
        assert(emit(j) == a.chain(b).chain(Emit::of(c)));
        bits::lemma_at_concat(bits, p, a.code + b.code, c);
        bits::lemma_at_concat(bits, p, a.code, b.code);
        lemma_type_reads_back(hdr, bits, p, left, res[j][0]);
        let q = p + a.code.len();
        lemma_type_reads_back(hdr, bits, q, right, res[j][1]);
        let s = q + b.code.len();
        coding::lemma_pair(res[j]);
        if stream_ms && sv8_stereo_frame::in_scope(res[j]) {
            bits::lemma_bit_at(bits, s, flags[j]);
        }
    }
    assert(items.take(0) =~= Seq::<Sv7ResBand>::empty());
    coding::lemma_sweep_reads_back(bits, parse, emit, items, 0, pos);
}

} // verus!
