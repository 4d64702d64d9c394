//! Phased-binary codes: a code space of `max` values in which the low values are
//! one bit shorter, so that no code word is wasted.

use crate::bit_reader;
use crate::bit_reader::Sv7BitReader;
use crate::bit_writer::Sv7BitWriter;
use crate::bits;
use crate::coding::{Emit, Parsed};
use crate::error::{Error, Result};
use vstd::arithmetic::power2::*;
use vstd::prelude::*;

verus! {

/// The least number of bits that tell `n` values apart.
pub open spec fn width(n: nat) -> nat
    decreases n,
{
    if n <= 1 {
        0
    } else {
        1 + width((n + 1) / 2)
    }
}

/// How many values of a space of `max` carry a code word one bit shorter.
pub open spec fn short_codes(max: nat) -> nat {
    (pow2(width(max)) - max) as nat
}

/// The code word of `v` in a space of `max` values. A space of at most one value
/// takes no bits.
pub open spec fn code(v: nat, max: nat) -> Seq<bool> {
    if max <= 1 {
        Seq::empty()
    } else if v < short_codes(max) {
        bits::field(v, (width(max) - 1) as nat)
    } else {
        bits::field(v + short_codes(max), width(max))
    }
}

/// Outcome of decoding a value out of a space of `max`.
pub open spec fn parse(bits: Seq<bool>, pos: nat, max: nat) -> Parsed<u32> {
    if max <= 1 {
        (Ok(0), pos)
    } else {
        match bit_reader::read_field(bits, pos, (width(max) - 1) as nat) {
            (Ok(high), p) => if high < short_codes(max) {
                (Ok(high), p)
            } else {
                match bit_reader::read_field(bits, p, 1) {
                    (Ok(low), q) => (Ok((2 * high - short_codes(max) + low) as u32), q),
                    (Err(e), q) => (Err(e), q),
                }
            },
            (Err(e), p) => (Err(e), p),
        }
    }
}

/// What writing `v` into a space of `max` appends: nothing where `v` lies outside.
pub open spec fn emit(v: u32, max: u32) -> Emit {
    if v < max || (v == 0 && max == 0) {
        Emit::of(code(v as nat, max as nat))
    } else {
        Emit::fail(Error::SampleOutOfRange(v as i32))
    }
}

pub proof fn lemma_width(n: nat)
    ensures
        n <= pow2(width(n)),
        n > 1 ==> width(n) >= 1 && pow2((width(n) - 1) as nat) < n,
    decreases n,
{
    lemma2_to64();
    if n > 1 {
        let h = (n + 1) / 2;
        lemma_width(h);
        lemma_pow2_unfold(width(n));
        if h > 1 {
            lemma_pow2_unfold(width(h));
        }
    }
}

/// `width(n)` is the only exponent between the powers around `n`.
pub proof fn lemma_width_unique(n: nat, b: nat)
    requires
        n > 1,
        b >= 1,
        n <= pow2(b),
        pow2((b - 1) as nat) < n,
    ensures
        width(n) == b,
{
    lemma_width(n);
    let w = width(n);
    if w < b {
        if w < b - 1 {
            lemma_pow2_strictly_increases(w, (b - 1) as nat);
        }
    } else if b < w {
        if b < w - 1 {
            lemma_pow2_strictly_increases(b, (w - 1) as nat);
        }
    }
}

/// Spaces of up to 2^31 values have code words of at most 31 bits.
pub proof fn lemma_width_bound(n: nat)
    requires
        n <= 0x8000_0000,
    ensures
        width(n) <= 31,
        pow2(width(n)) <= 0x8000_0000,
{
    lemma2_to64();
    lemma_width(n);
    if width(n) > 31 {
        if width(n) > 32 {
            lemma_pow2_strictly_increases(31, (width(n) - 1) as nat);
        }
    }
    if width(n) < 31 {
        lemma_pow2_strictly_increases(width(n), 31);
    }
}

/// A written value reads back, and the reader stands behind its code word.
pub proof fn lemma_reads_back(bits: Seq<bool>, pos: nat, v: nat, max: nat)
    requires
        v < max <= 0x8000_0000,
        bits::at(bits, pos, code(v, max)),
    ensures
        parse(bits, pos, max) == (Ok::<u32, Error>(v as u32), pos + code(v, max).len()),
{
    if max > 1 {
        lemma_width(max);
        lemma_width_bound(max);
        let w = width(max);
        let lost = short_codes(max);
        lemma_pow2_unfold(w);
        bits::lemma_field_len(v, (w - 1) as nat);
        bits::lemma_field_len(v + lost, w);
        if v < lost {
            bits::lemma_field_at(bits, pos, v, (w - 1) as nat);
        } else {
            let x = v + lost;
            lemma2_to64();
            bits::lemma_field_split(x, (w - 1) as nat, 1);
            bits::lemma_field_len(x / 2, (w - 1) as nat);
            bits::lemma_at_concat(
                bits,
                pos,
                bits::field(x / 2, (w - 1) as nat),
                bits::field(x, 1),
            );
            bits::lemma_field_at(bits, pos, x / 2, (w - 1) as nat);
            let q = (pos + w - 1) as nat;
            reveal_with_fuel(bits::field, 2);
            assert(bits::field(x, 1) =~= bits::field(x % 2, 1));
            bits::lemma_field_at(bits, q, x % 2, 1);
        }
    }
}

/// A decoded value lies in its space, and its code word is what was read.
pub proof fn lemma_writes_back(bits: Seq<bool>, pos: nat, max: nat)
    requires
        max <= 0x8000_0000,
        max > 1 || pos <= bits.len(),
        parse(bits, pos, max).0 is Ok,
    ensures
        max > 0 ==> parse(bits, pos, max).0->Ok_0 < max,
        max == 0 ==> parse(bits, pos, max).0->Ok_0 == 0,
        bits::at(bits, pos, code(parse(bits, pos, max).0->Ok_0 as nat, max)),
        parse(bits, pos, max).1 == pos + code(parse(bits, pos, max).0->Ok_0 as nat, max).len(),
{
    if max <= 1 {
        assert(bits.subrange(pos as int, pos as int) =~= Seq::<bool>::empty());
    } else {
        lemma_width(max);
        lemma_width_bound(max);
        let w = width(max);
        let lost = short_codes(max);
        lemma_pow2_unfold(w);
        let s = bits.subrange(pos as int, (pos + w - 1) as int);
        let high = bits::value(s);
        bits::lemma_value_bound(s);
        bits::lemma_bits_of_value(s);
        bits::lemma_field_len(high, (w - 1) as nat);
        if high >= lost {
            let q = (pos + w - 1) as nat;
            let t = bits.subrange(q as int, q + 1int);
            let low = bits::value(t);
            bits::lemma_value_bound(t);
            bits::lemma_bits_of_value(t);
            lemma2_to64();
            let v = (2 * high - lost + low) as nat;
            let x = v + lost;
            assert(x / 2 == high && x % 2 == low);
            bits::lemma_field_split(x, (w - 1) as nat, 1);
            reveal_with_fuel(bits::field, 2);
            assert(bits::field(x, 1) =~= bits::field(low, 1));
            bits::lemma_field_len(low, 1);
            bits::lemma_at_concat(bits, pos, bits::field(high, (w - 1) as nat), bits::field(x, 1));
            assert(v >= lost);
            bits::lemma_field_len(x, w);
        }
    }
}

/// Width of the long code words of a space of `total` values, and how many of the
/// values take a code word one bit shorter.
pub fn enum_bitlen_lost(total: u32) -> (r: (u8, u32))
    requires
        total <= 0x8000_0000,
    ensures
        r.0 == width(total as nat),
        total <= 1 ==> r.1 == 0,
        total > 1 ==> r.1 == short_codes(total as nat),
{
    if total <= 1 {
        return (0, 0);
    }
    let mut bitlen: u8 = 0;
    let mut space: u32 = 1;
    proof {
        lemma2_to64();
    }
    while space < total
        invariant
            space == pow2(bitlen as nat),
            space <= 0x8000_0000,
            1 < total <= 0x8000_0000,
            bitlen <= 31,
            bitlen >= 1 ==> pow2((bitlen - 1) as nat) < total,
            bitlen == 0 ==> space == 1,
        decreases 31 - bitlen,
    {
        proof {
            lemma_pow2_unfold((bitlen + 1) as nat);
            lemma2_to64();
            if bitlen >= 31 {
                assert(space >= 0x8000_0000);
            }
            if bitlen < 30 {
                lemma_pow2_strictly_increases(bitlen as nat, 30);
            }
        }
        space = space * 2;
        bitlen = bitlen + 1;
    }
    proof {
        lemma_width_unique(total as nat, bitlen as nat);
    }
    (bitlen, space - total)
}

/// Reads a value out of a space of `max`.
pub fn read_value(reader: &mut Sv7BitReader<'_>, max: u32) -> (r: Result<u32>)
    requires
        max <= 0x8000_0000,
    ensures
        final(reader)@.bits == old(reader)@.bits,
        (r, final(reader)@.pos) == parse(old(reader)@.bits, old(reader)@.pos, max as nat),
{
    let (bitlen, lost) = enum_bitlen_lost(max);
    if max <= 1 {
        return Ok(0);
    }
    proof {
        lemma_width(max as nat);
        lemma_width_bound(max as nat);
        lemma_pow2_unfold(width(max as nat));
    }
    let ghost start = reader@;
    let high: u32 = reader.read_bits(bitlen - 1)?;
    proof {
        bits::lemma_value_bound(start.bits.subrange(start.pos as int, start.pos + bitlen - 1));
    }
    if high < lost {
        return Ok(high);
    }
    let ghost mid = reader@;
    let low: u32 = reader.read_bits(1)?;
    proof {
        bits::lemma_value_bound(mid.bits.subrange(mid.pos as int, mid.pos + 1int));
        lemma2_to64();
    }
    Ok((high - lost) + high + low)
}

/// Writes a value of a space of `max`.
pub fn write_value(writer: &mut Sv7BitWriter, v: u32, max: u32)
    requires
        max <= 0x8000_0000,
        v < max || v == 0,
    ensures
        final(writer)@ == old(writer)@ + code(v as nat, max as nat),
{
    let (bitlen, lost) = enum_bitlen_lost(max);
    if max <= 1 {
        assert(writer@ =~= old(writer)@ + code(v as nat, max as nat));
        return;
    }
    proof {
        lemma_width(max as nat);
        lemma_width_bound(max as nat);
        lemma_pow2_unfold(width(max as nat));
    }
    if v < lost {
        writer.write_bits(v, bitlen - 1);
    } else {
        writer.write_bits(v + lost, bitlen);
    }
}

} // verus!
