//! A most-significant-bit-first reader over a byte slice.

use crate::bits;
use crate::error::{Error, Result};
use vstd::arithmetic::power2::*;
use vstd::prelude::*;

verus! {

/// What a bit reader stands for: the whole stream and the position in it.
pub struct BitCursor {
    pub bits: Seq<bool>,
    pub pos: nat,
}

/// A bit reader over a borrowed byte slice.
pub struct Sv7BitReader<'a> {
    data: &'a [u8],
    byte: usize,
    bit: u8,
}

impl<'a> View for Sv7BitReader<'a> {
    type V = BitCursor;

    closed spec fn view(&self) -> BitCursor {
        BitCursor { bits: bits::of_bytes(self.data@), pos: (8 * self.byte + self.bit) as nat }
    }
}

/// Outcome of reading an `n`-bit field: its value and the position behind it, or
/// an unmoved position where fewer than `n` bits are left.
pub open spec fn read_field(bits: Seq<bool>, pos: nat, n: nat) -> (Result<u32>, nat) {
    if pos + n <= bits.len() {
        (Ok(bits::field_at(bits, pos, n) as u32), pos + n)
    } else {
        (Err(Error::UnexpectedEof), pos)
    }
}

impl<'a> Sv7BitReader<'a> {
    #[verifier::type_invariant]
    spec fn inv(self) -> bool {
        &&& self.bit < 8
        &&& self.byte <= self.data@.len()
        &&& self.byte == self.data@.len() ==> self.bit == 0
    }

    /// A reader at the first bit of `data`.
    pub fn new(data: &'a [u8]) -> (r: Self)
        ensures
            r@.bits == bits::of_bytes(data@),
            r@.pos == 0,
    {
        Sv7BitReader { data, byte: 0, bit: 0 }
    }

    /// Bits that are left to read.
    pub fn bits_remaining(&self) -> (n: u64)
        requires
            self@.bits.len() <= u64::MAX,
        ensures
            n == self@.bits.len() - self@.pos,
    {
        proof {
            use_type_invariant(self);
        }
        (self.data.len() - self.byte) as u64 * 8 - self.bit as u64
    }

    /// True where no bit is left.
    pub fn is_empty(&self) -> (b: bool)
        ensures
            b == (self@.pos == self@.bits.len()),
            self@.pos <= self@.bits.len(),
    {
        proof {
            use_type_invariant(self);
        }
        self.byte == self.data.len()
    }

    /// At least `n` bits are left.
    fn has_bits(&self, n: u8) -> (b: bool)
        ensures
            b == (self@.pos + n <= self@.bits.len()),
    {
        proof {
            use_type_invariant(self);
        }
        let left: usize = self.data.len() - self.byte;
        if left >= 64 {
            true
        } else {
            n as usize + self.bit as usize <= left * 8
        }
    }

    /// Takes one bit from a reader that has one.
    fn take_bit(&mut self) -> (b: bool)
        requires
            old(self)@.pos < old(self)@.bits.len(),
        ensures
            final(self)@.bits == old(self)@.bits,
            final(self)@.pos == old(self)@.pos + 1,
            b == old(self)@.bits[old(self)@.pos as int],
    {
        proof {
            use_type_invariant(&*self);
        }
        let v: u8 = self.data[self.byte];
        let bit: u8 = self.bit;
        let divisor: u8 = match bit {
            0 => 128,
            1 => 64,
            2 => 32,
            3 => 16,
            4 => 8,
            5 => 4,
            6 => 2,
            _ => 1,
        };
        proof {
            bits::lemma_field_index(v as nat, 8, bit as nat);
            lemma2_to64();
        }
        if self.bit == 7 {
            self.bit = 0;
            self.byte = self.byte + 1;
        } else {
            self.bit = self.bit + 1;
        }
        (v / divisor) % 2 == 1
    }

    /// Reads an `n`-bit field, most significant bit first. Where fewer than `n`
    /// bits are left the reader stays where it is.
    pub fn read_bits(&mut self, n: u8) -> (r: Result<u32>)
        requires
            n <= 32,
        ensures
            final(self)@.bits == old(self)@.bits,
            (r, final(self)@.pos) == read_field(old(self)@.bits, old(self)@.pos, n as nat),
    {
        if !self.has_bits(n) {
            return Err(Error::UnexpectedEof);
        }
        let ghost start = self@.pos;
        let ghost bits = self@.bits;
        let mut acc: u64 = 0;
        let mut i: u8 = 0;
        while i < n
            invariant
                n <= 32,
                i <= n,
                self@.bits == bits,
                self@.pos == start + i,
                start + n <= bits.len(),
                acc == bits::field_at(bits, start, i as nat),
            decreases n - i,
        {
            let ghost before = bits.subrange(start as int, start + i);
            proof {
                bits::lemma_value_bound(before);
                lemma2_to64();
                if i < 31 {
                    lemma_pow2_strictly_increases(i as nat, 31);
                }
                let after = bits.subrange(start as int, start + i + 1);
                assert(after.drop_last() =~= before);
            }
            let b: bool = self.take_bit();
            acc = 2 * acc + if b { 1 } else { 0 };
            i = i + 1;
        }
        proof {
            bits::lemma_value_bound(bits.subrange(start as int, start + n));
            lemma2_to64();
            if n < 32 {
                lemma_pow2_strictly_increases(n as nat, 32);
            }
        }
        Ok(acc as u32)
    }

    /// The next 16 bits, left where they are.
    pub fn peek16(&self) -> (r: Result<u16>)
        ensures
            match r {
                Ok(v) => self@.pos + 16 <= self@.bits.len() && v == bits::field_at(
                    self@.bits,
                    self@.pos,
                    16,
                ),
                Err(e) => e == Error::UnexpectedEof && self@.pos + 16 > self@.bits.len(),
            },
    {
        proof {
            use_type_invariant(self);
        }
        let mut ahead: Sv7BitReader<'a> = Sv7BitReader {
            data: self.data,
            byte: self.byte,
            bit: self.bit,
        };
        match ahead.read_bits(16) {
            Ok(v) => {
                proof {
                    bits::lemma_value_bound(self@.bits.subrange(self@.pos as int, self@.pos + 16int));
                    lemma2_to64();
                }
                Ok(v as u16)
            },
            Err(e) => Err(e),
        }
    }
}

} // verus!
