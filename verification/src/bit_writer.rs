//! A most-significant-bit-first writer into a byte buffer.

use crate::bits;
use vstd::arithmetic::power2::*;
use vstd::prelude::*;

verus! {

/// A bit writer; its view is the bits written so far.
pub struct Sv7BitWriter {
    bytes: Vec<u8>,
    acc: u8,
    nbits: u8,
}

impl View for Sv7BitWriter {
    type V = Seq<bool>;

    closed spec fn view(&self) -> Seq<bool> {
        bits::of_bytes(self.bytes@) + bits::field(self.acc as nat, self.nbits as nat)
    }
}

/// The clear bits that fill `n` bits up to a whole byte.
pub open spec fn padding(n: nat) -> Seq<bool> {
    bits::zeros(((8 - n % 8) % 8) as nat)
}

impl Sv7BitWriter {
    #[verifier::type_invariant]
    spec fn inv(self) -> bool {
        &&& self.nbits < 8
        &&& self.acc < pow2(self.nbits as nat)
    }

    /// A writer that holds no bit.
    pub fn new() -> (w: Self)
        ensures
            w@ == Seq::<bool>::empty(),
    {
        proof {
            lemma2_to64();
        }
        let w: Sv7BitWriter = Sv7BitWriter { bytes: Vec::new(), acc: 0, nbits: 0 };
        assert(w@ =~= Seq::<bool>::empty());
        w
    }

    /// True where nothing was written.
    pub fn is_empty(&self) -> (b: bool)
        ensures
            b == (self@.len() == 0),
    {
        proof {
            bits::lemma_field_len(self.acc as nat, self.nbits as nat);
        }
        self.bytes.len() == 0 && self.nbits == 0
    }

    /// How many bits were written.
    pub fn bit_len(&self) -> (n: u128)
        ensures
            n == self@.len(),
            n < 0x8_0000_0000_0000_0000,
    {
        proof {
            use_type_invariant(self);
            bits::lemma_field_len(self.acc as nat, self.nbits as nat);
        }
        self.bytes.len() as u128 * 8 + self.nbits as u128
    }

    /// Appends one bit.
    fn put_bit(&mut self, b: bool)
        ensures
            final(self)@ == old(self)@.push(b),
    {
        proof {
            use_type_invariant(&*self);
            lemma2_to64();
            lemma_pow2_unfold((self.nbits + 1) as nat);
            if self.nbits < 7 {
                lemma_pow2_strictly_increases((self.nbits + 1) as nat, 8);
            }
        }
        let low: u16 = if b { 1 } else { 0 };
        let acc: u8 = (2 * (self.acc as u16) + low) as u8;
        let ghost v = acc as nat;
        let ghost n = self.nbits as nat;
        assert(bits::field(v, n + 1) =~= bits::field(self.acc as nat, n).push(b)) by {
            assert(v / 2 == self.acc && (v % 2 == 1) == b);
        }
        if self.nbits == 7 {
            let mut bytes: Vec<u8> = Vec::new();
            std::mem::swap(&mut bytes, &mut self.bytes);
            proof {
                bits::lemma_of_bytes_push(bytes@, acc);
            }
            bytes.push(acc);
            self.acc = 0;
            self.nbits = 0;
            self.bytes = bytes;
        } else {
            self.acc = 0;
            self.nbits = self.nbits + 1;
            self.acc = acc;
        }
        assert(self@ =~= old(self)@.push(b));
    }

    /// Appends the low `n` bits of `value`, most significant first.
    pub fn write_bits(&mut self, value: u32, n: u8)
        requires
            n <= 32,
        ensures
            final(self)@ == old(self)@ + bits::field(value as nat, n as nat),
    {
        let ghost start = self@;
        let ghost code = bits::field(value as nat, n as nat);
        if n == 0 {
            assert(self@ =~= start + code);
            return;
        }
        proof {
            bits::lemma_field_len(value as nat, n as nat);
            lemma2_to64();
        }
        let mut divisor: u64 = 1;
        let mut k: u8 = 1;
        while k < n
            invariant
                1 <= k <= n <= 32,
                divisor == pow2((k - 1) as nat),
            decreases n - k,
        {
            proof {
                lemma_pow2_unfold(k as nat);
                lemma2_to64();
                lemma_pow2_strictly_increases((k - 1) as nat, 32);
            }
            divisor = divisor * 2;
            k = k + 1;
        }
        let mut i: u8 = 0;
        while i < n
            invariant
                i <= n <= 32,
                code == bits::field(value as nat, n as nat),
                code.len() == n,
                self@ == start + code.subrange(0, i as int),
                i < n ==> divisor == pow2((n - 1 - i) as nat),
            decreases n - i,
        {
            proof {
                bits::lemma_field_index(value as nat, n as nat, i as nat);
                lemma_pow2_pos((n - 1 - i) as nat);
                if i + 1 < n {
                    lemma_pow2_unfold((n - 1 - i) as nat);
                }
                assert(code.subrange(0, i as int).push(code[i as int]) =~= code.subrange(
                    0,
                    i + 1,
                ));
            }
            let b: bool = (value as u64 / divisor) % 2 == 1;
            self.put_bit(b);
            assert(self@ =~= start + code.subrange(0, i + 1));
            divisor = divisor / 2;
            i = i + 1;
        }
        assert(code.subrange(0, n as int) =~= code);
    }

    /// Appends the top `len` bits of `code`.
    pub fn write_left_justified(&mut self, code: u16, len: u8)
        requires
            len <= 16,
        ensures
            final(self)@ == old(self)@ + bits::field(
                code as nat / pow2((16 - len) as nat),
                len as nat,
            ),
    {
        let shift: u32 = 16 - len as u32;
        let wide: u32 = code as u32;
        proof {
            vstd::bits::lemma_u32_shr_is_div(wide, shift);
        }
        self.write_bits(wide >> shift, len);
    }

    /// The written bits as bytes, filled up with clear bits to a whole byte.
    pub fn finish(self) -> (out: Vec<u8>)
        ensures
            bits::of_bytes(out@) == self@ + padding(self@.len()),
    {
        let mut w: Sv7BitWriter = self;
        let ghost start = w@;
        proof {
            bits::lemma_field_len(w.acc as nat, w.nbits as nat);
            use_type_invariant(&w);
        }
        let ghost mut pad: nat = 0;
        while w.nbits != 0
            invariant
                w@ =~= start + bits::zeros(pad),
                pad <= 8,
                w.nbits < 8,
                w.nbits == (start.len() + pad) % 8,
                pad == 0 || w.nbits == 0 || pad < 8 && start.len() % 8 != 0,
                pad > 0 ==> start.len() % 8 + pad <= 8 && start.len() % 8 != 0,
            decreases 8 - pad,
        {
            w.put_bit(false);
            proof {
                use_type_invariant(&w);
                bits::lemma_field_len(w.acc as nat, w.nbits as nat);
                assert(w@.len() == start.len() + pad + 1);
                assert(w@ =~= start + bits::zeros(pad + 1));
                pad = pad + 1;
            }
        }
        assert(pad == (8 - start.len() % 8) % 8);
        let mut out: Vec<u8> = Vec::new();
        proof {
            use_type_invariant(&w);
        }
        std::mem::swap(&mut out, &mut w.bytes);
        assert(bits::of_bytes(out@) =~= start + bits::zeros(pad));
        out
    }
}

} // verus!
