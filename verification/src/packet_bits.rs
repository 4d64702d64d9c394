//! Reading the bits of a packet.

use crate::bit_reader;
use crate::bit_reader::BitCursor;
use crate::bits;
use crate::combinadic;
use crate::error::{Error, Result};
use crate::phased;
use oxideav_core::bits::BitReader;
use oxideav_core::Error as CoreError;
use vstd::arithmetic::power2::*;
use vstd::prelude::*;

verus! {

/// `oxideav_core::Error`, which is carried but never looked into.
#[verifier::external_type_specification]
#[verifier::external_body]
pub struct ExCoreError(CoreError);

/// `oxideav_core::bits::BitReader`, which hands out the bits of a slice of bytes.
#[verifier::external_type_specification]
#[verifier::external_body]
pub struct ExBitReader<'a>(BitReader<'a>);

/// The bits that a reader has yet to hand out, in their order.
pub uninterp spec fn unread(r: BitReader<'_>) -> Seq<bool>;

/// `oxideav_core::bits::BitReader::new`: a reader that has all bits of `data` yet to hand out,
/// those of each byte from the most significant one down.
#[verifier::external_body]
fn open_bits<'a>(data: &'a [u8]) -> (r: BitReader<'a>)
    ensures
        unread(r) == bits::of_bytes(data@),
{
    BitReader::new(data)
}

/// `oxideav_core::bits::BitReader::read_u32`: hands out the next `n` bits as a number. It
/// fails exactly where fewer are left, and then hands out none. What the failure says is left
/// open. For up to 32 bits it does not panic.
#[verifier::external_body]
fn next_bits(reader: &mut BitReader<'_>, n: u32) -> (r: std::result::Result<u32, CoreError>)
    requires
        n <= 32,
    ensures
        match r {
            Ok(v) => {
                &&& n <= unread(*old(reader)).len()
                &&& v == bits::value(unread(*old(reader)).take(n as int))
                &&& unread(*final(reader)) == unread(*old(reader)).skip(n as int)
            },
            Err(_) => n > unread(*old(reader)).len() && unread(*final(reader)) == unread(
                *old(reader),
            ),
        },
    no_unwind
{
    reader.read_u32(n)
}

/// A reader of the bits of a packet, most significant bit first.
pub struct PacketReader<'a> {
    reader: BitReader<'a>,
    whole: Ghost<Seq<bool>>,
}

impl<'a> View for PacketReader<'a> {
    type V = BitCursor;

    closed spec fn view(&self) -> BitCursor {
        BitCursor {
            bits: self.whole@,
            pos: (self.whole@.len() - unread(self.reader).len()) as nat,
        }
    }
}

impl<'a> PacketReader<'a> {
    #[verifier::type_invariant]
    spec fn inv(self) -> bool {
        let left = unread(self.reader);
        left.len() <= self.whole@.len() && left == self.whole@.skip(
            self.whole@.len() - left.len(),
        )
    }

    /// A reader at the first bit of `data`.
    pub fn new(data: &'a [u8]) -> (r: Self)
        ensures
            r@.bits == bits::of_bytes(data@),
            r@.pos == 0,
    {
        let reader: BitReader<'a> = open_bits(data);
        let whole: Ghost<Seq<bool>> = Ghost(bits::of_bytes(data@));
        assert(whole@.skip(0) =~= whole@);
        PacketReader { reader, whole }
    }

    /// Reads a field of up to 32 bits. Where the bits run out the reader stays where it is.
    pub fn read_bits(&mut self, n: u8) -> (r: Result<u32>)
        requires
            n <= 32,
        ensures
            final(self)@.bits == old(self)@.bits,
            (r, final(self)@.pos) == bit_reader::read_field(
                old(self)@.bits,
                old(self)@.pos,
                n as nat,
            ),
    {
        proof {
            use_type_invariant(&*self);
        }
        let ghost bits = self@.bits;
        let ghost pos = self@.pos;
        let ghost left = unread(self.reader);
        proof {
            if n <= left.len() {
                assert(left.skip(n as int) =~= bits.skip((pos + n) as int));
                assert(left.take(n as int) =~= bits.subrange(pos as int, (pos + n) as int));
            }
        }
        match next_bits(&mut self.reader, n as u32) {
            Ok(v) => Ok(v),
            Err(_) => Err(Error::UnexpectedEof),
        }
    }

    /// Reads a value out of a space of `max`.
    pub fn read_phased(&mut self, max: u32) -> (r: Result<u32>)
        requires
            max <= 0x8000_0000,
        ensures
            final(self)@.bits == old(self)@.bits,
            (r, final(self)@.pos) == phased::parse(old(self)@.bits, old(self)@.pos, max as nat),
            r is Ok && max > 0 ==> r->Ok_0 < max,
    {
        let (bitlen, lost) = phased::enum_bitlen_lost(max);
        if max <= 1 {
            return Ok(0);
        }
        proof {
            phased::lemma_width(max as nat);
            phased::lemma_width_bound(max as nat);
            lemma_pow2_unfold(phased::width(max as nat));
            lemma2_to64();
        }
        let ghost start = self@;
        let high: u32 = self.read_bits(bitlen - 1)?;
        proof {
            bits::lemma_value_bound(start.bits.subrange(start.pos as int, start.pos + bitlen - 1));
        }
        if high < lost {
            return Ok(high);
        }
        let ghost mid = self@;
        let low: u32 = self.read_bits(1)?;
        proof {
            bits::lemma_value_bound(mid.bits.subrange(mid.pos as int, mid.pos + 1int));
        }
        Ok((high - lost) + high + low)
    }

    /// Reads a set of `cnt` out of `n` positions.
    pub fn read_set(&mut self, cnt: u32, n: u32) -> (r: Result<Vec<bool>>)
        requires
            cnt <= n <= 32,
        ensures
            final(self)@.bits == old(self)@.bits,
            match combinadic::parse_set(
                old(self)@.bits,
                old(self)@.pos,
                cnt as nat,
                n as nat,
            ) {
                (Ok(s), p) => r is Ok && r->Ok_0@ == s && s.len() == n && final(self)@.pos == p,
                (Err(e), p) => r == Err::<Vec<bool>, Error>(e) && final(self)@.pos == p,
            },
    {
        if cnt == 0 || cnt == n {
            return Ok(flags(cnt == n && n > 0, n));
        }
        let flip: bool = cnt > n / 2;
        let k: u32 = if flip {
            n - cnt
        } else {
            cnt
        };
        let total: u32 = combinadic::binomial(n, k);
        let first: u32 = self.read_phased(total)?;
        let ghost s = combinadic::subset(first as nat, k as nat, n as nat);
        let mask: u32 = combinadic::subset_mask(first, k, n);
        proof {
            bits::lemma_value_bound(s);
            bits::lemma_bits_of_value(s);
        }
        let mut out: Vec<bool> = combinadic::mask_flags(mask, n);
        if flip {
            let mut i: usize = 0;
            while i < out.len()
                invariant
                    i <= out@.len() == n,
                    s.len() == n,
                    forall|j: int| 0 <= j < i ==> #[trigger] out@[j] == !s[j],
                    forall|j: int| i <= j < n ==> #[trigger] out@[j] == s[j],
                decreases out@.len() - i,
            {
                let b: bool = out[i];
                out.set(i, !b);
                i = i + 1;
            }
            assert(out@ =~= combinadic::complement(s));
        }
        Ok(out)
    }
}

/// `n` flags that are all alike.
fn flags(b: bool, n: u32) -> (out: Vec<bool>)
    ensures
        !b ==> out@ == bits::zeros(n as nat),
        b ==> out@ == combinadic::complement(bits::zeros(n as nat)),
{
    let mut out: Vec<bool> = Vec::new();
    let mut i: u32 = 0;
    while i < n
        invariant
            i <= n,
            out@.len() == i,
            forall|j: int| 0 <= j < i ==> #[trigger] out@[j] == b,
        decreases n - i,
    {
        out.push(b);
        i = i + 1;
    }
    if b {
        assert(out@ =~= combinadic::complement(bits::zeros(n as nat)));
    } else {
        assert(out@ =~= bits::zeros(n as nat));
    }
    out
}

} // verus!
