//! The noise generator of the noise-substituted bands.
//!
//! Two 32-bit shift registers, one running down and one running up, each fed with
//! the parity of some of its own bits. A noise level is the sum of the four bytes
//! of the registers' exclusive or, centred.

use crate::bits;
use crate::combinadic;
use vstd::prelude::*;

verus! {

/// Samples per band and frame.
pub const SAMPLES_PER_BAND: usize = 36;

/// The noise generator.
#[derive(Debug, Clone, Copy, PartialEq, Eq)]
pub struct CnsPrng {
    pub down: u32,
    pub up: u32,
}

/// Parity of the low eight bits of `v`.
pub open spec fn parity(v: u32) -> nat {
    combinadic::ones(bits::field(v as nat, 8)) % 2
}

/// Sum of the four bytes of a word, centred.
pub open spec fn byte_sum(w: u32) -> int {
    w % 256 + w / 256 % 256 + w / 65536 % 256 + w / 16777216 - 510
}

impl CnsPrng {
    /// The generator one step on.
    pub open spec fn next(self) -> CnsPrng {
        CnsPrng {
            down: (self.down / 2 + 0x8000_0000 * parity(self.down & 0xF5)) as u32,
            up: ((2 * self.up) % 0x1_0000_0000 + parity((self.up / 0x200_0000) as u32 & 0x63)) as u32,
        }
    }

    /// The generator `n` steps on.
    pub open spec fn steps(self, n: nat) -> CnsPrng
        decreases n,
    {
        if n == 0 {
            self
        } else {
            self.steps((n - 1) as nat).next()
        }
    }

    /// The noise level that the generator stands at.
    pub open spec fn level(self) -> int {
        byte_sum(self.down ^ self.up)
    }

    /// The noise of one band: the levels of the next steps.
    pub open spec fn noise(self) -> Seq<i32> {
        Seq::new(SAMPLES_PER_BAND as nat, |i: int| self.steps((i + 1) as nat).level() as i32)
    }

    /// The generator at the start of a stream.
    #[must_use]
    pub fn new() -> (p: Self)
        ensures
            p == (CnsPrng { down: 1, up: 1 }),
    {
        CnsPrng { down: 1, up: 1 }
    }

    /// The two registers.
    #[must_use]
    pub fn state(&self) -> (s: (u32, u32))
        ensures
            s == (self.down, self.up),
    {
        (self.down, self.up)
    }

    /// Steps the generator and returns the level it then stands at.
    pub fn next_level(&mut self) -> (level: i32)
        ensures
            *final(self) == old(self).next(),
            level == final(self).level(),
            -510 <= level <= 510,
    {
        let low: u32 = combinadic::count_ones(self.down & 0xF5, 8) % 2;
        let high: u32 = combinadic::count_ones((self.up / 0x200_0000) & 0x63, 8) % 2;
        self.down = self.down / 2 + 0x8000_0000 * low;
        let shifted: u32 = if self.up >= 0x8000_0000 {
            2 * (self.up - 0x8000_0000)
        } else {
            2 * self.up
        };
        self.up = shifted + high;
        let w: u32 = self.down ^ self.up;
        (w % 256 + w / 256 % 256 + w / 65536 % 256 + w / 16777216) as i32 - 510
    }

    /// Fills a band with noise.
    pub fn fill_samples(&mut self, out: &mut [i32; SAMPLES_PER_BAND])
        ensures
            final(out)@ == old(self).noise(),
            *final(self) == old(self).steps(SAMPLES_PER_BAND as nat),
    {
        let ghost start = *self;
        let mut i: usize = 0;
        while i < SAMPLES_PER_BAND
            invariant
                i <= SAMPLES_PER_BAND,
                *self == start.steps(i as nat),
                forall|j: int| 0 <= j < i ==> out@[j] == start.noise()[j],
            decreases SAMPLES_PER_BAND - i,
        {
            out[i] = self.next_level();
            i = i + 1;
        }
        assert(out@ =~= start.noise());
    }
}

/// A noise level is the sum of the four bytes of the registers' exclusive or, less 510.
pub proof fn law_level_sums_bytes(p: CnsPrng, b0: u8, b1: u8, b2: u8, b3: u8)
    requires
        p.down ^ p.up == b0 + 0x100 * b1 + 0x1_0000 * b2 + 0x100_0000 * b3,
    ensures
        p.level() == b0 + b1 + b2 + b3 - 510,
{
    let w = p.down ^ p.up;
    assert(w / 256 == b1 + 0x100 * b2 + 0x1_0000 * b3);
    assert(w / 65536 == b2 + 0x100 * b3);
    assert(w / 16777216 == b3);
}

/// A noise level lies around zero: turning every bit of a register over negates it.
pub proof fn law_level_is_centred(p: CnsPrng)
    ensures
        (CnsPrng { down: p.down, up: !p.up }).level() == -p.level(),
        (CnsPrng { down: !p.down, up: p.up }).level() == -p.level(),
        p.down == p.up ==> p.level() == -510,
        p.down == !p.up ==> p.level() == 510,
{
    let (d, u) = (p.down, p.up);
    let w = d ^ u;
    assert((d ^ !u) == 0xFFFF_FFFF - (d ^ u) && (!d ^ u) == 0xFFFF_FFFF - (d ^ u) && (d == u ==> (d
        ^ u) == 0) && (d == !u ==> (d ^ u) == 0xFFFF_FFFF)) by (bit_vector);
    let (b0, b1, b2, b3) = lemma_bytes(w);
    let (c0, c1, c2, c3) = (
        (255 - b0) as u8,
        (255 - b1) as u8,
        (255 - b2) as u8,
        (255 - b3) as u8,
    );
    law_level_sums_bytes(p, b0, b1, b2, b3);
    law_level_sums_bytes(CnsPrng { down: d, up: !u }, c0, c1, c2, c3);
    law_level_sums_bytes(CnsPrng { down: !d, up: u }, c0, c1, c2, c3);
}

/// A word is made of four bytes.
proof fn lemma_bytes(w: u32) -> (b: (u8, u8, u8, u8))
    ensures
        w == b.0 + 0x100 * b.1 + 0x1_0000 * b.2 + 0x100_0000 * b.3,
        b.0 == w % 256,
        b.1 == w / 0x100 % 256,
        b.2 == w / 0x1_0000 % 256,
        b.3 == w / 0x100_0000 % 256,
{
    assert(w == w % 256 + 0x100 * (w / 0x100 % 256) + 0x1_0000 * (w / 0x1_0000 % 256) + 0x100_0000
        * (w / 0x100_0000 % 256)) by (bit_vector);
    (
        (w % 256) as u8,
        (w / 0x100 % 256) as u8,
        (w / 0x1_0000 % 256) as u8,
        (w / 0x100_0000 % 256) as u8,
    )
}

/// Each byte counts alike: where one byte of the registers' exclusive or is one more, the
/// level is one more.
pub proof fn law_level_counts_each_byte(p: CnsPrng, q: CnsPrng, unit: u32)
    requires
        unit == 1 || unit == 0x100 || unit == 0x1_0000 || unit == 0x100_0000,
        (p.down ^ p.up) / unit % 256 < 255,
        q.down ^ q.up == (p.down ^ p.up) + unit,
    ensures
        q.level() == p.level() + 1,
{
    let (b0, b1, b2, b3) = lemma_bytes(p.down ^ p.up);
    law_level_sums_bytes(p, b0, b1, b2, b3);
    if unit == 1 {
        law_level_sums_bytes(q, (b0 + 1) as u8, b1, b2, b3);
    } else if unit == 0x100 {
        law_level_sums_bytes(q, b0, (b1 + 1) as u8, b2, b3);
    } else if unit == 0x1_0000 {
        law_level_sums_bytes(q, b0, b1, (b2 + 1) as u8, b3);
    } else {
        law_level_sums_bytes(q, b0, b1, b2, (b3 + 1) as u8);
    }
}

/// The registers shift by one bit, one down and one up. What comes in is the parity of six
/// bits of the one, 0, 2, 4, 5, 6 and 7, and of four bits of the other, 25, 26, 30 and 31.
pub proof fn law_registers_shift(p: CnsPrng)
    ensures
        ({
            let d = p.down;
            let u = p.up;
            let low = (d & 1) + (d >> 2 & 1) + (d >> 4 & 1) + (d >> 5 & 1) + (d >> 6 & 1) + (d >> 7
                & 1);
            let high = (u >> 25 & 1) + (u >> 26 & 1) + (u >> 30 & 1) + (u >> 31 & 1);
            &&& p.next().down == d / 2 + 0x8000_0000 * (low % 2)
            &&& p.next().up == 2 * (u % 0x8000_0000) + high % 2
        }),
{
    let d = p.down;
    let u = p.up;
    let x = d & 0xF5;
    let v = u / 0x200_0000;
    let y = v & 0x63;
    assert(x < 256 && x % 2 == d & 1 && x / 2 % 2 == 0 && x / 4 % 2 == d >> 2 & 1 && x / 8 % 2 == 0
        && x / 16 % 2 == d >> 4 & 1 && x / 32 % 2 == d >> 5 & 1 && x / 64 % 2 == d >> 6 & 1 && x
        / 128 % 2 == d >> 7 & 1) by (bit_vector)
        requires
            x == d & 0xF5,
    ;
    assert(y < 256 && y % 2 == u >> 25 & 1 && y / 2 % 2 == u >> 26 & 1 && y / 4 % 2 == 0 && y / 8
        % 2 == 0 && y / 16 % 2 == 0 && y / 32 % 2 == u >> 30 & 1 && y / 64 % 2 == u >> 31 & 1 && y
        / 128 % 2 == 0) by (bit_vector)
        requires
            y == v & 0x63,
            v == u / 0x200_0000,
    ;
    lemma_parity(x);
    lemma_parity(y);
    let a = parity(x);
    let b = parity(y);
    assert(a < 2 && b < 2);
    assert(d / 2 + 0x8000_0000 * a < 0x1_0000_0000);
    assert((2 * u) % 0x1_0000_0000 == 2 * (u % 0x8000_0000));
}

/// The parity of a byte is that of the sum of its bits.
proof fn lemma_parity(v: u32)
    requires
        v < 256,
    ensures
        parity(v) as int == (v % 2 + v / 2 % 2 + v / 4 % 2 + v / 8 % 2 + v / 16 % 2 + v / 32 % 2 + v
            / 64 % 2 + v / 128 % 2) % 2,
{
    reveal_with_fuel(bits::field, 9);
    reveal_with_fuel(combinadic::ones, 9);
    let n = v as nat;
    let s = bits::field(n, 8);
    let bit = |k: nat| n / k % 2 == 1;
    assert(n / 2 / 2 == n / 4 && n / 4 / 2 == n / 8 && n / 8 / 2 == n / 16 && n / 16 / 2 == n / 32
        && n / 32 / 2 == n / 64 && n / 64 / 2 == n / 128);
    assert(s =~= seq![
        bit(128),
        bit(64),
        bit(32),
        bit(16),
        bit(8),
        bit(4),
        bit(2),
        bit(1),
    ]);
}

/// The noise of a band starts behind the first step and goes on step by step; that of the
/// next band follows on.
pub proof fn law_noise_goes_on(p: CnsPrng, k: int)
    requires
        0 <= k < 35,
    ensures
        p.noise().len() == 36,
        p.noise()[0] == p.next().level(),
        p.noise()[k + 1] == p.next().noise()[k],
        p.steps(36).noise()[0] == p.next().noise()[35],
{
    lemma_step_first(p, (k + 1) as nat);
    lemma_step_first(p, 36);
    lemma_level_range(p.next());
    reveal_with_fuel(CnsPrng::steps, 2);
}

/// The first of some steps can be taken by itself.
proof fn lemma_step_first(p: CnsPrng, n: nat)
    ensures
        p.next().steps(n) == p.steps(n + 1),
    decreases n,
{
    reveal_with_fuel(CnsPrng::steps, 2);
    if n > 0 {
        lemma_step_first(p, (n - 1) as nat);
    }
}

proof fn lemma_level_range(p: CnsPrng)
    ensures
        -510 <= p.level() <= 510,
{
}

impl Default for CnsPrng {
    fn default() -> (p: Self)
        ensures
            p == (CnsPrng { down: 1, up: 1 }),
    {
        CnsPrng::new()
    }
}

} // verus!
