//! Whether given codes have what the laws ask of them.

use crate::bits;
use crate::coding::Emit;
use crate::sv8_huffman;
use crate::sv8_huffman::{Sv8CanonicalEntry, Sv8CanonicalTable, Sv8TableRole, Sv8TableSet};
use crate::sv8_huffman_encode::encode_symbol;
use crate::sv8_stereo_frame_laws;
use vstd::arithmetic::div_mod::*;
use vstd::arithmetic::mul::*;
use vstd::arithmetic::power2::*;
use vstd::prelude::*;

verus! {

/// How many windows of 16 bits start with a code word of `length` bits.
fn windows(length: u8) -> (step: u32)
    requires
        1 <= length <= 16,
    ensures
        step == pow2((16 - length) as nat),
        1 <= step <= 0x8000,
{
    let shift: u32 = 16 - length as u32;
    proof {
        lemma2_to64();
        if shift < 15 {
            lemma_pow2_strictly_increases(shift as nat, 15);
        }
        lemma_pow2_pos(shift as nat);
        vstd::bits::lemma_u32_shl_is_mul(1, shift);
    }
    1u32 << shift
}

/// The window `peek` decodes to a symbol that is written as the code word it starts with, or
/// to none.
pub open spec fn reverses(t: Sv8CanonicalTable, peek: int) -> bool {
    match sv8_huffman::matching_row(t.lengths@, 0, peek) {
        Some(r) => {
            let e = t.lengths@[r];
            let bin = peek / e.step() as int;
            let i = e.index_of(bin);
            i < t.symbols@.len() ==> t.emit(t.symbols@[i]) == Emit::of(
                bits::field(bin as nat, e.length as nat),
            )
        },
        None => true,
    }
}

/// Code words of one length are the same where their values are.
proof fn lemma_same_word(a: nat, m: nat, b: nat, n: nat)
    requires
        a < pow2(m),
        b < pow2(n),
    ensures
        (bits::field(a, m) == bits::field(b, n)) == (a == b && m == n),
{
    bits::lemma_field_len(a, m);
    bits::lemma_field_len(b, n);
    bits::lemma_value_of_bits(a, m);
    bits::lemma_value_of_bits(b, n);
}

/// A left-justified code word fits its length.
proof fn lemma_fits(code: nat, length: nat)
    requires
        code < 0x1_0000,
        1 <= length <= 16,
    ensures
        code / pow2((16 - length) as nat) < pow2(length),
{
    let low = (16 - length) as nat;
    lemma_pow2_adds(low, length);
    lemma2_to64();
    lemma_pow2_pos(low);
    lemma_fundamental_div_mod(code as int, pow2(low) as int);
    lemma_mod_bound(code as int, pow2(low) as int);
    let q = code as int / pow2(low) as int;
    assert(q < pow2(length)) by (nonlinear_arith)
        requires
            code == pow2(low) * q + code as int % pow2(low) as int,
            0 <= code as int % pow2(low) as int,
            code < pow2(low) * pow2(length),
            pow2(low) > 0,
    ;
}

impl Sv8CanonicalTable {
    /// The code is canonical.
    #[must_use]
    pub fn is_canonical(&self) -> (b: bool)
        ensures
            b == self.canonical(),
    {
        let rows: &[Sv8CanonicalEntry] = self.lengths;
        if self.symbols.len() > 256 {
            return false;
        }
        let mut r: usize = 0;
        while r < rows.len()
            invariant
                rows@ == self.lengths@,
                self.symbols@.len() <= 256,
                r <= rows@.len(),
                forall|q: int|
                    0 <= q < r && (#[trigger] rows@[q]).is_code() ==> rows@[q].code as nat
                        % rows@[q].step() == 0,
                forall|p: int, q: int|
                    0 <= p < q < r && (#[trigger] rows@[p]).is_code() && (
                    #[trigger] rows@[q]).is_code() ==> rows@[p].code > rows@[q].code
                        && rows@[p].length <= rows@[q].length,
            decreases rows@.len() - r,
        {
            let e: Sv8CanonicalEntry = rows[r];
            if e.length >= 1 && e.length <= 16 {
                let step: u32 = windows(e.length);
                assert(rows@[r as int].is_code());
                if e.code as u32 % step != 0 {
                    return false;
                }
                let mut q: usize = 0;
                while q < r
                    invariant
                        rows@ == self.lengths@,
                        q <= r < rows@.len(),
                        e == rows@[r as int],
                        e.is_code(),
                        forall|p: int|
                            0 <= p < q && (#[trigger] rows@[p]).is_code() ==> rows@[p].code
                                > e.code && rows@[p].length <= e.length,
                    decreases r - q,
                {
                    let f: Sv8CanonicalEntry = rows[q];
                    if f.length >= 1 && f.length <= 16 && (f.code <= e.code || f.length
                        > e.length) {
                        assert(rows@[q as int].is_code() && rows@[r as int].is_code());
                        return false;
                    }
                    q = q + 1;
                }
            }
            r = r + 1;
        }
        true
    }

    /// The window `peek` decodes to a symbol that is written as the code word it starts with,
    /// or to none.
    fn reverses_window(&self, peek: u16) -> (b: bool)
        ensures
            b == reverses(*self, peek as int),
    {
        let rows: &[Sv8CanonicalEntry] = self.lengths;
        let mut r: usize = 0;
        while r < rows.len()
            invariant
                rows@ == self.lengths@,
                r <= rows@.len(),
                sv8_huffman::matching_row(rows@, 0, peek as int) == sv8_huffman::matching_row(
                    rows@,
                    r as int,
                    peek as int,
                ),
            decreases rows@.len() - r,
        {
            let e: Sv8CanonicalEntry = rows[r];
            if e.length >= 1 && e.length <= 16 && e.code <= peek {
                let step: u32 = windows(e.length);
                let bin: u32 = peek as u32 / step;
                proof {
                    lemma_fits(peek as nat, e.length as nat);
                }
                let index: usize = ((e.cum_index as i32 + 131072 - bin as i32) as u32
                    % 256) as usize;
                assert(index == e.index_of(bin as int));
                if index >= self.symbols.len() {
                    return true;
                }
                return match encode_symbol(self, self.symbols[index]) {
                    Ok((code, len)) => {
                        proof {
                            let low = pow2((16 - len) as nat) as int;
                            lemma_fits(code as nat, len as nat);
                            lemma_same_word(
                                code as nat / pow2((16 - len) as nat),
                                len as nat,
                                bin as nat,
                                e.length as nat,
                            );
                            lemma_pow2_pos((16 - len) as nat);
                            lemma_fundamental_div_mod(code as int, low);
                            lemma_mul_is_commutative(low, code as int / low);
                            if len == e.length && code == bin * step {
                                lemma_div_multiples_vanish(bin as int, low);
                            }
                            lemma_fundamental_div_mod(peek as int, step as int);
                            lemma_mul_is_commutative(step as int, bin as int);
                        }
                        len == e.length && code as u32 == bin * step
                    },
                    Err(_) => false,
                };
            }
            r = r + 1;
        }
        true
    }

    /// Every code word that decodes to a symbol is the one that the symbol is written with.
    #[must_use]
    pub fn is_reversible(&self) -> (b: bool)
        ensures
            b == self.reversible(),
    {
        let mut peek: u32 = 0;
        while peek < 0x1_0000
            invariant
                peek <= 0x1_0000,
                forall|p: int| 0 <= p < peek ==> #[trigger] reverses(*self, p),
            decreases 0x1_0000 - peek,
        {
            if !self.reverses_window(peek as u16) {
                assert(sv8_huffman::matching_row(self.lengths@, 0, peek as int) is Some);
                return false;
            }
            peek = peek + 1;
        }
        proof {
            assert forall|p: int| 0 <= p < 0x1_0000 implies match #[trigger] sv8_huffman::matching_row(
                self.lengths@,
                0,
                p,
            ) {
                Some(r) => {
                    let e = self.lengths@[r];
                    let bin = p / e.step() as int;
                    let i = e.index_of(bin);
                    i < self.symbols@.len() ==> self.emit(self.symbols@[i]) == Emit::of(
                        bits::field(bin as nat, e.length as nat),
                    )
                },
                None => true,
            } by {
                assert(reverses(*self, p));
            }
        }
        true
    }

    /// The symbols lie in `lo..=hi`.
    fn is_within(&self, lo: i8, hi: i8) -> (b: bool)
        ensures
            b == sv8_stereo_frame_laws::within(*self, lo as int, hi as int),
    {
        let symbols: &[i8] = self.symbols;
        let mut i: usize = 0;
        while i < symbols.len()
            invariant
                symbols@ == self.symbols@,
                i <= symbols@.len(),
                forall|j: int| 0 <= j < i ==> lo <= #[trigger] symbols@[j] <= hi,
            decreases symbols@.len() - i,
        {
            if symbols[i] < lo || symbols[i] > hi {
                assert(!(lo <= self.symbols@[i as int] <= hi));
                return false;
            }
            i = i + 1;
        }
        true
    }
}

/// Something holds of every code of a set.
spec fn of_each(s: Sv8TableSet, p: spec_fn(Sv8CanonicalTable) -> bool) -> bool {
    &&& p(s.bands)
    &&& p(s.res[0])
    &&& p(s.res[1])
    &&& p(s.scfi[0])
    &&& p(s.scfi[1])
    &&& p(s.dscf[0])
    &&& p(s.dscf[1])
    &&& p(s.q1)
    &&& p(s.q2[0])
    &&& p(s.q2[1])
    &&& p(s.q3)
    &&& p(s.q4)
    &&& p(s.q5[0])
    &&& p(s.q5[1])
    &&& p(s.q6[0])
    &&& p(s.q6[1])
    &&& p(s.q7[0])
    &&& p(s.q7[1])
    &&& p(s.q8[0])
    &&& p(s.q8[1])
    &&& p(s.q9up)
}

/// Every code is one for a role in a context, and the other way round.
proof fn lemma_of_each(s: Sv8TableSet, p: spec_fn(Sv8CanonicalTable) -> bool)
    ensures
        of_each(s, p) == (forall|role: Sv8TableRole, ctx: int|
            0 <= ctx < 2 ==> p(#[trigger] s.table(role, ctx))),
{
    if forall|role: Sv8TableRole, ctx: int| 0 <= ctx < 2 ==> p(#[trigger] s.table(role, ctx)) {
        assert(p(s.table(Sv8TableRole::Bands, 0)));
        assert(p(s.table(Sv8TableRole::Res, 0)) && p(s.table(Sv8TableRole::Res, 1)));
        assert(p(s.table(Sv8TableRole::Scfi, 0)) && p(s.table(Sv8TableRole::Scfi, 1)));
        assert(p(s.table(Sv8TableRole::Dscf, 0)) && p(s.table(Sv8TableRole::Dscf, 1)));
        assert(p(s.table(Sv8TableRole::Q1, 0)));
        assert(p(s.table(Sv8TableRole::Q2, 0)) && p(s.table(Sv8TableRole::Q2, 1)));
        assert(p(s.table(Sv8TableRole::Q3, 0)));
        assert(p(s.table(Sv8TableRole::Q4, 0)));
        assert(p(s.table(Sv8TableRole::Q5, 0)) && p(s.table(Sv8TableRole::Q5, 1)));
        assert(p(s.table(Sv8TableRole::Q6, 0)) && p(s.table(Sv8TableRole::Q6, 1)));
        assert(p(s.table(Sv8TableRole::Q7, 0)) && p(s.table(Sv8TableRole::Q7, 1)));
        assert(p(s.table(Sv8TableRole::Q8, 0)) && p(s.table(Sv8TableRole::Q8, 1)));
        assert(p(s.table(Sv8TableRole::Q9up, 0)));
    }
    if of_each(s, p) {
        assert forall|role: Sv8TableRole, ctx: int| 0 <= ctx < 2 implies p(
            #[trigger] s.table(role, ctx),
        ) by {
            assert(ctx == 0 || ctx == 1);
        }
    }
}

impl Sv8TableSet {
    /// Every code is canonical.
    #[must_use]
    pub fn is_canonical(&self) -> (b: bool)
        ensures
            b == self.canonical(),
    {
        proof {
            lemma_of_each(*self, |t: Sv8CanonicalTable| t.canonical());
        }
        let heads: bool = self.bands.is_canonical() && self.res[0].is_canonical()
            && self.res[1].is_canonical() && self.scfi[0].is_canonical()
            && self.scfi[1].is_canonical() && self.dscf[0].is_canonical()
            && self.dscf[1].is_canonical();
        let groups: bool = self.q1.is_canonical() && self.q2[0].is_canonical()
            && self.q2[1].is_canonical() && self.q3.is_canonical() && self.q4.is_canonical();
        let levels: bool = self.q5[0].is_canonical() && self.q5[1].is_canonical()
            && self.q6[0].is_canonical() && self.q6[1].is_canonical()
            && self.q7[0].is_canonical() && self.q7[1].is_canonical()
            && self.q8[0].is_canonical() && self.q8[1].is_canonical()
            && self.q9up.is_canonical();
        heads && groups && levels
    }

    /// Every code is reversible.
    #[must_use]
    pub fn is_reversible(&self) -> (b: bool)
        ensures
            b == self.reversible(),
    {
        proof {
            lemma_of_each(*self, |t: Sv8CanonicalTable| t.reversible());
        }
        let heads: bool = self.bands.is_reversible() && self.res[0].is_reversible()
            && self.res[1].is_reversible() && self.scfi[0].is_reversible()
            && self.scfi[1].is_reversible() && self.dscf[0].is_reversible()
            && self.dscf[1].is_reversible();
        let groups: bool = self.q1.is_reversible() && self.q2[0].is_reversible()
            && self.q2[1].is_reversible() && self.q3.is_reversible() && self.q4.is_reversible();
        let levels: bool = self.q5[0].is_reversible() && self.q5[1].is_reversible()
            && self.q6[0].is_reversible() && self.q6[1].is_reversible()
            && self.q7[0].is_reversible() && self.q7[1].is_reversible()
            && self.q8[0].is_reversible() && self.q8[1].is_reversible()
            && self.q9up.is_reversible();
        heads && groups && levels
    }

    /// Each value of a frame's head and scalefactors has one symbol.
    #[must_use]
    pub fn is_unambiguous(&self) -> (b: bool)
        ensures
            b == sv8_stereo_frame_laws::unambiguous(*self),
    {
        let symbols: &[i8] = self.bands.symbols;
        let mut i: usize = 0;
        while i < symbols.len()
            invariant
                symbols@ == self.bands.symbols@,
                i <= symbols@.len(),
                forall|p: int, q: int|
                    0 <= p < i && 0 <= q < symbols@.len() ==> #[trigger] symbols@[p]
                        - #[trigger] symbols@[q] != 33,
            decreases symbols@.len() - i,
        {
            let mut j: usize = 0;
            while j < symbols.len()
                invariant
                    symbols@ == self.bands.symbols@,
                    i < symbols@.len(),
                    j <= symbols@.len(),
                    forall|q: int|
                        0 <= q < j ==> symbols@[i as int] - #[trigger] symbols@[q] != 33,
                decreases symbols@.len() - j,
            {
                if symbols[i] as i32 - symbols[j] as i32 == 33 {
                    assert(self.bands.symbols@[i as int] - self.bands.symbols@[j as int] == 33);
                    return false;
                }
                j = j + 1;
            }
            i = i + 1;
        }
        self.res[0].is_within(0, 16) && self.res[1].is_within(0, 16) && self.scfi[0].is_within(
            0,
            3,
        ) && self.scfi[1].is_within(0, 15) && self.dscf[0].is_within(0, 63)
            && self.dscf[1].is_within(0, 64)
    }
}

} // verus!
