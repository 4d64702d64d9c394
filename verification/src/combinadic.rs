//! Enumerative codes: one code word names a subset of `n` positions with `k`
//! members, numbered by combinadic rank.
//!
//! A subset is a sequence of `n` flags, the highest position first. As a mask, it
//! is the number that the flags spell.

use crate::bit_reader::Sv7BitReader;
use crate::bits;
use crate::coding::{Emit, Parsed};
use crate::error::{Error, Result};
use crate::phased;
use vstd::arithmetic::mul::*;
use vstd::arithmetic::power2::*;
use vstd::prelude::*;

verus! {

/// Number of subsets of `n` positions with `k` members.
pub open spec fn choose_count(n: nat, k: nat) -> nat
    decreases n,
{
    if k == 0 {
        1
    } else if n == 0 {
        0
    } else {
        choose_count((n - 1) as nat, (k - 1) as nat) + choose_count((n - 1) as nat, k)
    }
}

/// Number of set flags.
pub open spec fn ones(s: Seq<bool>) -> nat
    decreases s.len(),
{
    if s.len() == 0 {
        0
    } else {
        bits::bit_value(s[0]) + ones(s.drop_first())
    }
}

/// Rank of a subset among those with `k` members.
pub open spec fn rank(s: Seq<bool>, k: nat) -> nat
    decreases s.len(),
{
    if s.len() == 0 || k == 0 {
        0
    } else if s[0] {
        choose_count((s.len() - 1) as nat, k) + rank(s.drop_first(), (k - 1) as nat)
    } else {
        rank(s.drop_first(), k)
    }
}

/// The subset of `n` positions with `k` members that has rank `c`.
pub open spec fn subset(c: nat, k: nat, n: nat) -> Seq<bool>
    decreases n,
{
    if n == 0 {
        Seq::empty()
    } else if k > 0 && c >= choose_count((n - 1) as nat, k) {
        seq![true] + subset(
            (c - choose_count((n - 1) as nat, k)) as nat,
            (k - 1) as nat,
            (n - 1) as nat,
        )
    } else {
        seq![false] + subset(c, k, (n - 1) as nat)
    }
}

/// The positions that a subset leaves out.
pub open spec fn complement(s: Seq<bool>) -> Seq<bool> {
    Seq::new(s.len(), |i: int| !s[i])
}

/// The code word of a subset with `k` members.
pub open spec fn code(s: Seq<bool>, k: nat) -> Seq<bool> {
    phased::code(rank(s, k), choose_count(s.len(), k))
}

/// Outcome of decoding a subset of `n` positions with `k` members.
pub open spec fn parse(bits: Seq<bool>, pos: nat, k: nat, n: nat) -> Parsed<Seq<bool>> {
    match phased::parse(bits, pos, choose_count(n, k)) {
        (Ok(c), p) => (Ok(subset(c as nat, k, n)), p),
        (Err(e), p) => (Err(e), p),
    }
}

/// What writing the subset `mask` of `n` positions appends: nothing unless it has
/// exactly `k` members, all within the low `n` positions.
pub open spec fn emit(mask: u32, k: nat, n: nat) -> Emit {
    if mask < pow2(n) && ones(bits::field(mask as nat, n)) == k {
        Emit::of(code(bits::field(mask as nat, n), k))
    } else {
        Emit::fail(Error::SampleOutOfRange(mask as i32))
    }
}

/// A subset as a set: its members counted, and the smaller of the set and its
/// complement coded. Sets of none and of all positions need no code word.
pub open spec fn set_code(s: Seq<bool>) -> Seq<bool> {
    let cnt = ones(s);
    if cnt == 0 || cnt == s.len() {
        Seq::empty()
    } else if cnt > s.len() / 2 {
        code(complement(s), (s.len() - cnt) as nat)
    } else {
        code(s, cnt)
    }
}

/// Outcome of decoding a set of `cnt` out of `n` positions.
pub open spec fn parse_set(bits: Seq<bool>, pos: nat, cnt: nat, n: nat) -> Parsed<Seq<bool>> {
    if cnt == 0 {
        (Ok(bits::zeros(n)), pos)
    } else if cnt >= n {
        (Ok(complement(bits::zeros(n))), pos)
    } else if cnt > n / 2 {
        match parse(bits, pos, (n - cnt) as nat, n) {
            (Ok(s), p) => (Ok(complement(s)), p),
            (Err(e), p) => (Err(e), p),
        }
    } else {
        parse(bits, pos, cnt, n)
    }
}

pub proof fn lemma_choose_above(n: nat, k: nat)
    requires
        k > n,
    ensures
        choose_count(n, k) == 0,
    decreases n,
{
    if n > 0 {
        lemma_choose_above((n - 1) as nat, (k - 1) as nat);
        lemma_choose_above((n - 1) as nat, k);
    }
}

pub proof fn lemma_choose_all(n: nat)
    ensures
        choose_count(n, n) == 1,
    decreases n,
{
    if n > 0 {
        lemma_choose_all((n - 1) as nat);
        lemma_choose_above((n - 1) as nat, n);
    }
}

pub proof fn lemma_choose_positive(n: nat, k: nat)
    requires
        k <= n,
    ensures
        choose_count(n, k) >= 1,
    decreases n,
{
    if k > 0 {
        lemma_choose_positive((n - 1) as nat, (k - 1) as nat);
    }
}

/// There are at most 2^(n-1) subsets of any one size.
pub proof fn lemma_choose_bound(n: nat, k: nat)
    requires
        n >= 1,
    ensures
        choose_count(n, k) <= pow2((n - 1) as nat),
    decreases n,
{
    lemma2_to64();
    lemma_pow2_pos((n - 1) as nat);
    if k > 0 {
        if n == 1 {
            assert(choose_count(0, k) == 0);
            assert(choose_count(0, (k - 1) as nat) <= 1);
            assert(choose_count(n, k) == choose_count(0, (k - 1) as nat) + choose_count(0, k));
        } else {
            lemma_choose_bound((n - 1) as nat, (k - 1) as nat);
            lemma_choose_bound((n - 1) as nat, k);
            lemma_pow2_unfold((n - 1) as nat);
        }
    }
}

pub proof fn lemma_choose_bound_u32(n: nat, k: nat)
    requires
        n <= 32,
    ensures
        choose_count(n, k) <= 0x8000_0000,
{
    lemma2_to64();
    if n >= 1 {
        lemma_choose_bound(n, k);
        if n < 32 {
            lemma_pow2_strictly_increases((n - 1) as nat, 31);
        }
    }
}

pub proof fn lemma_choose_symmetric(n: nat, k: nat)
    requires
        k <= n,
    ensures
        choose_count(n, k) == choose_count(n, (n - k) as nat),
    decreases n,
{
    if k == 0 {
        lemma_choose_all(n);
    } else if k == n {
        lemma_choose_all(n);
    } else {
        lemma_choose_symmetric((n - 1) as nat, (k - 1) as nat);
        lemma_choose_symmetric((n - 1) as nat, k);
    }
}

/// The step of the multiplicative recurrence.
pub proof fn lemma_choose_step(n: nat, k: nat)
    requires
        k < n,
    ensures
        choose_count(n, k + 1) * (k + 1) == choose_count(n, k) * (n - k),
    decreases n,
{
    let m = (n - 1) as nat;
    if k == 0 {
        lemma_choose_one(n);
        assert(choose_count(n, 1) * 1 == 1 * (n - 0)) by (nonlinear_arith)
            requires
                choose_count(n, 1) == n,
        ;
    } else {
        let j = (k - 1) as nat;
        let a = choose_count(m, j) as int;
        let b = choose_count(m, k) as int;
        let c = choose_count(m, k + 1) as int;
        lemma_choose_step(m, j);
        assert(b * k == a * (m - j));
        if k < m {
            lemma_choose_step(m, k);
        } else {
            lemma_choose_above(m, k + 1);
            assert(c * (k + 1) == b * (m - k)) by (nonlinear_arith)
                requires
                    c == 0,
                    m == k,
            ;
        }
        assert(c * (k + 1) == b * (m - k));
        assert((b + c) * (k + 1) == (a + b) * (n - k)) by (nonlinear_arith)
            requires
                b * k == a * (m - j),
                c * (k + 1) == b * (m - k),
                m == n - 1,
                j == k - 1,
        ;
    }
}

pub proof fn lemma_choose_one(n: nat)
    ensures
        choose_count(n, 1) == n,
    decreases n,
{
    if n > 0 {
        lemma_choose_one((n - 1) as nat);
        assert(choose_count((n - 1) as nat, 0) == 1);
    }
}

pub proof fn lemma_ones_bound(s: Seq<bool>)
    ensures
        ones(s) <= s.len(),
    decreases s.len(),
{
    if s.len() > 0 {
        lemma_ones_bound(s.drop_first());
    }
}

pub proof fn lemma_ones_complement(s: Seq<bool>)
    ensures
        ones(complement(s)) == s.len() - ones(s),
    decreases s.len(),
{
    if s.len() > 0 {
        lemma_ones_complement(s.drop_first());
        assert(complement(s).drop_first() =~= complement(s.drop_first()));
    }
}

/// Sets without a member and without a gap are what their size says.
pub proof fn lemma_ones_extremes(s: Seq<bool>)
    ensures
        ones(s) == 0 ==> s == bits::zeros(s.len()),
        ones(s) == s.len() ==> s == complement(bits::zeros(s.len())),
    decreases s.len(),
{
    if s.len() > 0 {
        let t = s.drop_first();
        lemma_ones_extremes(t);
        lemma_ones_bound(t);
        assert(seq![s[0]] + t =~= s);
        if ones(s) == 0 {
            assert(s =~= bits::zeros(s.len()));
        }
        if ones(s) == s.len() {
            assert(s =~= complement(bits::zeros(s.len()))) by {
                assert forall|i: int| 0 <= i < s.len() implies s[i] by {
                    if i > 0 {
                        assert(s[i] == t[i - 1]);
                        assert(t[i - 1] == complement(bits::zeros(t.len()))[i - 1]);
                    }
                }
            }
        }
    } else {
        assert(s =~= bits::zeros(0));
        assert(s =~= complement(bits::zeros(0)));
    }
}

pub proof fn lemma_ones_zeros(n: nat)
    ensures
        ones(bits::zeros(n)) == 0,
        ones(complement(bits::zeros(n))) == n,
    decreases n,
{
    lemma_ones_complement(bits::zeros(n));
    if n > 0 {
        assert(bits::zeros(n).drop_first() =~= bits::zeros((n - 1) as nat));
        lemma_ones_zeros((n - 1) as nat);
    }
}

/// A subset is found again by its rank.
pub proof fn lemma_subset_of_rank(s: Seq<bool>, k: nat)
    requires
        ones(s) == k,
    ensures
        rank(s, k) < choose_count(s.len(), k),
        subset(rank(s, k), k, s.len()) == s,
    decreases s.len(),
{
    lemma_ones_bound(s);
    if s.len() == 0 {
        assert(subset(0, k, 0) =~= s);
    } else {
        let t = s.drop_first();
        let m = t.len();
        assert(seq![s[0]] + t =~= s);
        if s[0] {
            lemma_subset_of_rank(t, (k - 1) as nat);
        } else {
            lemma_subset_of_rank(t, k);
            if k == 0 {
                assert(rank(t, k) == 0);
            }
        }
        assert(subset(rank(s, k), k, s.len()) =~= s);
    }
}

/// Every rank below the number of subsets names a subset of that size.
pub proof fn lemma_rank_of_subset(c: nat, k: nat, n: nat)
    requires
        c < choose_count(n, k),
    ensures
        subset(c, k, n).len() == n,
        ones(subset(c, k, n)) == k,
        rank(subset(c, k, n), k) == c,
    decreases n,
{
    if n > 0 {
        let m = (n - 1) as nat;
        let s = subset(c, k, n);
        if k > 0 && c >= choose_count(m, k) {
            lemma_rank_of_subset((c - choose_count(m, k)) as nat, (k - 1) as nat, m);
            assert(s.drop_first() =~= subset((c - choose_count(m, k)) as nat, (k - 1) as nat, m));
        } else {
            lemma_rank_of_subset(c, k, m);
            assert(s.drop_first() =~= subset(c, k, m));
        }
    } else if k > 0 {
        assert(choose_count(0, k) == 0);
    }
}

pub proof fn lemma_subset_len(c: nat, k: nat, n: nat)
    ensures
        subset(c, k, n).len() == n,
    decreases n,
{
    if n > 0 {
        let m = (n - 1) as nat;
        if k > 0 && c >= choose_count(m, k) {
            lemma_subset_len((c - choose_count(m, k)) as nat, (k - 1) as nat, m);
        } else {
            lemma_subset_len(c, k, m);
        }
    }
}

/// A written subset reads back.
pub proof fn lemma_reads_back(bits: Seq<bool>, pos: nat, s: Seq<bool>)
    requires
        s.len() <= 32,
        bits::at(bits, pos, code(s, ones(s))),
    ensures
        parse(bits, pos, ones(s), s.len()) == (
            Ok::<Seq<bool>, Error>(s),
            pos + code(s, ones(s)).len(),
        ),
{
    let k = ones(s);
    lemma_subset_of_rank(s, k);
    lemma_choose_bound_u32(s.len(), k);
    phased::lemma_reads_back(bits, pos, rank(s, k), choose_count(s.len(), k));
}

/// A decoded subset has the asked-for size, and its code word is what was read.
pub proof fn lemma_writes_back(bits: Seq<bool>, pos: nat, k: nat, n: nat)
    requires
        k <= n <= 32,
        pos <= bits.len(),
        parse(bits, pos, k, n).0 is Ok,
    ensures
        parse(bits, pos, k, n).0->Ok_0.len() == n,
        ones(parse(bits, pos, k, n).0->Ok_0) == k,
        bits::at(bits, pos, code(parse(bits, pos, k, n).0->Ok_0, k)),
        parse(bits, pos, k, n).1 == pos + code(parse(bits, pos, k, n).0->Ok_0, k).len(),
{
    lemma_choose_bound_u32(n, k);
    lemma_choose_positive(n, k);
    phased::lemma_writes_back(bits, pos, choose_count(n, k));
    let c = phased::parse(bits, pos, choose_count(n, k)).0->Ok_0 as nat;
    lemma_rank_of_subset(c, k, n);
}

pub proof fn lemma_complement_twice(s: Seq<bool>)
    ensures
        complement(complement(s)) == s,
{
    assert(complement(complement(s)) =~= s);
}

/// A written set reads back, given its size.
pub proof fn lemma_set_reads_back(bits: Seq<bool>, pos: nat, s: Seq<bool>)
    requires
        s.len() <= 32,
        bits::at(bits, pos, set_code(s)),
    ensures
        parse_set(bits, pos, ones(s), s.len()) == (
            Ok::<Seq<bool>, Error>(s),
            pos + set_code(s).len(),
        ),
{
    let cnt = ones(s);
    lemma_ones_bound(s);
    lemma_ones_extremes(s);
    if cnt == 0 || cnt == s.len() {
    } else if cnt > s.len() / 2 {
        lemma_ones_complement(s);
        lemma_complement_twice(s);
        lemma_reads_back(bits, pos, complement(s));
    } else {
        lemma_reads_back(bits, pos, s);
    }
}

/// A decoded set has the asked-for size, and its code is what was read.
pub proof fn lemma_set_writes_back(bits: Seq<bool>, pos: nat, cnt: nat, n: nat)
    requires
        cnt <= n <= 32,
        pos <= bits.len(),
        parse_set(bits, pos, cnt, n).0 is Ok,
    ensures
        parse_set(bits, pos, cnt, n).0->Ok_0.len() == n,
        ones(parse_set(bits, pos, cnt, n).0->Ok_0) == cnt,
        bits::at(bits, pos, set_code(parse_set(bits, pos, cnt, n).0->Ok_0)),
        parse_set(bits, pos, cnt, n).1 == pos + set_code(
            parse_set(bits, pos, cnt, n).0->Ok_0,
        ).len(),
{
    lemma_ones_zeros(n);
    if cnt == 0 || cnt == n {
        assert(bits.subrange(pos as int, pos as int) =~= Seq::<bool>::empty());
    } else if cnt > n / 2 {
        lemma_writes_back(bits, pos, (n - cnt) as nat, n);
        let t = parse(bits, pos, (n - cnt) as nat, n).0->Ok_0;
        lemma_ones_complement(t);
        lemma_complement_twice(t);
    } else {
        lemma_writes_back(bits, pos, cnt, n);
    }
}

/// The mask of a complement is what is missing to the full mask.
pub proof fn lemma_value_complement(s: Seq<bool>)
    ensures
        bits::value(complement(s)) == pow2(s.len()) - 1 - bits::value(s),
    decreases s.len(),
{
    if s.len() == 0 {
        lemma2_to64();
    } else {
        lemma_value_complement(s.drop_last());
        assert(complement(s).drop_last() =~= complement(s.drop_last()));
        lemma_pow2_unfold(s.len());
    }
}

/// Number of subsets of `n` positions with `k` members.
pub fn binomial(n: u32, k: u32) -> (c: u32)
    requires
        n <= 32,
    ensures
        c == choose_count(n as nat, k as nat),
        c <= 0x8000_0000,
{
    if k > n {
        proof {
            lemma_choose_above(n as nat, k as nat);
        }
        return 0;
    }
    let small: u32 = if k > n - k { n - k } else { k };
    proof {
        lemma_choose_symmetric(n as nat, k as nat);
    }
    let mut num: u64 = 1;
    let mut i: u32 = 0;
    while i < small
        invariant
            i <= small,
            small <= n,
            n <= 32,
            num == choose_count(n as nat, i as nat),
        decreases small - i,
    {
        proof {
            lemma_choose_step(n as nat, i as nat);
            lemma_choose_bound_u32(n as nat, i as nat);
            let next = choose_count(n as nat, (i + 1) as nat) as int;
            let factor = (i + 1) as int;
            assert(num * (n - i) <= 0x8000_0000 * 32) by (nonlinear_arith)
                requires
                    0 <= num <= 0x8000_0000,
                    0 <= n - i <= 32,
            ;
            assert(num as int * (n - i) == next * factor);
            vstd::arithmetic::div_mod::lemma_div_multiples_vanish(next, factor);
            lemma_mul_is_commutative(next, factor);
        }
        num = num * (n - i) as u64 / (i + 1) as u64;
        i = i + 1;
    }
    proof {
        lemma_choose_bound_u32(n as nat, small as nat);
    }
    num as u32
}

/// The mask of the subset of `n` positions with `k` members that has the number `first`.
pub fn subset_mask(first: u32, k: u32, n: u32) -> (mask: u32)
    requires
        n <= 32,
    ensures
        mask == bits::value(subset(first as nat, k as nat, n as nat)),
        subset(first as nat, k as nat, n as nat).len() == n,
{
    let mut code: u32 = first;
    let mut kk: u32 = k;
    let mut m: u32 = n;
    let mut mask: u64 = 0;
    let ghost all = subset(first as nat, k as nat, n as nat);
    proof {
        lemma_subset_len(first as nat, k as nat, n as nat);
        lemma2_to64();
        assert(pow2(m as nat) * 0 == 0);
    }
    while m > 0
        invariant
            m <= n <= 32,
            all.len() == n,
            mask < pow2((n - m) as nat),
            subset(code as nat, kk as nat, m as nat).len() == m,
            mask == bits::value(all.take(n - m)),
            all.skip(n - m) == subset(code as nat, kk as nat, m as nat),
        decreases m,
    {
        let ghost rest = all.skip(n - m);
        let ghost head = all.take(n - m);
        m = m - 1;
        let c: u32 = binomial(m, kk);
        let hit: bool = kk > 0 && code >= c;
        proof {
            assert(hit == rest[0]);
            assert(all.take(n - m).drop_last() =~= head);
            assert(all.take(n - m).last() == rest[0]);
            lemma_pow2_unfold((n - m) as nat);
            lemma2_to64();
            if n - m < 32 {
                lemma_pow2_strictly_increases((n - m) as nat, 32);
            }
        }
        if hit {
            mask = 2 * mask + 1;
            code = code - c;
            kk = kk - 1;
        } else {
            mask = 2 * mask;
        }
        proof {
            lemma_subset_len(code as nat, kk as nat, m as nat);
            assert(all.skip(n - m) =~= rest.drop_first());
            assert(rest.drop_first() =~= subset(code as nat, kk as nat, m as nat));
        }
    }
    proof {
        assert(all.take(n as int) =~= all);
        lemma2_to64();
        if n < 32 {
            lemma_pow2_strictly_increases(n as nat, 32);
        }
    }
    mask as u32
}

/// Decodes a subset of `n` positions with `k` members; the result is its mask.
pub fn enum_decode_subset(reader: &mut Sv7BitReader<'_>, k: u32, n: u32) -> (r: Result<u32>)
    requires
        n <= 32,
    ensures
        final(reader)@.bits == old(reader)@.bits,
        match parse(old(reader)@.bits, old(reader)@.pos, k as nat, n as nat) {
            (Ok(s), p) => r == Ok::<u32, Error>(bits::value(s) as u32) && s.len() == n
                && final(reader)@.pos == p,
            (Err(e), p) => r == Err::<u32, Error>(e) && final(reader)@.pos == p,
        },
{
    let total: u32 = binomial(n, k);
    let first: u32 = phased::read_value(reader, total)?;
    Ok(subset_mask(first, k, n))
}

/// Number of set bits among the low `n` bits of `mask`.
pub fn count_ones(mask: u32, n: u32) -> (c: u32)
    requires
        n <= 32,
    ensures
        c == ones(bits::field(mask as nat, n as nat)),
        c <= n,
{
    let ghost all = bits::field(mask as nat, n as nat);
    proof {
        bits::lemma_field_len(mask as nat, n as nat);
        assert(all.take(n as int) =~= all);
    }
    let mut c: u32 = 0;
    let mut rest: u32 = mask;
    let mut m: u32 = n;
    while m > 0
        invariant
            m <= n <= 32,
            all.len() == n,
            c <= n - m,
            all.take(m as int) == bits::field(rest as nat, m as nat),
            c + ones(all.take(m as int)) == ones(all),
        decreases m,
    {
        proof {
            let head = all.take(m as int);
            bits::lemma_field_len((rest / 2) as nat, (m - 1) as nat);
            assert(head.drop_last() =~= all.take(m - 1));
            assert(head.drop_last() =~= bits::field((rest / 2) as nat, (m - 1) as nat));
            lemma_ones_last(head);
        }
        if rest % 2 == 1 {
            c = c + 1;
        }
        rest = rest / 2;
        m = m - 1;
    }
    c
}

pub proof fn lemma_ones_last(s: Seq<bool>)
    requires
        s.len() > 0,
    ensures
        ones(s) == ones(s.drop_last()) + bits::bit_value(s.last()),
    decreases s.len(),
{
    if s.len() == 1 {
        assert(s.drop_first() =~= Seq::<bool>::empty());
        assert(s.drop_last() =~= Seq::<bool>::empty());
        assert(ones(Seq::<bool>::empty()) == 0);
    } else {
        lemma_ones_last(s.drop_first());
        assert(s.drop_first().drop_last() =~= s.drop_last().drop_first());
    }
}

/// The combinadic rank of the low `n` bits of `mask`, which has `k` members there.
pub fn mask_rank(mask: u32, k: u32, n: u32) -> (c: u32)
    requires
        n <= 32,
        ones(bits::field(mask as nat, n as nat)) == k,
    ensures
        c == rank(bits::field(mask as nat, n as nat), k as nat),
{
    let ghost all = bits::field(mask as nat, n as nat);
    proof {
        bits::lemma_field_len(mask as nat, n as nat);
        lemma_subset_of_rank(all, k as nat);
        lemma_choose_bound_u32(n as nat, k as nat);
        lemma2_to64();
        assert(all.skip(0) =~= all);
    }
    let mut divisor: u64 = 1;
    let mut j: u32 = 0;
    while j < n
        invariant
            j <= n <= 32,
            divisor == pow2(j as nat),
        decreases n - j,
    {
        proof {
            lemma_pow2_unfold((j + 1) as nat);
            lemma2_to64();
            lemma_pow2_strictly_increases(j as nat, 32);
        }
        divisor = divisor * 2;
        j = j + 1;
    }
    let mut acc: u32 = 0;
    let mut kk: u32 = k;
    let mut m: u32 = n;
    while m > 0
        invariant
            m <= n <= 32,
            all == bits::field(mask as nat, n as nat),
            all.len() == n,
            divisor == pow2(m as nat),
            kk == ones(all.skip(n - m)),
            acc + rank(all.skip(n - m), kk as nat) == rank(all, k as nat),
            rank(all, k as nat) <= 0x8000_0000,
        decreases m,
    {
        let ghost rest = all.skip(n - m);
        proof {
            lemma_pow2_unfold(m as nat);
            lemma_pow2_pos((m - 1) as nat);
            bits::lemma_field_index(mask as nat, n as nat, (n - m) as nat);
            assert(rest[0] == all[n - m]);
            assert(rest.drop_first() =~= all.skip(n - m + 1));
            lemma_choose_bound_u32((m - 1) as nat, kk as nat);
        }
        m = m - 1;
        divisor = divisor / 2;
        if (mask as u64 / divisor) % 2 == 1 {
            acc = acc + binomial(m, kk);
            kk = kk - 1;
        }
    }
    proof {
        assert(all.skip(n as int) =~= Seq::<bool>::empty());
    }
    acc
}

/// The low `n` bits of `mask` as flags, the highest first.
pub fn mask_flags(mask: u32, n: u32) -> (flags: Vec<bool>)
    requires
        n <= 32,
    ensures
        flags@ == bits::field(mask as nat, n as nat),
{
    let ghost all = bits::field(mask as nat, n as nat);
    proof {
        bits::lemma_field_len(mask as nat, n as nat);
        lemma2_to64();
    }
    let mut divisor: u64 = 1;
    let mut j: u32 = 0;
    while j < n
        invariant
            j <= n <= 32,
            divisor == pow2(j as nat),
        decreases n - j,
    {
        proof {
            lemma_pow2_unfold((j + 1) as nat);
            lemma2_to64();
            lemma_pow2_strictly_increases(j as nat, 32);
        }
        divisor = divisor * 2;
        j = j + 1;
    }
    let mut flags: Vec<bool> = Vec::new();
    let mut m: u32 = n;
    while m > 0
        invariant
            m <= n <= 32,
            all == bits::field(mask as nat, n as nat),
            all.len() == n,
            divisor == pow2(m as nat),
            flags@ == all.take(n - m),
        decreases m,
    {
        proof {
            lemma_pow2_unfold(m as nat);
            lemma_pow2_pos((m - 1) as nat);
            bits::lemma_field_index(mask as nat, n as nat, (n - m) as nat);
        }
        divisor = divisor / 2;
        flags.push((mask as u64 / divisor) % 2 == 1);
        m = m - 1;
        assert(flags@ =~= all.take(n - m));
    }
    assert(all.take(n as int) =~= all);
    flags
}

/// The mask of up to 32 flags, the highest first.
pub fn flags_mask(flags: &Vec<bool>) -> (mask: u32)
    requires
        flags@.len() <= 32,
    ensures
        mask == bits::value(flags@),
        bits::field(mask as nat, flags@.len()) == flags@,
        mask < pow2(flags@.len()),
{
    proof {
        lemma2_to64();
    }
    let mut mask: u64 = 0;
    let mut i: usize = 0;
    while i < flags.len()
        invariant
            i <= flags@.len() <= 32,
            mask == bits::value(flags@.take(i as int)),
            mask < pow2(i as nat),
        decreases flags@.len() - i,
    {
        proof {
            let head = flags@.take(i + 1);
            assert(head.drop_last() =~= flags@.take(i as int));
            lemma_pow2_unfold((i + 1) as nat);
            lemma2_to64();
            if i < 32 {
                lemma_pow2_strictly_increases(i as nat, 32);
            }
        }
        mask = 2 * mask + if flags[i] { 1 } else { 0 };
        i = i + 1;
    }
    proof {
        assert(flags@.take(i as int) =~= flags@);
        bits::lemma_bits_of_value(flags@);
        lemma2_to64();
        if i < 32 {
            lemma_pow2_strictly_increases(i as nat, 32);
        }
    }
    mask as u32
}

/// Decodes a set of `cnt` out of `n` positions as flags, the highest position first.
pub fn decode_set(reader: &mut Sv7BitReader<'_>, cnt: u32, n: u32) -> (r: Result<Vec<bool>>)
    requires
        cnt <= n <= 32,
    ensures
        final(reader)@.bits == old(reader)@.bits,
        match parse_set(old(reader)@.bits, old(reader)@.pos, cnt as nat, n as nat) {
            (Ok(s), p) => r is Ok && r->Ok_0@ == s && s.len() == n && final(reader)@.pos == p,
            (Err(e), p) => r == Err::<Vec<bool>, Error>(e) && final(reader)@.pos == p,
        },
{
    proof {
        lemma2_to64();
        bits::lemma_field_zero(n as nat);
        lemma_value_complement(bits::zeros(n as nat));
        bits::lemma_value_of_bits(0, n as nat);
        lemma_pow2_pos(n as nat);
        if n < 32 {
            lemma_pow2_strictly_increases(n as nat, 32);
            vstd::bits::lemma_u32_shl_is_mul(1, n);
        }
    }
    let full: u32 = if n >= 32 { u32::MAX } else { (1u32 << n) - 1 };
    if cnt == 0 {
        return Ok(mask_flags(0, n));
    }
    if cnt == n {
        proof {
            bits::lemma_bits_of_value(complement(bits::zeros(n as nat)));
        }
        return Ok(mask_flags(full, n));
    }
    if cnt > n / 2 {
        let ghost start = reader@;
        let coded: u32 = enum_decode_subset(reader, n - cnt, n)?;
        let ghost s = parse(start.bits, start.pos, (n - cnt) as nat, n as nat).0->Ok_0;
        proof {
            bits::lemma_value_bound(s);
            lemma_value_complement(s);
            bits::lemma_bits_of_value(complement(s));
        }
        Ok(mask_flags(full - coded, n))
    } else {
        let ghost start = reader@;
        let coded: u32 = enum_decode_subset(reader, cnt, n)?;
        let ghost s = parse(start.bits, start.pos, cnt as nat, n as nat).0->Ok_0;
        proof {
            bits::lemma_value_bound(s);
            bits::lemma_bits_of_value(s);
        }
        Ok(mask_flags(coded, n))
    }
}

} // verus!
