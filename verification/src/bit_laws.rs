//! What bits say: the order of bits in bytes, and the numbering of values and of sets.

use crate::bits;
use crate::combinadic;
use crate::phased;
use vstd::arithmetic::power2::*;
use vstd::prelude::*;

verus! {

/// The bits of a byte come the highest first.
pub proof fn law_bits_of_bytes(data: Seq<u8>, i: int, j: int)
    requires
        0 <= i < data.len(),
        0 <= j < 8,
    ensures
        bits::of_bytes(data).len() == 8 * data.len(),
        bits::of_bytes(data)[8 * i + j] <==> data[i] as nat / pow2((7 - j) as nat) % 2 == 1,
{
    assert((8 * i + j) / 8 == i && (8 * i + j) % 8 == j);
    bits::lemma_field_index(data[i] as nat, 8, j as nat);
}

/// A run of bits is a number, the highest bit first: one more bit doubles it, and the first of
/// the bits counts for the highest power of two.
pub proof fn law_number(s: Seq<bool>, b: bool)
    ensures
        bits::value(Seq::empty()) == 0,
        bits::value(s.push(b)) == 2 * bits::value(s) + if b {
            1nat
        } else {
            0
        },
        bits::value(seq![b] + s) == bits::value(s) + if b {
            pow2(s.len())
        } else {
            0
        },
{
    assert(s.push(b).drop_last() =~= s);
    bits::lemma_value_concat(seq![b], s);
    let one = seq![b];
    assert(one.drop_last() =~= Seq::<bool>::empty());
    assert(bits::value(one.drop_last()) == 0);
    assert(bits::value(one) == bits::bit_value(b));
    let x = bits::value(one);
    let u = pow2(s.len());
    assert(x * u == if x == 1 {
        u
    } else {
        0
    }) by (nonlinear_arith)
        requires
            x == 0 || x == 1,
    ;
}

/// A value of `max` ones, where `max` takes up to `width` bits: the lowest values, as many as
/// the widest number leaves over, take one bit less and stand for themselves; each other is
/// its number less those. A single value takes no bits.
pub proof fn law_phased_value(bits: Seq<bool>, pos: nat, max: nat, width: nat)
    requires
        pos <= bits.len(),
        1 <= max <= 0x8000_0000,
        max == 1 && width == 0 || width >= 1 && pow2((width - 1) as nat) < max <= pow2(width),
        phased::parse(bits, pos, max).0 is Ok,
    ensures
        ({
            let (r, end) = phased::parse(bits, pos, max);
            let v = r->Ok_0;
            let short = pow2(width) - max;
            &&& v < max
            &&& end <= bits.len()
            &&& max == 1 ==> end == pos
            &&& max > 1 && v < short ==> end == pos + width - 1 && bits::field_at(
                bits,
                pos,
                (width - 1) as nat,
            ) == v
            &&& max > 1 && v >= short ==> end == pos + width && bits::field_at(bits, pos, width)
                == v + short
        }),
{
    lemma2_to64();
    phased::lemma_writes_back(bits, pos, max);
    let v = phased::parse(bits, pos, max).0->Ok_0 as nat;
    if max > 1 {
        phased::lemma_width_unique(max, width);
        phased::lemma_width(max);
        let short = (pow2(width) - max) as nat;
        lemma_pow2_unfold(width);
        if v < short {
            bits::lemma_field_len(v, (width - 1) as nat);
            bits::lemma_value_of_bits(v, (width - 1) as nat);
        } else {
            bits::lemma_field_len(v + short, width);
            bits::lemma_value_of_bits(v + short, width);
        }
    }
}

/// Sets of one size are numbered in the order of the numbers that their flags spell, the first
/// flag the highest bit: of two numbers, the larger names the larger set.
pub proof fn law_sets_in_order(c: nat, d: nat, k: nat, n: nat)
    requires
        c < d < combinadic::choose_count(n, k),
    ensures
        combinadic::subset(c, k, n).len() == n,
        combinadic::subset(d, k, n).len() == n,
        combinadic::ones(combinadic::subset(c, k, n)) == k,
        combinadic::ones(combinadic::subset(d, k, n)) == k,
        bits::value(combinadic::subset(c, k, n)) < bits::value(combinadic::subset(d, k, n)),
    decreases n,
{
    combinadic::lemma_rank_of_subset(c, k, n);
    combinadic::lemma_rank_of_subset(d, k, n);
    if n == 0 {
        assert(combinadic::choose_count(0, k) <= 1);
    } else {
        let m = (n - 1) as nat;
        let first = combinadic::choose_count(m, k);
        if k > 0 && d >= first {
            let t = combinadic::subset((d - first) as nat, (k - 1) as nat, m);
            combinadic::lemma_subset_len((d - first) as nat, (k - 1) as nat, m);
            law_number(t, true);
            if c >= first {
                let s = combinadic::subset((c - first) as nat, (k - 1) as nat, m);
                combinadic::lemma_subset_len((c - first) as nat, (k - 1) as nat, m);
                law_number(s, true);
                law_sets_in_order((c - first) as nat, (d - first) as nat, (k - 1) as nat, m);
            } else {
                let s = combinadic::subset(c, k, m);
                combinadic::lemma_subset_len(c, k, m);
                law_number(s, false);
                bits::lemma_value_bound(s);
            }
        } else {
            let s = combinadic::subset(c, k, m);
            let t = combinadic::subset(d, k, m);
            law_number(s, false);
            law_number(t, false);
            assert(c < first) by {
                if k == 0 {
                    assert(combinadic::choose_count(m, 0) == 1);
                    assert(combinadic::choose_count(n, 0) == 1);
                }
            }
            if k == 0 {
                assert(combinadic::choose_count(n, 0) == 1);
            } else {
                law_sets_in_order(c, d, k, m);
            }
        }
    }
}

/// The sets of one size out of `n` places: there is one with no member, and those with one
/// member more are as many as the places left over make them, each counted once for each of
/// its members.
pub proof fn law_set_count(n: nat, k: nat)
    requires
        k < n,
    ensures
        combinadic::choose_count(n, 0) == 1,
        combinadic::choose_count(n, k + 1) * (k + 1) == combinadic::choose_count(n, k) * (n - k),
{
    combinadic::lemma_choose_step(n, k);
}

/// A set of `cnt` out of `n` places takes no bits where it has none or all. Else it is named
/// by its number among the sets of its size, or, where it has more than half of the places, is
/// what the named set of the others leaves. It has `cnt` members.
pub proof fn law_set(bits: Seq<bool>, pos: nat, cnt: nat, n: nat)
    requires
        pos <= bits.len(),
        cnt <= n <= 32,
        combinadic::parse_set(bits, pos, cnt, n).0 is Ok,
    ensures
        ({
            let (r, end) = combinadic::parse_set(bits, pos, cnt, n);
            let s = r->Ok_0;
            let most = 2 * cnt > n;
            let few = if most {
                (n - cnt) as nat
            } else {
                cnt
            };
            let (c, p) = phased::parse(bits, pos, combinadic::choose_count(n, few));
            &&& s.len() == n
            &&& combinadic::ones(s) == cnt
            &&& cnt == 0 || cnt == n ==> end == pos
            &&& 0 < cnt < n ==> c is Ok && end == p && forall|i: int|
                0 <= i < n ==> (#[trigger] s[i] <==> (combinadic::subset(
                    c->Ok_0 as nat,
                    few,
                    n,
                )[i] != most))
        }),
{
    combinadic::lemma_set_writes_back(bits, pos, cnt, n);
    let most = 2 * cnt > n;
    let few = if most {
        (n - cnt) as nat
    } else {
        cnt
    };
    assert(most == (cnt > n / 2));
    let c = phased::parse(bits, pos, combinadic::choose_count(n, few)).0;
    combinadic::lemma_subset_len(c->Ok_0 as nat, few, n);
}

} // verus!
