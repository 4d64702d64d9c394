//! Bit sequences as the mathematical model of coded data.
//!
//! A stream is a `Seq<bool>`, most significant bit first. A fixed-width field
//! is [`field`] of its value, and [`value`] reads such a field back.

use vstd::arithmetic::div_mod::*;
use vstd::arithmetic::mul::*;
use vstd::arithmetic::power2::*;
use vstd::prelude::*;

verus! {

/// The low `n` bits of `v`, most significant first.
pub open spec fn field(v: nat, n: nat) -> Seq<bool>
    decreases n,
{
    if n == 0 {
        Seq::empty()
    } else {
        field(v / 2, (n - 1) as nat).push(v % 2 == 1)
    }
}

/// The number that the bits of `s` spell, most significant first.
pub open spec fn value(s: Seq<bool>) -> nat
    decreases s.len(),
{
    if s.len() == 0 {
        0
    } else {
        2 * value(s.drop_last()) + bit_value(s.last())
    }
}

/// A bit as a number.
pub open spec fn bit_value(b: bool) -> nat {
    if b {
        1
    } else {
        0
    }
}

/// The bits of a byte string, each byte most significant bit first.
pub open spec fn of_bytes(data: Seq<u8>) -> Seq<bool> {
    Seq::new(8 * data.len(), |i: int| field(data[i / 8] as nat, 8)[i % 8])
}

/// `code` stands in `bits` at bit position `pos`.
pub open spec fn at(bits: Seq<bool>, pos: nat, code: Seq<bool>) -> bool {
    &&& pos + code.len() <= bits.len()
    &&& bits.subrange(pos as int, (pos + code.len()) as int) == code
}

/// The value of the `n`-bit field at bit position `pos`.
pub open spec fn field_at(bits: Seq<bool>, pos: nat, n: nat) -> nat {
    value(bits.subrange(pos as int, (pos + n) as int))
}

/// `n` bits that are all clear.
pub open spec fn zeros(n: nat) -> Seq<bool> {
    Seq::new(n, |i: int| false)
}

pub broadcast proof fn lemma_field_len(v: nat, n: nat)
    ensures
        #[trigger] field(v, n).len() == n,
    decreases n,
{
    if n > 0 {
        lemma_field_len(v / 2, (n - 1) as nat);
    }
}

/// A field holds its value modulo the field's range.
pub proof fn lemma_value_of_bits(v: nat, n: nat)
    ensures
        v < pow2(n) ==> value(field(v, n)) == v,
    decreases n,
{
    if n == 0 {
        lemma2_to64();
    } else {
        lemma_field_len(v / 2, (n - 1) as nat);
        lemma_value_of_bits(v / 2, (n - 1) as nat);
        lemma_pow2_unfold(n);
        let s = field(v, n);
        assert(s.drop_last() =~= field(v / 2, (n - 1) as nat));
    }
}

/// Writing the value of a bit string into a field of its length gives the bits back.
pub proof fn lemma_bits_of_value(s: Seq<bool>)
    ensures
        field(value(s), s.len()) == s,
    decreases s.len(),
{
    if s.len() > 0 {
        lemma_bits_of_value(s.drop_last());
        let v = value(s);
        assert(v / 2 == value(s.drop_last()) && (v % 2 == 1) == s.last());
        assert(field(v, s.len()) =~= s);
    } else {
        assert(field(value(s), 0) =~= s);
    }
}

pub proof fn lemma_value_bound(s: Seq<bool>)
    ensures
        value(s) < pow2(s.len()),
    decreases s.len(),
{
    if s.len() == 0 {
        lemma2_to64();
    } else {
        lemma_value_bound(s.drop_last());
        lemma_pow2_unfold(s.len());
    }
}

/// Splitting a field: the high part is the quotient, the low part the remainder.
pub proof fn lemma_value_concat(a: Seq<bool>, b: Seq<bool>)
    ensures
        value(a + b) == value(a) * pow2(b.len()) + value(b),
    decreases b.len(),
{
    if b.len() == 0 {
        assert(a + b =~= a);
        lemma2_to64();
        assert(value(a) * pow2(b.len()) == value(a)) by (nonlinear_arith)
            requires
                pow2(b.len()) == 1,
        ;
    } else {
        let ab = a + b;
        assert(ab.drop_last() =~= a + b.drop_last());
        assert(ab.last() == b.last());
        lemma_value_concat(a, b.drop_last());
        lemma_pow2_unfold(b.len());
        let k = pow2((b.len() - 1) as nat);
        assert(2 * (value(a) * k) == value(a) * (2 * k)) by (nonlinear_arith);
    }
}

/// The high `a.len()` bits of a field that holds `a + b`.
pub proof fn lemma_value_prefix(a: Seq<bool>, b: Seq<bool>)
    ensures
        value(a + b) / pow2(b.len()) == value(a),
{
    lemma_value_concat(a, b);
    lemma_value_bound(b);
    lemma_pow2_pos(b.len());
    let p = pow2(b.len()) as int;
    let x = value(a) as int;
    let y = value(b) as int;
    lemma_fundamental_div_mod_converse(x * p + y, p, x, y);
}

/// Bit `i` of a field, counted from its most significant bit.
pub proof fn lemma_field_index(v: nat, n: nat, i: nat)
    requires
        i < n,
    ensures
        field(v, n)[i as int] == ((v / pow2((n - 1 - i) as nat)) % 2 == 1),
    decreases n,
{
    lemma_field_len(v / 2, (n - 1) as nat);
    lemma2_to64();
    if i == n - 1 {
        assert(v / 1 == v);
    } else {
        lemma_field_index(v / 2, (n - 1) as nat, i);
        let k = (n - 2 - i) as nat;
        lemma_pow2_unfold(k + 1);
        lemma_pow2_pos(k);
        lemma_div_denominator(v as int, 2, pow2(k) as int);
    }
}

/// A field of `a + b` bits is the high part followed by the low part.
pub proof fn lemma_field_split(v: nat, a: nat, b: nat)
    ensures
        field(v, a + b) == field(v / pow2(b), a) + field(v, b),
    decreases b,
{
    if b == 0 {
        lemma2_to64();
        assert(v / 1 == v);
        assert(field(v, a) + field(v, 0) =~= field(v, a));
    } else {
        let b1 = (b - 1) as nat;
        lemma_field_split(v / 2, a, b1);
        lemma_pow2_unfold(b);
        lemma_pow2_pos(b1);
        lemma_div_denominator(v as int, 2, pow2(b1) as int);
        assert(v / 2 / pow2(b1) == v / pow2(b));
        assert(field(v, a + b) =~= field(v / 2, a + b1).push(v % 2 == 1));
        assert(field(v, a + b) =~= field(v / pow2(b), a) + field(v, b));
    }
}

/// A field of value zero is all clear.
pub proof fn lemma_field_zero(n: nat)
    ensures
        field(0, n) == zeros(n),
    decreases n,
{
    if n > 0 {
        lemma_field_zero((n - 1) as nat);
    }
    assert(field(0, n) =~= zeros(n));
}

/// Appending a byte appends its eight bits.
pub proof fn lemma_of_bytes_push(data: Seq<u8>, b: u8)
    ensures
        of_bytes(data.push(b)) == of_bytes(data) + field(b as nat, 8),
{
    lemma_field_len(b as nat, 8);
    assert forall|i: int| 0 <= i < 8 * data.len() + 8 implies of_bytes(data.push(b))[i] == (
    of_bytes(data) + field(b as nat, 8))[i] by {
        if i < 8 * data.len() {
            assert(i / 8 < data.len());
        } else {
            assert(i / 8 == data.len() && i % 8 == i - 8 * data.len());
        }
    }
    assert(of_bytes(data.push(b)) =~= of_bytes(data) + field(b as nat, 8));
}

/// The bits of two byte strings in a row.
pub proof fn lemma_of_bytes_concat(a: Seq<u8>, b: Seq<u8>)
    ensures
        of_bytes(a + b) == of_bytes(a) + of_bytes(b),
    decreases b.len(),
{
    if b.len() == 0 {
        assert(a + b =~= a);
        assert(of_bytes(a) + of_bytes(b) =~= of_bytes(a));
    } else {
        lemma_of_bytes_concat(a, b.drop_last());
        lemma_of_bytes_push(a + b.drop_last(), b.last());
        lemma_of_bytes_push(b.drop_last(), b.last());
        assert((a + b.drop_last()).push(b.last()) =~= a + b);
        assert(b.drop_last().push(b.last()) =~= b);
        assert(of_bytes(a + b) =~= of_bytes(a) + of_bytes(b));
    }
}

/// A code that stands at a position stands there part by part.
pub proof fn lemma_at_concat(bits: Seq<bool>, pos: nat, a: Seq<bool>, b: Seq<bool>)
    ensures
        at(bits, pos, a + b) == (at(bits, pos, a) && at(bits, pos + a.len(), b)),
{
    if pos + a.len() + b.len() <= bits.len() {
        let whole = bits.subrange(pos as int, (pos + a.len() + b.len()) as int);
        let l = bits.subrange(pos as int, (pos + a.len()) as int);
        let r = bits.subrange((pos + a.len()) as int, (pos + a.len() + b.len()) as int);
        assert(whole =~= l + r);
        assert((a + b).subrange(0, a.len() as int) =~= a);
        assert((a + b).subrange(a.len() as int, (a + b).len() as int) =~= b);
        assert((l + r).subrange(0, a.len() as int) =~= l);
        assert((l + r).subrange(a.len() as int, (l + r).len() as int) =~= r);
    }
}

/// Where a field stands in a stream, its value is read there.
pub proof fn lemma_field_at(bits: Seq<bool>, pos: nat, v: nat, n: nat)
    requires
        v < pow2(n),
        at(bits, pos, field(v, n)),
    ensures
        pos + n <= bits.len(),
        field_at(bits, pos, n) == v,
{
    lemma_field_len(v, n);
    lemma_value_of_bits(v, n);
}

/// A single bit that stands in a stream is read there.
pub proof fn lemma_bit_at(bits: Seq<bool>, pos: nat, b: bool)
    ensures
        at(bits, pos, seq![b]) == (pos < bits.len() && bits[pos as int] == b),
        pos < bits.len() ==> field_at(bits, pos, 1) == bit_value(bits[pos as int]),
{
    if pos < bits.len() {
        let s = bits.subrange(pos as int, pos + 1int);
        assert(s.drop_last() =~= Seq::<bool>::empty());
        assert(value(Seq::<bool>::empty()) == 0);
        assert(value(s) == 2 * value(s.drop_last()) + bit_value(s.last()));
        assert(s.last() == bits[pos as int]);
        if bits[pos as int] == b {
            assert(s =~= seq![b]);
        } else {
            assert(s[0] != seq![b][0]);
        }
    }
}

/// A field takes in its value modulo the field's range.
pub proof fn lemma_field_mod(v: nat, n: nat)
    ensures
        field(v, n) == field(v % pow2(n), n),
    decreases n,
{
    lemma_pow2_pos(n);
    if n > 0 {
        let m = (n - 1) as nat;
        lemma_pow2_unfold(n);
        lemma_pow2_pos(m);
        let r = v % pow2(n);
        lemma_fundamental_div_mod(v as int, pow2(n) as int);
        let q = v as int / pow2(n) as int;
        let k = pow2(m) as int;
        assert(pow2(n) * q == 2 * (k * q)) by (nonlinear_arith)
            requires
                pow2(n) == 2 * k,
        ;
        assert(v == 2 * (k * q) + r);
        assert(v % 2 == r % 2 && v as int / 2 == k * q + r as int / 2);
        lemma_mul_is_commutative(k, q);
        lemma_fundamental_div_mod_converse(v as int / 2, k, q, r as int / 2);
        lemma_field_mod(v / 2, m);
        lemma_field_mod(r / 2, m);
        lemma_small_mod(r / 2, pow2(m));
    }
}

/// The bytes that bits spell, eight at a time.
pub open spec fn to_bytes(s: Seq<bool>) -> Seq<u8> {
    Seq::new(s.len() / 8, |i: int| value(s.subrange(8 * i, 8 * i + 8)) as u8)
}

/// Bytes are what their bits spell.
pub proof fn lemma_to_bytes(data: Seq<u8>)
    ensures
        to_bytes(of_bytes(data)) == data,
{
    let s = of_bytes(data);
    lemma2_to64();
    assert forall|i: int| 0 <= i < data.len() implies to_bytes(s)[i] == data[i] by {
        let b = field(data[i] as nat, 8);
        lemma_field_len(data[i] as nat, 8);
        assert(s.subrange(8 * i, 8 * i + 8) =~= b) by {
            assert forall|j: int| 0 <= j < 8 implies s.subrange(8 * i, 8 * i + 8)[j] == b[j] by {
                assert((8 * i + j) / 8 == i && (8 * i + j) % 8 == j);
            }
        }
        lemma_value_of_bits(data[i] as nat, 8);
    }
    assert(to_bytes(s) =~= data);
}

/// Whole bytes of bits are what their bytes spell.
pub proof fn lemma_of_to_bytes(s: Seq<bool>)
    requires
        s.len() % 8 == 0,
    ensures
        of_bytes(to_bytes(s)) == s,
{
    lemma2_to64();
    let data = to_bytes(s);
    assert forall|i: int| 0 <= i < s.len() implies of_bytes(data)[i] == s[i] by {
        let k = i / 8;
        let part = s.subrange(8 * k, 8 * k + 8);
        lemma_value_bound(part);
        lemma_bits_of_value(part);
        assert(data[k] == value(part));
        assert(part[i % 8] == s[i]);
    }
    assert(of_bytes(data) =~= s);
}

/// One bit as a number.
pub proof fn lemma_one_bit(bits: Seq<bool>, p: nat)
    requires
        p < bits.len(),
    ensures
        field_at(bits, p, 1) == if bits[p as int] {
            1nat
        } else {
            0
        },
{
    let s = bits.subrange(p as int, p + 1int);
    assert(s.drop_last() =~= Seq::<bool>::empty());
    assert(value(s.drop_last()) == 0);
    assert(value(s) == 2 * value(s.drop_last()) + bit_value(s.last()));
}

} // verus!
