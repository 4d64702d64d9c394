//! What the bits of a seek table say: the positions, by the bytes and the bits that they are
//! read from.

use crate::bits;
use crate::coding;
use crate::error::Error;
use crate::sv8_seek;
use vstd::arithmetic::power2::*;
use vstd::prelude::*;

verus! {

/// An integer at any bit is bytes up to the first below 128, ten at most, each with seven bits,
/// the highest first, modulo 2^64. What the first bytes come to is returned, for every number
/// of them.
pub proof fn law_bit_varint(bits: Seq<bool>, pos: nat) -> (parts: Seq<nat>)
    requires
        sv8_seek::parse_bit_varint(bits, pos).0 is Ok,
    ensures
        ({
            let (r, end) = sv8_seek::parse_bit_varint(bits, pos);
            let n = parts.len() - 1;
            &&& 1 <= n <= 10
            &&& end == pos + 8 * n <= bits.len()
            &&& parts[0] == 0
            &&& parts[n] == r->Ok_0
            &&& forall|i: int|
                0 <= i < n ==> {
                    let byte = bits::field_at(bits, (pos + 8 * i) as nat, 8);
                    &&& #[trigger] parts[i + 1] == (128 * parts[i] + byte as int % 128)
                        % 0x1_0000_0000_0000_0000
                    &&& byte < 128 <==> i == n - 1
                }
        }),
{
    lemma_varint_from(bits, pos, 0, 0)
}

proof fn lemma_varint_from(bits: Seq<bool>, pos: nat, k: nat, acc: nat) -> (parts: Seq<nat>)
    requires
        k <= 10,
        acc < 0x1_0000_0000_0000_0000,
        sv8_seek::read_bit_varint_from(bits, pos, k, acc).0 is Ok,
    ensures
        ({
            let (r, end) = sv8_seek::read_bit_varint_from(bits, pos, k, acc);
            let n = parts.len() - 1;
            &&& 1 <= n <= 10 - k
            &&& end == pos + 8 * n <= bits.len()
            &&& parts[0] == acc
            &&& parts[n] == r->Ok_0
            &&& forall|i: int|
                0 <= i < n ==> {
                    let byte = bits::field_at(bits, (pos + 8 * i) as nat, 8);
                    &&& #[trigger] parts[i + 1] == (128 * parts[i] + byte as int % 128)
                        % 0x1_0000_0000_0000_0000
                    &&& byte < 128 <==> i == n - 1
                }
        }),
    decreases 10 - k,
{
    bits::lemma_value_bound(bits.subrange(pos as int, pos + 8int));
    lemma2_to64();
    let b = bits::field_at(bits, pos, 8);
    let v = (acc * 128 + b % 128) % 0x1_0000_0000_0000_0000;
    if b < 128 {
        seq![acc, v]
    } else {
        let rest = lemma_varint_from(bits, pos + 8, k + 1, v);
        let parts = seq![acc] + rest;
        let n = parts.len() - 1;
        assert forall|i: int| 0 <= i < n implies {
            let byte = bits::field_at(bits, (pos + 8 * i) as nat, 8);
            &&& #[trigger] parts[i + 1] == (128 * parts[i] + byte as int % 128)
                % 0x1_0000_0000_0000_0000
            &&& byte < 128 <==> i == n - 1
        } by {
            if i > 0 {
                assert(parts[i + 1] == rest[(i - 1) + 1]);
                assert(parts[i] == rest[i - 1]);
                assert(pos + 8 + 8 * (i - 1) == pos + 8 * i);
            }
        }
        parts
    }
}

/// A difference is a run of clear bits up to a set one, for 4096 each, and twelve bits. The
/// lowest bit of the number is the sign, and the others are the size. The length of the run is
/// returned.
pub proof fn law_difference(bits: Seq<bool>, pos: nat) -> (run: nat)
    requires
        sv8_seek::parse_difference(bits, pos).0 is Ok,
    ensures
        ({
            let (d, end) = sv8_seek::parse_difference(bits, pos);
            let at = pos + run;
            let code = 4096 * run + bits::field_at(bits, at + 1, 12);
            let size = code as int / 2;
            &&& end == at + 13 <= bits.len()
            &&& bits[at as int]
            &&& forall|i: int| pos <= i < at ==> !(#[trigger] bits[i])
            &&& d->Ok_0 == if code as int % 2 == 0 {
                size
            } else {
                -size
            }
        }),
{
    let l = lemma_run(bits, pos, 0);
    let p = sv8_seek::parse_run(bits, pos, 0).1;
    bits::lemma_value_bound(bits.subrange(p as int, p + 12int));
    lemma2_to64();
    l
}

proof fn lemma_run(bits: Seq<bool>, pos: nat, l: nat) -> (more: nat)
    requires
        l <= sv8_seek::SEEK_RUN_BOUND,
        sv8_seek::parse_run(bits, pos, l).0 is Ok,
    ensures
        ({
            let (r, end) = sv8_seek::parse_run(bits, pos, l);
            &&& r->Ok_0 == l + more
            &&& end == pos + more + 1 <= bits.len()
            &&& bits[(pos + more) as int]
            &&& forall|i: int| pos <= i < pos + more ==> !(#[trigger] bits[i])
        }),
    decreases sv8_seek::SEEK_RUN_BOUND + 1 - l,
{
    bits::lemma_one_bit(bits, pos);
    if bits[pos as int] {
        0
    } else {
        let m = lemma_run(bits, pos + 1, l + 1);
        m + 1
    }
}

/// A seek table is the number of its entries, the binary logarithm of the audio packets per
/// entry in four bits, and the entries. The first two are integers. Each other is told by how
/// far it lies behind the place where the two before it lead in a line. The start of the
/// power and those of the entries, and the differences, are returned.
pub proof fn law_table(payload: Seq<u8>) -> (walk: (nat, Seq<nat>, Seq<int>))
    requires
        sv8_seek::table_of(payload) is Ok,
    ensures
        ({
            let t = sv8_seek::table_of(payload)->Ok_0;
            let bits = bits::of_bytes(payload);
            let (power, starts, differences) = walk;
            let n = t.entries.len() as int;
            &&& sv8_seek::parse_bit_varint(bits, 0) == (Ok::<u64, Error>(n as u64), power)
            &&& t.seek_pwr_delta == bits::field_at(bits, power, 4)
            &&& starts.len() == n + 1
            &&& differences.len() == n
            &&& starts[0] == power + 4
            &&& forall|i: int|
                0 <= i < n ==> {
                    &&& #[trigger] t.entries[i] < 0x100_0000_0000
                    &&& i < 2 ==> sv8_seek::parse_bit_varint(bits, starts[i]) == (
                        Ok::<u64, Error>(t.entries[i]),
                        starts[i + 1],
                    )
                    &&& i >= 2 ==> sv8_seek::parse_difference(bits, starts[i]) == (
                        Ok::<int, Error>(differences[i]),
                        starts[i + 1],
                    ) && (t.entries[i] - t.entries[i - 1]) - (t.entries[i - 1] - t.entries[i - 2])
                        == differences[i]
                }
        }),
{
    reveal(sv8_seek::table_of);
    let t = sv8_seek::table_of(payload)->Ok_0;
    let bits = bits::of_bytes(payload);
    let (r, power) = sv8_seek::parse_bit_varint(bits, 0);
    let n = r->Ok_0 as nat;
    bits::lemma_value_bound(bits.subrange(power as int, power + 4int));
    lemma2_to64();
    let step = sv8_seek::entry_step(bits);
    let starts = coding::lemma_sweep_stops(step, n, power + 4);
    let differences = Seq::new(n, |i: int| sv8_seek::parse_difference(bits, starts[i]).0->Ok_0);
    assert forall|i: int| 0 <= i < n implies {
        &&& #[trigger] t.entries[i] < 0x100_0000_0000
        &&& i < 2 ==> sv8_seek::parse_bit_varint(bits, starts[i]) == (
            Ok::<u64, Error>(t.entries[i]),
            starts[i + 1],
        )
        &&& i >= 2 ==> sv8_seek::parse_difference(bits, starts[i]) == (
            Ok::<int, Error>(differences[i]),
            starts[i + 1],
        ) && (t.entries[i] - t.entries[i - 1]) - (t.entries[i - 1] - t.entries[i - 2])
            == differences[i]
    } by {
        assert(step(t.entries.take(i), starts[i]) == (
            Ok::<u64, Error>(t.entries[i]),
            starts[i + 1],
        ));
        assert(t.entries.take(i).len() == i);
        if i >= 2 {
            assert(t.entries.take(i)[i - 1] == t.entries[i - 1]);
            assert(t.entries.take(i)[i - 2] == t.entries[i - 2]);
        }
    }
    (power, starts, differences)
}

/// A seek table is refused where the number of entries is no integer or is more than the
/// payload has room for, at thirteen bits for each but the first two; where the power is cut
/// off; and where an entry is no integer or no difference, or lies below zero or from 2^40 on.
/// The entries before that one, and where it starts, are returned.
pub proof fn law_table_refused(payload: Seq<u8>) -> (at: (Seq<u64>, nat))
    requires
        sv8_seek::table_of(payload) is Err,
    ensures
        ({
            let bits = bits::of_bytes(payload);
            let (r, power) = sv8_seek::parse_bit_varint(bits, 0);
            let n = r->Ok_0;
            let (entries, start) = at;
            let i = entries.len() as int;
            let value = sv8_seek::parse_bit_varint(bits, start).0;
            let difference = sv8_seek::parse_difference(bits, start).0;
            ||| r is Err
            ||| 13 * (n - 2) > 8 * payload.len()
            ||| power + 4 > bits.len()
            ||| {
                &&& i < n
                &&& i < 2 ==> value is Err || value->Ok_0 >= 0x100_0000_0000
                &&& i >= 2 ==> difference is Err || !(0 <= 2 * entries[i - 1] - entries[i - 2]
                    + difference->Ok_0 < 0x100_0000_0000)
            }
        }),
{
    reveal(sv8_seek::table_of);
    let bits = bits::of_bytes(payload);
    let (r, power) = sv8_seek::parse_bit_varint(bits, 0);
    let n = r->Ok_0;
    if r is Ok && 13 * (n - 2) <= 8 * payload.len() && power + 4 <= bits.len() {
        coding::lemma_sweep_fails(
            sv8_seek::entry_step(bits),
            n as nat,
            Seq::empty(),
            power + 4,
        )
    } else {
        (Seq::empty(), 0)
    }
}

/// A table with more entries than its payload has room for is refused, at thirteen bits for
/// each but the first two.
pub proof fn law_crowded_table(payload: Seq<u8>)
    requires
        sv8_seek::parse_bit_varint(bits::of_bytes(payload), 0).0 is Ok,
        13 * (sv8_seek::parse_bit_varint(bits::of_bytes(payload), 0).0->Ok_0 - 2) > 8
            * payload.len(),
    ensures
        sv8_seek::table_of(payload) is Err,
{
    reveal(sv8_seek::table_of);
}

} // verus!
