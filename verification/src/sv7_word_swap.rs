//! The byte order of the older stream format: words of four bytes, each reversed.

use vstd::prelude::*;

verus! {

/// The byte `i` of `raw`, or zero behind its end.
pub open spec fn byte_or_zero(raw: Seq<u8>, i: int) -> u8 {
    if i < raw.len() {
        raw[i]
    } else {
        0
    }
}

/// Where byte `i` goes when its word is reversed.
pub open spec fn mirrored(i: int) -> int {
    4 * (i / 4) + 3 - i % 4
}

/// `raw`, filled up with zero bytes to whole words, with each word reversed.
pub open spec fn swapped(raw: Seq<u8>) -> Seq<u8> {
    Seq::new(4 * ((raw.len() + 3) as nat / 4), |i: int| byte_or_zero(raw, mirrored(i)))
}

/// Reverses the words of `raw`. A last word that is not whole is filled up with zero bytes
/// first.
pub fn word_swap_sv7_body(raw: &[u8]) -> (out: Vec<u8>)
    ensures
        out@ == swapped(raw@),
{
    let mut out: Vec<u8> = Vec::new();
    let len: usize = raw.len();
    let words: usize = len / 4 + if len % 4 > 0 { 1 } else { 0 };
    let mut w: usize = 0;
    while w < words
        invariant
            w <= words,
            len == raw@.len(),
            words == (len + 3) / 4,
            out@.len() == 4 * w,
            forall|i: int| 0 <= i < 4 * w ==> #[trigger] out@[i] == swapped(raw@)[i],
        decreases words - w,
    {
        let start: usize = 4 * w;
        let left: usize = len - start;
        let a: u8 = raw[start];
        let b: u8 = if left > 1 { raw[start + 1] } else { 0 };
        let c: u8 = if left > 2 { raw[start + 2] } else { 0 };
        let d: u8 = if left > 3 { raw[start + 3] } else { 0 };
        out.push(d);
        out.push(c);
        out.push(b);
        out.push(a);
        w = w + 1;
    }
    assert(out@ =~= swapped(raw@));
    out
}

/// Reverses the words of `buf` where it is made of whole words; else leaves it alone and
/// returns `false`.
pub fn word_swap_sv7_body_in_place(buf: &mut [u8]) -> (done: bool)
    ensures
        done == (old(buf)@.len() % 4 == 0),
        final(buf)@ == if done {
            swapped(old(buf)@)
        } else {
            old(buf)@
        },
{
    let len: usize = buf.len();
    if len % 4 != 0 {
        return false;
    }
    let ghost start = buf@;
    let mut w: usize = 0;
    while w < len
        invariant
            w <= len,
            w % 4 == 0,
            len % 4 == 0,
            len == start.len(),
            buf@.len() == len,
            start == old(buf)@,
            forall|i: int| 0 <= i < w ==> #[trigger] buf@[i] == start[mirrored(i)],
            forall|i: int| w <= i < len ==> #[trigger] buf@[i] == start[i],
        decreases len - w,
    {
        let a: u8 = buf[w];
        let b: u8 = buf[w + 1];
        let c: u8 = buf[w + 2];
        let d: u8 = buf[w + 3];
        buf[w] = d;
        buf[w + 1] = c;
        buf[w + 2] = b;
        buf[w + 3] = a;
        w = w + 4;
    }
    assert(buf@ =~= swapped(start));
    true
}

/// Reversing the words of whole words twice gives them back.
pub proof fn law_swap_twice(raw: Seq<u8>)
    requires
        raw.len() % 4 == 0,
    ensures
        swapped(swapped(raw)) == raw,
{
    let once = swapped(raw);
    assert forall|i: int| 0 <= i < raw.len() implies swapped(once)[i] == raw[i] by {
        assert(mirrored(mirrored(i)) == i);
    }
    assert(swapped(once) =~= raw);
}

/// The bytes of each word of four come in reverse; the last word is filled up with zeros.
pub proof fn law_swapped_word(raw: Seq<u8>, w: int, k: int)
    requires
        0 <= k < 4,
        0 <= 4 * w < raw.len(),
    ensures
        swapped(raw).len() % 4 == 0,
        raw.len() <= swapped(raw).len() < raw.len() + 4,
        4 * w + 3 - k < raw.len() ==> swapped(raw)[4 * w + k] == raw[4 * w + 3 - k],
        4 * w + 3 - k >= raw.len() ==> swapped(raw)[4 * w + k] == 0,
{
    assert((4 * w + k) / 4 == w && (4 * w + k) % 4 == k);
}

/// Every byte goes to its mirrored place in its word.
pub proof fn law_swap_keeps_bytes(raw: Seq<u8>, i: int)
    requires
        0 <= i < raw.len(),
    ensures
        0 <= mirrored(i) < swapped(raw).len(),
        swapped(raw)[mirrored(i)] == raw[i],
{
    assert(mirrored(mirrored(i)) == i);
}

} // verus!
