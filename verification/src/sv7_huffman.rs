//! Codes whose tables list each code word with its value.

use crate::bit_reader::Sv7BitReader;
use crate::bit_writer::Sv7BitWriter;
use crate::bits;
use crate::coding;
use crate::coding::{Emit, Parsed};
use crate::error::{Error, Result};
use vstd::arithmetic::div_mod::*;
use vstd::arithmetic::mul::*;
use vstd::arithmetic::power2::*;
use vstd::prelude::*;

verus! {

/// A code word and its value.
#[derive(Debug, Clone, Copy, PartialEq, Eq, Structural)]
pub struct Sv7HuffmanEntry {
    /// The code word, left-justified into 16 bits.
    pub code: u16,
    /// Its length in bits.
    pub length: u8,
    /// Its value.
    pub value: i8,
}

impl Sv7HuffmanEntry {
    /// The row holds a code word.
    pub open spec fn is_code(self) -> bool {
        1 <= self.length <= 16
    }

    /// How many windows of 16 bits start with the code word.
    pub open spec fn step(self) -> nat {
        pow2((16 - self.length) as nat)
    }
}

/// The first row, from row `from` on, whose code word the window `peek` reaches.
pub open spec fn matching(rows: Seq<Sv7HuffmanEntry>, from: int, peek: int) -> Option<int>
    decreases rows.len() - from,
{
    if from < 0 || from >= rows.len() {
        None
    } else if rows[from].is_code() && rows[from].code <= peek {
        Some(from)
    } else {
        matching(rows, from + 1, peek)
    }
}

/// Outcome of decoding a value at `pos`.
pub open spec fn parse(rows: Seq<Sv7HuffmanEntry>, bits: Seq<bool>, pos: nat) -> Parsed<i8> {
    if pos + 16 > bits.len() {
        (Err(Error::UnexpectedEof), pos)
    } else {
        match matching(rows, 0, bits::field_at(bits, pos, 16) as int) {
            None => (Err(Error::HuffmanNoMatch), pos),
            Some(r) => (Ok(rows[r].value), pos + rows[r].length as nat),
        }
    }
}

/// The first row, from row `from` on, that holds a code word for `value`.
pub open spec fn row_of(rows: Seq<Sv7HuffmanEntry>, from: int, value: i8) -> Option<int>
    decreases rows.len() - from,
{
    if from < 0 || from >= rows.len() {
        None
    } else if rows[from].is_code() && rows[from].value == value {
        Some(from)
    } else {
        row_of(rows, from + 1, value)
    }
}

/// What writing `value` appends.
pub open spec fn emit(rows: Seq<Sv7HuffmanEntry>, value: i8) -> Emit {
    match row_of(rows, 0, value) {
        None => Emit::fail(Error::SymbolNotEncodable(value as i32)),
        Some(r) => Emit::of(
            bits::field(rows[r].code as nat / rows[r].step(), rows[r].length as nat),
        ),
    }
}

/// The rows form a code: code words are left-justified, and the windows of each row end
/// below those of the row before it.
pub open spec fn orderly(rows: Seq<Sv7HuffmanEntry>) -> bool {
    &&& forall|r: int| 0 <= r < rows.len() ==> (#[trigger] rows[r]).is_code()
    &&& forall|r: int|
        0 <= r < rows.len() ==> (#[trigger] rows[r]).code as nat % rows[r].step() == 0
    &&& forall|r: int|
        1 <= r < rows.len() ==> (#[trigger] rows[r]).code + rows[r].step() <= rows[r - 1].code
}

/// The rows form a code.
#[must_use]
pub fn is_orderly(rows: &[Sv7HuffmanEntry]) -> (b: bool)
    ensures
        b == orderly(rows@),
{
    let mut r: usize = 0;
    while r < rows.len()
        invariant
            r <= rows@.len(),
            forall|q: int| 0 <= q < r ==> (#[trigger] rows@[q]).is_code(),
            forall|q: int|
                0 <= q < r ==> (#[trigger] rows@[q]).code as nat % rows@[q].step() == 0,
            forall|q: int|
                1 <= q < r ==> (#[trigger] rows@[q]).code + rows@[q].step() <= rows@[q - 1].code,
        decreases rows@.len() - r,
    {
        let e: Sv7HuffmanEntry = rows[r];
        if e.length < 1 || e.length > 16 {
            assert(!rows@[r as int].is_code());
            return false;
        }
        let shift: u32 = 16 - e.length as u32;
        proof {
            lemma2_to64();
            if shift < 15 {
                lemma_pow2_strictly_increases(shift as nat, 15);
            }
            lemma_pow2_pos(shift as nat);
            vstd::bits::lemma_u32_shl_is_mul(1, shift);
        }
        let step: u32 = 1u32 << shift;
        assert(step == rows@[r as int].step());
        if e.code as u32 % step != 0 {
            assert(rows@[r as int].code as nat % rows@[r as int].step() != 0);
            return false;
        }
        if r > 0 && e.code as u32 + step > rows[r - 1].code as u32 {
            assert(rows@[r as int].code + rows@[r as int].step() > rows@[r - 1].code);
            return false;
        }
        r = r + 1;
    }
    true
}

proof fn lemma_below(rows: Seq<Sv7HuffmanEntry>, r: int, q: int)
    requires
        orderly(rows),
        0 <= r < q < rows.len(),
    ensures
        rows[q].code + rows[q].step() <= rows[r].code,
    decreases q - r,
{
    assert(rows[q].code + rows[q].step() <= rows[q - 1].code);
    if r < q - 1 {
        lemma_below(rows, r, q - 1);
        lemma_pow2_pos((16 - rows[q - 1].length) as nat);
    }
}

proof fn lemma_row_of(rows: Seq<Sv7HuffmanEntry>, from: int, value: i8)
    requires
        0 <= from,
    ensures
        match row_of(rows, from, value) {
            Some(r) => from <= r < rows.len() && rows[r].is_code() && rows[r].value == value,
            None => true,
        },
    decreases rows.len() - from,
{
    if from < rows.len() && !(rows[from].is_code() && rows[from].value == value) {
        lemma_row_of(rows, from + 1, value);
    }
}

proof fn lemma_matching(rows: Seq<Sv7HuffmanEntry>, from: int, r: int, peek: int)
    requires
        0 <= from <= r < rows.len(),
        rows[r].is_code() && rows[r].code <= peek,
        forall|q: int| from <= q < r ==> (#[trigger] rows[q]).code > peek,
    ensures
        matching(rows, from, peek) == Some(r),
    decreases r - from,
{
    if from < r {
        lemma_matching(rows, from + 1, r, peek);
    }
}

/// A written value decodes to itself, and the reader stands behind its code word.
pub proof fn law_value_reads_back(
    rows: Seq<Sv7HuffmanEntry>,
    bits: Seq<bool>,
    pos: nat,
    value: i8,
)
    requires
        orderly(rows),
        emit(rows, value).result is Ok,
        coding::readable(bits, pos, emit(rows, value).code),
    ensures
        parse(rows, bits, pos) == (Ok::<i8, Error>(value), pos + emit(rows, value).code.len()),
{
    lemma_row_of(rows, 0, value);
    let r = row_of(rows, 0, value)->0;
    let e = rows[r];
    let len = e.length as nat;
    let low = (16 - len) as nat;
    let step = e.step();
    lemma_pow2_pos(low);
    lemma_pow2_adds(low, len);
    lemma2_to64();
    let bin = e.code as nat / step;
    lemma_fundamental_div_mod(e.code as int, step as int);
    assert(bin < pow2(len)) by (nonlinear_arith)
        requires
            e.code == step * bin,
            e.code < 0x1_0000,
            step * pow2(len) == 0x1_0000,
            step > 0,
    ;
    let a = bits::field(bin, len);
    bits::lemma_field_len(bin, len);
    let s = bits.subrange(pos as int, pos + 16int);
    let b = s.skip(len as int);
    assert(s.take(len as int) =~= bits.subrange(pos as int, (pos + len) as int));
    assert(s =~= a + b);
    bits::lemma_value_of_bits(bin, len);
    bits::lemma_value_prefix(a, b);
    let peek = bits::value(s);
    lemma_fundamental_div_mod(peek as int, step as int);
    assert(e.code <= peek < e.code + step);
    assert forall|q: int| 0 <= q < r implies (#[trigger] rows[q]).code > peek by {
        lemma_below(rows, q, r);
    }
    lemma_matching(rows, 0, r, peek as int);
}

/// Decodes a value.
pub fn decode(reader: &mut Sv7BitReader<'_>, rows: &[Sv7HuffmanEntry]) -> (r: Result<i8>)
    ensures
        final(reader)@.bits == old(reader)@.bits,
        (r, final(reader)@.pos) == parse(rows@, old(reader)@.bits, old(reader)@.pos),
{
    let ghost start = reader@;
    let peek: u16 = reader.peek16()?;
    let mut i: usize = 0;
    while i < rows.len()
        invariant
            i <= rows@.len(),
            reader@ == start,
            start == old(reader)@,
            start.pos + 16 <= start.bits.len(),
            peek == bits::field_at(start.bits, start.pos, 16),
            matching(rows@, 0, peek as int) == matching(rows@, i as int, peek as int),
        decreases rows@.len() - i,
    {
        let e: Sv7HuffmanEntry = rows[i];
        if e.length >= 1 && e.length <= 16 && e.code <= peek {
            let skipped = reader.read_bits(e.length);
            return Ok(e.value);
        }
        i = i + 1;
    }
    Err(Error::HuffmanNoMatch)
}

/// Writes `value`. A value without a code word is refused.
pub fn write_value(writer: &mut Sv7BitWriter, rows: &[Sv7HuffmanEntry], value: i8) -> (r: Result<
    (),
>)
    ensures
        final(writer)@ == old(writer)@ + emit(rows@, value).code,
        r == emit(rows@, value).result,
{
    let mut i: usize = 0;
    while i < rows.len()
        invariant
            i <= rows@.len(),
            writer@ == old(writer)@,
            row_of(rows@, 0, value) == row_of(rows@, i as int, value),
        decreases rows@.len() - i,
    {
        let e: Sv7HuffmanEntry = rows[i];
        if e.length >= 1 && e.length <= 16 && e.value == value {
            writer.write_left_justified(e.code, e.length);
            return Ok(());
        }
        i = i + 1;
    }
    assert(writer@ =~= old(writer)@ + Seq::<bool>::empty());
    Err(Error::SymbolNotEncodable(value as i32))
}

} // verus!
