//! Encoders for the canonical codes, the phased-binary codes and the enumerative
//! codes: for each decoder the writer that it undoes.

use crate::bit_writer::Sv7BitWriter;
use crate::bits;
use crate::coding;
use crate::coding::Emit;
use crate::combinadic;
use crate::error::{Error, Result};
use crate::phased;
use crate::sv8_huffman;
use crate::sv8_huffman::{Sv8CanonicalEntry, Sv8CanonicalTable, Sv8TableRole, Sv8TableSet};
use vstd::arithmetic::div_mod::*;
use vstd::arithmetic::mul::*;
use vstd::arithmetic::power2::*;
use vstd::prelude::*;

verus! {

/// Where the windows of row `r` end: the code word of the nearest coding row before it.
pub open spec fn upper(rows: Seq<Sv8CanonicalEntry>, r: int) -> int
    decreases r,
{
    if r <= 0 {
        0x1_0000
    } else if rows[r - 1].is_code() {
        rows[r - 1].code as int
    } else {
        upper(rows, r - 1)
    }
}

/// The code value that selects `index` in row `r`, if the row has it.
pub open spec fn bin_of(rows: Seq<Sv8CanonicalEntry>, r: int, index: int) -> int {
    (rows[r].cum_index - index) % 256
}

/// Row `r` has a code word for the symbol-map position `index`.
pub open spec fn covers(rows: Seq<Sv8CanonicalEntry>, r: int, index: int) -> bool {
    let e = rows[r];
    let bin = bin_of(rows, r, index);
    let top = upper(rows, r) / e.step() as int;
    &&& e.is_code()
    &&& e.code as int / e.step() as int <= bin
    &&& bin < top || (bin == 0 && top == 0)
}

/// The first row, from row `from` on, with a code word for `index`.
pub open spec fn covering_row(rows: Seq<Sv8CanonicalEntry>, from: int, index: int) -> Option<int>
    decreases rows.len() - from,
{
    if from < 0 || from >= rows.len() {
        None
    } else if covers(rows, from, index) {
        Some(from)
    } else {
        covering_row(rows, from + 1, index)
    }
}

/// The first position, from `from` on, at which `symbols` holds `symbol`.
pub open spec fn position(symbols: Seq<i8>, from: int, symbol: i8) -> Option<int>
    decreases symbols.len() - from,
{
    if from < 0 || from >= symbols.len() {
        None
    } else if symbols[from] == symbol {
        Some(from)
    } else {
        position(symbols, from + 1, symbol)
    }
}

impl Sv8CanonicalTable {
    /// The code word of the symbol-map position `index`.
    pub open spec fn index_code(self, index: int) -> Option<Seq<bool>> {
        if 0 <= index < self.symbols@.len() {
            match covering_row(self.lengths@, 0, index) {
                Some(r) => Some(
                    bits::field(
                        bin_of(self.lengths@, r, index) as nat,
                        self.lengths@[r].length as nat,
                    ),
                ),
                None => None,
            }
        } else {
            None
        }
    }

    /// What writing `symbol` appends: the code word of its first position in the
    /// symbol map.
    pub open spec fn emit(self, symbol: i8) -> Emit {
        match position(self.symbols@, 0, symbol) {
            None => Emit::fail(Error::SymbolNotEncodable(symbol as i32)),
            Some(i) => match self.index_code(i) {
                None => Emit::fail(Error::SymbolNotEncodable(i as i32)),
                Some(c) => Emit::of(c),
            },
        }
    }

    /// Every code word that decodes to a symbol is the one that the symbol is
    /// written with.
    pub open spec fn reversible(self) -> bool {
        forall|peek: int|
            0 <= peek < 0x1_0000 ==> match #[trigger] sv8_huffman::matching_row(
                self.lengths@,
                0,
                peek,
            ) {
                Some(r) => {
                    let e = self.lengths@[r];
                    let bin = peek / e.step() as int;
                    let i = e.index_of(bin);
                    i < self.symbols@.len() ==> self.emit(self.symbols@[i]) == Emit::of(
                        bits::field(bin as nat, e.length as nat),
                    )
                },
                None => true,
            }
    }
}

impl Sv8TableSet {
    /// Every code is reversible.
    pub open spec fn reversible(self) -> bool {
        forall|role: Sv8TableRole, ctx: int|
            0 <= ctx < 2 ==> (#[trigger] self.table(role, ctx)).reversible()
    }
}

/// The code word of the symbol-map position `index`, left-justified into 16 bits, and
/// its length. A position outside the map, or without a code word, is refused.
pub fn encode_symbol_index(table: &Sv8CanonicalTable, index: usize) -> (r: Result<(u16, u8)>)
    ensures
        match (table.index_code(index as int), r) {
            (Some(c), Ok((code, len))) => {
                &&& 1 <= len <= 16
                &&& c == bits::field(code as nat / pow2((16 - len) as nat), len as nat)
                &&& code as nat % pow2((16 - len) as nat) == 0
            },
            (None, Err(e)) => e == Error::SymbolNotEncodable(index as i32),
            _ => false,
        },
{
    if index >= table.symbols.len() {
        return Err(Error::SymbolNotEncodable(index as i32));
    }
    let rows: &[Sv8CanonicalEntry] = table.lengths;
    let low: i32 = (index % 256) as i32;
    let mut top: u32 = 0x1_0000;
    let mut i: usize = 0;
    while i < rows.len()
        invariant
            rows@ == table.lengths@,
            index < table.symbols@.len(),
            i <= rows@.len(),
            low == index % 256,
            top == upper(rows@, i as int),
            top <= 0x1_0000,
            covering_row(rows@, 0, index as int) == covering_row(rows@, i as int, index as int),
        decreases rows@.len() - i,
    {
        let e: Sv8CanonicalEntry = rows[i];
        if e.length >= 1 && e.length <= 16 {
            let shift: u32 = 16 - e.length as u32;
            let step: u32 = 1u32 << shift;
            proof {
                lemma2_to64();
                if shift < 15 {
                    lemma_pow2_strictly_increases(shift as nat, 15);
                }
                vstd::bits::lemma_u32_shl_is_mul(1, shift);
                lemma_pow2_pos(shift as nat);
            }
            let bin: u32 = (e.cum_index as i32 + 65536 - low) as u32 % 256;
            let bin_top: u32 = top / step;
            if e.code as u32 / step <= bin && (bin < bin_top || (bin == 0 && bin_top == 0)) {
                proof {
                    lemma_fundamental_div_mod(top as int, step as int);
                    lemma_mul_is_commutative(bin_top as int, step as int);
                    if bin < bin_top {
                        assert(bin * step + step <= top) by (nonlinear_arith)
                            requires
                                bin + 1 <= bin_top,
                                bin_top * step <= top,
                        ;
                    }
                    lemma_mul_is_commutative(bin as int, step as int);
                    assert(0 * step == 0);
                    lemma_div_multiples_vanish(bin as int, step as int);
                    lemma_mod_multiples_basic(bin as int, step as int);
                }
                return Ok(((bin * step) as u16, e.length));
            }
            top = e.code as u32;
        }
        i = i + 1;
    }
    Err(Error::SymbolNotEncodable(index as i32))
}

/// The code word of `symbol`, left-justified into 16 bits, and its length. A symbol
/// without a code word is refused.
pub fn encode_symbol(table: &Sv8CanonicalTable, symbol: i8) -> (r: Result<(u16, u8)>)
    ensures
        match r {
            Ok((code, len)) => {
                &&& 1 <= len <= 16
                &&& table.emit(symbol) == Emit::of(
                    bits::field(code as nat / pow2((16 - len) as nat), len as nat),
                )
                &&& code as nat % pow2((16 - len) as nat) == 0
            },
            Err(e) => table.emit(symbol) == Emit::fail(e),
        },
{
    let symbols: &[i8] = table.symbols;
    let mut i: usize = 0;
    while i < symbols.len()
        invariant
            symbols@ == table.symbols@,
            i <= symbols@.len(),
            position(symbols@, 0, symbol) == position(symbols@, i as int, symbol),
        decreases symbols@.len() - i,
    {
        if symbols[i] == symbol {
            return encode_symbol_index(table, i);
        }
        i = i + 1;
    }
    Err(Error::SymbolNotEncodable(symbol as i32))
}

/// Writes `symbol`.
pub fn write_symbol(writer: &mut Sv7BitWriter, table: &Sv8CanonicalTable, symbol: i8) -> (r: Result<
    (),
>)
    ensures
        final(writer)@ == old(writer)@ + table.emit(symbol).code,
        r == table.emit(symbol).result,
{
    match encode_symbol(table, symbol) {
        Ok((code, len)) => {
            writer.write_left_justified(code, len);
            Ok(())
        },
        Err(e) => {
            assert(writer@ =~= old(writer)@ + Seq::<bool>::empty());
            Err(e)
        },
    }
}

/// Writes `value` out of a space of `max` values. A value outside is refused, and
/// nothing is written.
pub fn write_log_code(writer: &mut Sv7BitWriter, value: u32, max: u32) -> (r: Result<()>)
    requires
        max <= 0x8000_0000,
    ensures
        final(writer)@ == old(writer)@ + phased::emit(value, max).code,
        r == phased::emit(value, max).result,
{
    if value < max || (value == 0 && max == 0) {
        phased::write_value(writer, value, max);
        Ok(())
    } else {
        assert(writer@ =~= old(writer)@ + Seq::<bool>::empty());
        Err(Error::SampleOutOfRange(value as i32))
    }
}

/// Writes the subset `mask` of `n` positions, which is to have `k` members. A mask
/// with other members is refused, and nothing is written.
pub fn write_enum_subset(writer: &mut Sv7BitWriter, mask: u32, k: u32, n: u32) -> (r: Result<()>)
    requires
        n <= 32,
    ensures
        final(writer)@ == old(writer)@ + combinadic::emit(mask, k as nat, n as nat).code,
        r == combinadic::emit(mask, k as nat, n as nat).result,
{
    let ghost flags = bits::field(mask as nat, n as nat);
    proof {
        bits::lemma_field_len(mask as nat, n as nat);
        lemma2_to64();
    }
    let stray: bool = if n >= 32 {
        false
    } else {
        proof {
            vstd::bits::lemma_u32_shr_is_div(mask, n);
            lemma_pow2_pos(n as nat);
            vstd::arithmetic::div_mod::lemma_fundamental_div_mod(mask as int, pow2(n as nat) as int);
            if mask < pow2(n as nat) {
                vstd::arithmetic::div_mod::lemma_basic_div(mask as int, pow2(n as nat) as int);
            } else {
                vstd::arithmetic::div_mod::lemma_div_non_zero(mask as int, pow2(n as nat) as int);
            }
        }
        mask >> n != 0
    };
    if stray || combinadic::count_ones(mask, n) != k {
        assert(writer@ =~= old(writer)@ + Seq::<bool>::empty());
        return Err(Error::SampleOutOfRange(mask as i32));
    }
    let rank: u32 = combinadic::mask_rank(mask, k, n);
    proof {
        combinadic::lemma_subset_of_rank(flags, k as nat);
    }
    let total: u32 = combinadic::binomial(n, k);
    phased::write_value(writer, rank, total);
    Ok(())
}

/// Writes which of up to 32 positions are set, the highest first, behind their number:
/// nothing where none or all are, else the smaller of the set and its complement.
pub fn write_set(writer: &mut Sv7BitWriter, flags: &Vec<bool>)
    requires
        flags@.len() <= 32,
    ensures
        final(writer)@ == old(writer)@ + combinadic::set_code(flags@),
{
    let n: u32 = flags.len() as u32;
    let mask: u32 = combinadic::flags_mask(flags);
    let cnt: u32 = combinadic::count_ones(mask, n);
    if cnt == 0 || cnt == n {
        assert(writer@ =~= old(writer)@ + combinadic::set_code(flags@));
        return;
    }
    if cnt > n / 2 {
        proof {
            lemma2_to64();
            lemma_pow2_pos(n as nat);
            if n < 32 {
                lemma_pow2_strictly_increases(n as nat, 32);
                vstd::bits::lemma_u32_shl_is_mul(1, n);
            }
            combinadic::lemma_value_complement(flags@);
            combinadic::lemma_ones_complement(flags@);
            bits::lemma_bits_of_value(combinadic::complement(flags@));
        }
        let full: u32 = if n >= 32 { u32::MAX } else { (1u32 << n) - 1 };
        let written = write_enum_subset(writer, full - mask, n - cnt, n);
    } else {
        let written = write_enum_subset(writer, mask, cnt, n);
    }
}

/// A row is found where no row before it is reached.
pub proof fn lemma_matching_row(rows: Seq<Sv8CanonicalEntry>, from: int, r: int, peek: int)
    requires
        0 <= from <= r < rows.len(),
        rows[r].is_code() && rows[r].code <= peek,
        forall|q: int|
            from <= q < r ==> !((#[trigger] rows[q]).is_code() && rows[q].code <= peek),
    ensures
        sv8_huffman::matching_row(rows, from, peek) == Some(r),
    decreases r - from,
{
    if from < r {
        lemma_matching_row(rows, from + 1, r, peek);
    }
}

/// A found row covers, and lies in the table.
pub proof fn lemma_covering_row(rows: Seq<Sv8CanonicalEntry>, from: int, index: int)
    ensures
        match covering_row(rows, from, index) {
            Some(r) => from <= r < rows.len() && 0 <= r && covers(rows, r, index),
            None => true,
        },
    decreases rows.len() - from,
{
    if 0 <= from < rows.len() && !covers(rows, from, index) {
        lemma_covering_row(rows, from + 1, index);
    }
}

/// In a canonical code the windows of a row end below every row before it.
proof fn lemma_upper(t: Sv8CanonicalTable, r: int)
    requires
        t.canonical(),
        0 <= r <= t.lengths@.len(),
    ensures
        upper(t.lengths@, r) <= 0x1_0000,
        forall|q: int|
            0 <= q < r && (#[trigger] t.lengths@[q]).is_code() ==> t.lengths@[q].code >= upper(
                t.lengths@,
                r,
            ),
        upper(t.lengths@, r) == 0x1_0000 || exists|q: int|
            0 <= q < r && (#[trigger] t.lengths@[q]).is_code() && t.lengths@[q].code == upper(
                t.lengths@,
                r,
            ),
    decreases r,
{
    if r > 0 {
        lemma_upper(t, r - 1);
        let last = t.lengths@[r - 1];
        if last.is_code() {
            assert(t.lengths@[r - 1].code == upper(t.lengths@, r));
        }
    }
}

/// The code word of a position in the symbol map decodes to that position.
pub proof fn lemma_index_reads_back(t: Sv8CanonicalTable, bits: Seq<bool>, pos: nat, index: int)
    requires
        t.canonical(),
        t.index_code(index) is Some,
        bits::at(bits, pos, t.index_code(index)->0),
        pos + 16 <= bits.len(),
    ensures
        t.parse_index(bits, pos) == (
            Ok::<usize, Error>(index as usize),
            pos + t.index_code(index)->0.len(),
        ),
{
    let rows = t.lengths@;
    lemma_covering_row(rows, 0, index);
    let r = covering_row(rows, 0, index)->0;
    let e = rows[r];
    let bin = bin_of(rows, r, index) as nat;
    let len = e.length as nat;
    let step = e.step();
    let low = (16 - len) as nat;
    lemma_pow2_pos(low);
    lemma_pow2_pos(len);
    lemma_upper(t, r);
    let top = upper(rows, r);
    lemma_fundamental_div_mod(top, step as int);
    lemma_fundamental_div_mod(e.code as int, step as int);
    assert(top / step as int > bin) by {
        if top / step as int == 0 {
            lemma_pow2_adds(low, len);
            lemma2_to64();
            if top == 0x1_0000 {
                lemma_div_multiples_vanish(pow2(len) as int, step as int);
                lemma_mul_is_commutative(pow2(len) as int, step as int);
            } else {
                let q = choose|q: int|
                    0 <= q < r && (#[trigger] rows[q]).is_code() && rows[q].code == top;
                assert(rows[q].length <= e.length && rows[q].code > e.code);
                let d = (e.length - rows[q].length) as nat;
                lemma_pow2_adds(low, d);
                lemma_pow2_pos(d);
                let wide = rows[q].step() as int;
                lemma_fundamental_div_mod(top, wide);
                let k = top / wide;
                assert(top == step as int * (pow2(d) as int * k)) by (nonlinear_arith)
                    requires
                        top == wide * k,
                        wide == step * pow2(d),
                ;
                lemma_div_multiples_vanish(pow2(d) as int * k, step as int);
                lemma_mul_is_commutative(step as int, pow2(d) as int * k);
                assert(top == 0);
            }
        }
    }
    // The window starts with the code word.
    let s = bits.subrange(pos as int, pos + 16int);
    let a = bits::field(bin, len);
    bits::lemma_field_len(bin, len);
    let b = s.skip(len as int);
    assert(s.take(len as int) =~= bits.subrange(pos as int, (pos + len) as int));
    assert(s =~= a + b);
    lemma_pow2_adds(low, len);
    lemma2_to64();
    assert(bin < pow2(len)) by (nonlinear_arith)
        requires
            step * (top / step as int) <= top,
            top / step as int >= bin + 1,
            top <= 0x1_0000,
            step * pow2(len) == 0x1_0000,
            step > 0,
    ;
    bits::lemma_value_of_bits(bin, len);
    bits::lemma_value_prefix(a, b);
    let peek = bits::value(s);
    lemma_fundamental_div_mod(peek as int, step as int);
    assert(peek as int / step as int == bin);
    assert(e.code <= peek < top) by (nonlinear_arith)
        requires
            peek == step * bin + peek as int % step as int,
            0 <= peek as int % (step as int) < step,
            e.code == step * (e.code as int / step as int) + e.code as int % step as int,
            e.code as int % step as int == 0,
            e.code as int / step as int <= bin,
            step * (top / step as int) <= top,
            bin + 1 <= top / step as int,
            step > 0,
    ;
    lemma_matching_row(rows, 0, r, peek as int);
    assert(e.index_of(bin as int) == index);
}

/// A written symbol decodes to itself, and the reader stands behind its code word.
pub proof fn lemma_symbol_reads_back(t: Sv8CanonicalTable, bits: Seq<bool>, pos: nat, symbol: i8)
    requires
        t.canonical(),
        t.emit(symbol).result is Ok,
        coding::readable(bits, pos, t.emit(symbol).code),
    ensures
        t.parse(bits, pos) == (Ok::<i8, Error>(symbol), pos + t.emit(symbol).code.len()),
{
    lemma_position(t.symbols@, 0, symbol);
    let i = position(t.symbols@, 0, symbol)->0;
    lemma_index_reads_back(t, bits, pos, i);
}

pub proof fn lemma_position(symbols: Seq<i8>, from: int, symbol: i8)
    requires
        0 <= from,
    ensures
        match position(symbols, from, symbol) {
            Some(i) => from <= i < symbols.len() && symbols[i] == symbol,
            None => forall|i: int| from <= i < symbols.len() ==> symbols[i] != symbol,
        },
    decreases symbols.len() - from,
{
    if from < symbols.len() && symbols[from] != symbol {
        lemma_position(symbols, from + 1, symbol);
    }
}

/// A decoded symbol encodes to the bits that it was decoded from.
pub proof fn lemma_symbol_writes_back(t: Sv8CanonicalTable, bits: Seq<bool>, pos: nat)
    requires
        t.reversible(),
        t.parse(bits, pos).0 is Ok,
    ensures
        t.emit(t.parse(bits, pos).0->Ok_0).result is Ok,
        coding::consumed(bits, pos, t.parse(bits, pos), t.emit(t.parse(bits, pos).0->Ok_0).code),
{
    let s = bits.subrange(pos as int, pos + 16int);
    let peek = bits::value(s);
    bits::lemma_value_bound(s);
    lemma2_to64();
    let row = sv8_huffman::matching_row(t.lengths@, 0, peek as int);
    lemma_matched(t.lengths@, 0, peek as int);
    let e = t.lengths@[row->0];
    let len = e.length as nat;
    let a = s.take(len as int);
    let b = s.skip(len as int);
    assert(s =~= a + b);
    bits::lemma_value_prefix(a, b);
    bits::lemma_bits_of_value(a);
    assert(a =~= bits.subrange(pos as int, (pos + len) as int));
    assert(e.index_of((peek / e.step()) as int) >= 0);
    assert(t.parse_index(bits, pos).0 is Ok);
}

pub proof fn lemma_matched(rows: Seq<Sv8CanonicalEntry>, from: int, peek: int)
    requires
        0 <= from,
    ensures
        match sv8_huffman::matching_row(rows, from, peek) {
            Some(r) => from <= r < rows.len() && rows[r].is_code() && rows[r].code <= peek,
            None => true,
        },
    decreases rows.len() - from,
{
    if from < rows.len() && !(rows[from].is_code() && rows[from].code <= peek) {
        lemma_matched(rows, from + 1, peek);
    }
}

} // verus!
