//! The SV8 canonical prefix codes.
//!
//! A code is a list of length classes, sorted by left-justified code word in
//! descending order, paired with a symbol map. The next 16 bits of the stream
//! select the first class whose code word they reach; the class's running index
//! less the code value, modulo 256, is the position in the symbol map.

use crate::bit_reader::Sv7BitReader;
use crate::bits;
use crate::coding::Parsed;
use crate::error::{Error, Result};
use vstd::arithmetic::power2::*;
use vstd::prelude::*;

verus! {

/// One length class of a canonical code.
#[derive(Debug, Clone, Copy, PartialEq, Eq)]
pub struct Sv8CanonicalEntry {
    /// Lowest code word of the class, left-justified into 16 bits.
    pub code: u16,
    /// Bits per code word; `0` marks a padding row that codes nothing.
    pub length: u8,
    /// Running index into the symbol map.
    pub cum_index: i16,
}

/// A canonical code: its length classes and its symbol map.
#[derive(Debug, Clone, Copy)]
pub struct Sv8CanonicalTable {
    /// Length classes, code words descending.
    pub lengths: &'static [Sv8CanonicalEntry],
    /// Symbol map.
    pub symbols: &'static [i8],
    /// Name for diagnostics.
    pub name: &'static str,
}

/// The roles that canonical codes play in a frame.
#[derive(Debug, Clone, Copy, PartialEq, Eq, Structural)]
pub enum Sv8TableRole {
    /// Change of the used-band count.
    Bands,
    /// Band resolution, context pair.
    Res,
    /// Scalefactor coding method, context pair.
    Scfi,
    /// Scalefactor difference, context pair.
    Dscf,
    /// Count of non-zero samples in a sparse group.
    Q1,
    /// Three samples per code word, context pair.
    Q2,
    /// Two samples per code word, levels up to three.
    Q3,
    /// Two samples per code word, levels up to four.
    Q4,
    /// One sample per code word, context pair.
    Q5,
    /// One sample per code word, context pair.
    Q6,
    /// One sample per code word, context pair.
    Q7,
    /// One sample per code word, context pair.
    Q8,
    /// High bits of a large level.
    Q9up,
}

/// The canonical codes of the format, one field per role. Roles with a
/// first-order context hold the code for each context.
#[derive(Debug, Clone, Copy)]
pub struct Sv8TableSet {
    pub bands: Sv8CanonicalTable,
    pub res: [Sv8CanonicalTable; 2],
    pub scfi: [Sv8CanonicalTable; 2],
    pub dscf: [Sv8CanonicalTable; 2],
    pub q1: Sv8CanonicalTable,
    pub q2: [Sv8CanonicalTable; 2],
    pub q3: Sv8CanonicalTable,
    pub q4: Sv8CanonicalTable,
    pub q5: [Sv8CanonicalTable; 2],
    pub q6: [Sv8CanonicalTable; 2],
    pub q7: [Sv8CanonicalTable; 2],
    pub q8: [Sv8CanonicalTable; 2],
    pub q9up: Sv8CanonicalTable,
}

impl Sv8TableRole {
    /// The role has one code per context.
    pub open spec fn has_context(self) -> bool {
        !(self is Bands || self is Q1 || self is Q3 || self is Q4 || self is Q9up)
    }
}

impl Sv8TableSet {
    /// The code for a role in a context. Roles without a context ignore `ctx`.
    pub open spec fn table(self, role: Sv8TableRole, ctx: int) -> Sv8CanonicalTable {
        match role {
            Sv8TableRole::Bands => self.bands,
            Sv8TableRole::Res => self.res[ctx],
            Sv8TableRole::Scfi => self.scfi[ctx],
            Sv8TableRole::Dscf => self.dscf[ctx],
            Sv8TableRole::Q1 => self.q1,
            Sv8TableRole::Q2 => self.q2[ctx],
            Sv8TableRole::Q3 => self.q3,
            Sv8TableRole::Q4 => self.q4,
            Sv8TableRole::Q5 => self.q5[ctx],
            Sv8TableRole::Q6 => self.q6[ctx],
            Sv8TableRole::Q7 => self.q7[ctx],
            Sv8TableRole::Q8 => self.q8[ctx],
            Sv8TableRole::Q9up => self.q9up,
        }
    }

    /// Every code is canonical.
    pub open spec fn canonical(self) -> bool {
        forall|role: Sv8TableRole, ctx: int|
            0 <= ctx < 2 ==> (#[trigger] self.table(role, ctx)).canonical()
    }
}

/// The code for `role` in context `ctx`. `None` where a role with a context pair is
/// asked for a context other than `0` and `1`.
pub fn table_for_role(tables: &Sv8TableSet, role: Sv8TableRole, ctx: u8) -> (t: Option<
    &Sv8CanonicalTable,
>)
    ensures
        match t {
            Some(t) => (role.has_context() ==> ctx < 2) && *t == tables.table(role, ctx as int),
            None => role.has_context() && ctx >= 2,
        },
{
    match role {
        Sv8TableRole::Bands => return Some(&tables.bands),
        Sv8TableRole::Q1 => return Some(&tables.q1),
        Sv8TableRole::Q3 => return Some(&tables.q3),
        Sv8TableRole::Q4 => return Some(&tables.q4),
        Sv8TableRole::Q9up => return Some(&tables.q9up),
        _ => {},
    }
    if ctx >= 2 {
        return None;
    }
    let i: usize = ctx as usize;
    match role {
        Sv8TableRole::Res => Some(&tables.res[i]),
        Sv8TableRole::Scfi => Some(&tables.scfi[i]),
        Sv8TableRole::Dscf => Some(&tables.dscf[i]),
        Sv8TableRole::Q2 => Some(&tables.q2[i]),
        Sv8TableRole::Q5 => Some(&tables.q5[i]),
        Sv8TableRole::Q6 => Some(&tables.q6[i]),
        Sv8TableRole::Q7 => Some(&tables.q7[i]),
        _ => Some(&tables.q8[i]),
    }
}

impl Sv8CanonicalEntry {
    /// The row codes something: its code words have between one and sixteen bits.
    pub open spec fn is_code(self) -> bool {
        1 <= self.length <= 16
    }

    /// Positions of the 16-bit window that lie below a code word of the row.
    pub open spec fn step(self) -> nat {
        pow2((16 - self.length) as nat)
    }

    /// Position in the symbol map that the code word `bin` of this row selects.
    pub open spec fn index_of(self, bin: int) -> int {
        (self.cum_index - bin) % 256
    }
}

/// The first row, from row `from` on, whose code word the window `peek` reaches.
pub open spec fn matching_row(rows: Seq<Sv8CanonicalEntry>, from: int, peek: int) -> Option<int>
    decreases rows.len() - from,
{
    if from < 0 || from >= rows.len() {
        None
    } else if rows[from].is_code() && rows[from].code <= peek {
        Some(from)
    } else {
        matching_row(rows, from + 1, peek)
    }
}

impl Sv8CanonicalTable {
    /// The rows form a canonical code: code words are left-justified and descend
    /// strictly, lengths do not fall, and every position of the symbol map has a
    /// distinct residue modulo 256.
    pub open spec fn canonical(self) -> bool {
        let rows = self.lengths@;
        &&& self.symbols@.len() <= 256
        &&& forall|r: int|
            0 <= r < rows.len() && (#[trigger] rows[r]).is_code() ==> rows[r].code as nat
                % rows[r].step() == 0
        &&& forall|r: int, q: int|
            0 <= r < q < rows.len() && (#[trigger] rows[r]).is_code() && (
            #[trigger] rows[q]).is_code() ==> rows[r].code > rows[q].code && rows[r].length
                <= rows[q].length
    }

    /// Outcome of decoding a position of the symbol map at `pos`.
    pub open spec fn parse_index(self, bits: Seq<bool>, pos: nat) -> Parsed<usize> {
        if pos + 16 > bits.len() {
            (Err(Error::UnexpectedEof), pos)
        } else {
            let peek = bits::field_at(bits, pos, 16);
            match matching_row(self.lengths@, 0, peek as int) {
                None => (Err(Error::HuffmanNoMatch), pos),
                Some(r) => {
                    let e = self.lengths@[r];
                    (Ok(e.index_of((peek / e.step()) as int) as usize), pos + e.length as nat)
                },
            }
        }
    }

    /// Outcome of decoding a symbol at `pos`.
    pub open spec fn parse(self, bits: Seq<bool>, pos: nat) -> Parsed<i8> {
        match self.parse_index(bits, pos) {
            (Ok(i), p) => if i < self.symbols@.len() {
                (Ok(self.symbols@[i as int]), p)
            } else {
                (Err(Error::HuffmanNoMatch), p)
            },
            (Err(e), p) => (Err(e), p),
        }
    }

    /// Number of rows in the length table.
    pub fn len_table_rows(&self) -> (n: usize)
        ensures
            n == self.lengths@.len(),
    {
        self.lengths.len()
    }

    /// Number of entries in the symbol map.
    pub fn sym_table_rows(&self) -> (n: usize)
        ensures
            n == self.symbols@.len(),
    {
        self.symbols.len()
    }

    /// Smallest length present, `0` for an empty length table.
    pub fn min_length(&self) -> (m: u8)
        ensures
            self.lengths@.len() == 0 ==> m == 0,
            self.lengths@.len() > 0 ==> exists|r: int|
                0 <= r < self.lengths@.len() && (#[trigger] self.lengths@[r]).length == m,
            forall|r: int|
                0 <= r < self.lengths@.len() ==> m <= (#[trigger] self.lengths@[r]).length,
    {
        let rows: &[Sv8CanonicalEntry] = self.lengths;
        if rows.len() == 0 {
            return 0;
        }
        let mut m: u8 = rows[0].length;
        let mut i: usize = 1;
        while i < rows.len()
            invariant
                1 <= i <= rows@.len(),
                exists|r: int| 0 <= r < i && (#[trigger] rows@[r]).length == m,
                forall|r: int| 0 <= r < i ==> m <= (#[trigger] rows@[r]).length,
            decreases rows@.len() - i,
        {
            if rows[i].length < m {
                m = rows[i].length;
            }
            i = i + 1;
        }
        m
    }

    /// Largest length present, `0` for an empty length table.
    pub fn max_length(&self) -> (m: u8)
        ensures
            self.lengths@.len() == 0 ==> m == 0,
            self.lengths@.len() > 0 ==> exists|r: int|
                0 <= r < self.lengths@.len() && (#[trigger] self.lengths@[r]).length == m,
            forall|r: int|
                0 <= r < self.lengths@.len() ==> m >= (#[trigger] self.lengths@[r]).length,
    {
        let rows: &[Sv8CanonicalEntry] = self.lengths;
        if rows.len() == 0 {
            return 0;
        }
        let mut m: u8 = rows[0].length;
        let mut i: usize = 1;
        while i < rows.len()
            invariant
                1 <= i <= rows@.len(),
                exists|r: int| 0 <= r < i && (#[trigger] rows@[r]).length == m,
                forall|r: int| 0 <= r < i ==> m >= (#[trigger] rows@[r]).length,
            decreases rows@.len() - i,
        {
            if rows[i].length > m {
                m = rows[i].length;
            }
            i = i + 1;
        }
        m
    }

    /// Decodes a position of the symbol map.
    pub fn decode_symbol_index(&self, reader: &mut Sv7BitReader<'_>) -> (r: Result<usize>)
        ensures
            final(reader)@.bits == old(reader)@.bits,
            (r, final(reader)@.pos) == self.parse_index(old(reader)@.bits, old(reader)@.pos),
    {
        let ghost start = reader@;
        let peek: u16 = reader.peek16()?;
        let rows: &[Sv8CanonicalEntry] = self.lengths;
        let mut i: usize = 0;
        while i < rows.len()
            invariant
                rows@ == self.lengths@,
                i <= rows@.len(),
                reader@ == start,
                start == old(reader)@,
                start.pos + 16 <= start.bits.len(),
                peek == bits::field_at(start.bits, start.pos, 16),
                matching_row(rows@, 0, peek as int) == matching_row(rows@, i as int, peek as int),
            decreases rows@.len() - i,
        {
            let e: Sv8CanonicalEntry = rows[i];
            if e.length >= 1 && e.length <= 16 && peek >= e.code {
                let shift: u32 = 16 - e.length as u32;
                let bin: u32 = peek as u32 >> shift;
                proof {
                    vstd::bits::lemma_u32_shr_is_div(peek as u32, shift);
                    lemma_pow2_pos(shift as nat);
                    vstd::arithmetic::div_mod::lemma_div_is_ordered_by_denominator(
                        peek as int,
                        1,
                        e.step() as int,
                    );
                }
                let index: usize = ((e.cum_index as i32 + 131072 - bin as i32) as u32 % 256) as usize;
                let skipped = reader.read_bits(e.length);
                return Ok(index);
            }
            i = i + 1;
        }
        Err(Error::HuffmanNoMatch)
    }

    /// Decodes a symbol.
    pub fn decode(&self, reader: &mut Sv7BitReader<'_>) -> (r: Result<i8>)
        ensures
            final(reader)@.bits == old(reader)@.bits,
            (r, final(reader)@.pos) == self.parse(old(reader)@.bits, old(reader)@.pos),
    {
        let index: usize = self.decode_symbol_index(reader)?;
        if index < self.symbols.len() {
            Ok(self.symbols[index])
        } else {
            Err(Error::HuffmanNoMatch)
        }
    }
}

} // verus!
