//! Encoding the scalefactors of the older stream format: the inverse of decoding them.

use crate::bit_writer::Sv7BitWriter;
use crate::bits;
use crate::coding;
use crate::coding::Emit;
use crate::error::{Error, Result};
use crate::sv7_huffman;
use crate::sv7_huffman::{write_value, Sv7HuffmanEntry};
use crate::sv7_scf_decode;
use crate::sv7_scf_decode::{
    sv7_dscf_table, sv7_scfi_table, Sv7BandScf, DSCF_ESCAPE_RAW_BITS, DSCF_ESCAPE_SYMBOL,
};
use crate::sv8_dscf_loop;
use crate::sv8_dscf_loop::SCF_GRANULES_PER_BAND;
use vstd::arithmetic::power2::*;
use vstd::prelude::*;

verus! {

/// The method that codes the fewest of the scalefactors.
pub open spec fn method_for(s: [i32; 3]) -> u8 {
    if s[0] == s[1] && s[1] == s[2] {
        3
    } else if s[0] == s[1] {
        2
    } else if s[1] == s[2] {
        1
    } else {
        0
    }
}

/// The scalefactors that a method does not code repeat the one before.
pub open spec fn consistent(scfi: u8, s: [i32; 3]) -> bool {
    &&& !sv8_dscf_loop::is_coded(scfi as int, 1) ==> s[1] == s[0]
    &&& !sv8_dscf_loop::is_coded(scfi as int, 2) ==> s[2] == s[1]
}

/// What a scalefactor that follows `reference` is written as.
pub open spec fn emit_index(reference: i32, index: i32) -> Emit {
    let d = index - reference;
    if -7 <= d <= 7 {
        sv7_huffman::emit(sv7_scf_decode::difference_rows(), d as i8)
    } else if index < 0 || index > 63 {
        Emit::fail(Error::SampleOutOfRange(index))
    } else {
        sv7_huffman::emit(sv7_scf_decode::difference_rows(), DSCF_ESCAPE_SYMBOL).chain(
            Emit::of(bits::field(index as nat, 6)),
        )
    }
}

/// What a later scalefactor is written as.
pub open spec fn emit_later(coded: bool, reference: i32, index: i32) -> Emit {
    if coded {
        emit_index(reference, index)
    } else {
        Emit::of(Seq::empty())
    }
}

/// What a method is written as.
pub open spec fn emit_method(scfi: u8) -> Emit {
    if scfi > 3 {
        Emit::fail(Error::InvalidScfCodingMethod(scfi as i8))
    } else {
        sv7_huffman::emit(sv7_scf_decode::method_rows(), scfi as i8)
    }
}

/// What the scalefactors of a band and channel are written as, given their method.
pub open spec fn emit_scalefactors(scfi: u8, s: [i32; 3], reference: i32) -> Emit {
    if scfi > 3 {
        Emit::fail(Error::InvalidScfCodingMethod(scfi as i8))
    } else {
        emit_index(reference, s[0]).chain(
            emit_later(sv8_dscf_loop::is_coded(scfi as int, 1), s[0], s[1]),
        ).chain(emit_later(sv8_dscf_loop::is_coded(scfi as int, 2), s[1], s[2]))
    }
}

/// What the method and the scalefactors of a band and channel are written as.
pub open spec fn emit_band(scfi: u8, s: [i32; 3], reference: i32) -> Emit {
    emit_method(scfi).chain(emit_scalefactors(scfi, s, reference))
}

// ---------------------------------------------------------------------------
// Encoders
// ---------------------------------------------------------------------------

/// The method that codes the fewest of the scalefactors.
pub fn choose_scfi(indices: [i32; SCF_GRANULES_PER_BAND]) -> (m: u8)
    ensures
        m == method_for(indices),
        m <= 3,
        consistent(m, indices),
        forall|k: u8|
            k <= 3 && #[trigger] consistent(k, indices) ==> coded_count(m) <= coded_count(k),
{
    if indices[0] == indices[1] && indices[1] == indices[2] {
        3
    } else if indices[0] == indices[1] {
        2
    } else if indices[1] == indices[2] {
        1
    } else {
        0
    }
}

/// How many scalefactors a method codes.
pub open spec fn coded_count(scfi: u8) -> int {
    1 + (if sv8_dscf_loop::is_coded(scfi as int, 1) {
        1int
    } else {
        0int
    }) + (if sv8_dscf_loop::is_coded(scfi as int, 2) {
        1int
    } else {
        0int
    })
}

/// Writes a scalefactor that follows `reference`. One that is neither near it nor in
/// `0..=63` is refused.
fn write_scf_index(writer: &mut Sv7BitWriter, reference: i32, index: i32) -> (r: Result<()>)
    ensures
        final(writer)@ == old(writer)@ + emit_index(reference, index).code,
        r == emit_index(reference, index).result,
{
    let ghost start = writer@;
    let table: [Sv7HuffmanEntry; 16] = sv7_dscf_table();
    let d: i64 = index as i64 - reference as i64;
    if -7 <= d && d <= 7 {
        write_value(writer, &table, d as i8)
    } else if index < 0 || index > 63 {
        assert(writer@ =~= old(writer)@ + Seq::<bool>::empty());
        Err(Error::SampleOutOfRange(index))
    } else {
        match write_value(writer, &table, DSCF_ESCAPE_SYMBOL) {
            Ok(_) => {},
            Err(e) => {
                return Err(e);
            },
        }
        writer.write_bits(index as u32, DSCF_ESCAPE_RAW_BITS);
        assert(writer@ =~= start + (sv7_huffman::emit(
            sv7_scf_decode::difference_rows(),
            DSCF_ESCAPE_SYMBOL,
        ).code + bits::field(index as nat, 6)));
        Ok(())
    }
}

/// Writes the method and the scalefactors of a band and channel. Methods above 3 are
/// refused.
pub fn encode_sv7_band_scf(
    writer: &mut Sv7BitWriter,
    scfi: u8,
    indices: [i32; SCF_GRANULES_PER_BAND],
    prev_band_scf2: i32,
) -> (r: Result<()>)
    ensures
        final(writer)@ == old(writer)@ + emit_band(scfi, indices, prev_band_scf2).code,
        r == emit_band(scfi, indices, prev_band_scf2).result,
{
    let ghost start = writer@;
    match encode_sv7_scfi(writer, scfi) {
        Ok(_) => {},
        Err(e) => {
            return Err(e);
        },
    }
    let written: Result<()> = encode_sv7_band_dscf(writer, scfi, indices, prev_band_scf2);
    assert(writer@ =~= start + (emit_method(scfi).code + emit_scalefactors(
        scfi,
        indices,
        prev_band_scf2,
    ).code));
    written
}

/// Writes a method. Methods above 3 are refused.
pub fn encode_sv7_scfi(writer: &mut Sv7BitWriter, scfi: u8) -> (r: Result<()>)
    ensures
        final(writer)@ == old(writer)@ + emit_method(scfi).code,
        r == emit_method(scfi).result,
{
    if scfi > 3 {
        assert(writer@ =~= old(writer)@ + Seq::<bool>::empty());
        return Err(Error::InvalidScfCodingMethod(scfi as i8));
    }
    let table: [Sv7HuffmanEntry; 4] = sv7_scfi_table();
    write_value(writer, &table, scfi as i8)
}

/// Writes the scalefactors of a band and channel, given their method; the first follows
/// `reference`. Methods above 3 are refused.
pub fn encode_sv7_band_dscf(
    writer: &mut Sv7BitWriter,
    scfi: u8,
    indices: [i32; SCF_GRANULES_PER_BAND],
    reference: i32,
) -> (r: Result<()>)
    ensures
        final(writer)@ == old(writer)@ + emit_scalefactors(scfi, indices, reference).code,
        r == emit_scalefactors(scfi, indices, reference).result,
{
    let ghost start = writer@;
    if scfi > 3 {
        assert(writer@ =~= old(writer)@ + Seq::<bool>::empty());
        return Err(Error::InvalidScfCodingMethod(scfi as i8));
    }
    let ghost a = emit_index(reference, indices[0]);
    let ghost b = emit_later(sv8_dscf_loop::is_coded(scfi as int, 1), indices[0], indices[1]);
    let ghost c = emit_later(sv8_dscf_loop::is_coded(scfi as int, 2), indices[1], indices[2]);
    match write_scf_index(writer, reference, indices[0]) {
        Ok(_) => {},
        Err(e) => {
            return Err(e);
        },
    }
    if scfi == 0 || scfi == 1 {
        let second: Result<()> = write_scf_index(writer, indices[0], indices[1]);
        assert(writer@ =~= start + (a.code + b.code));
        match second {
            Ok(_) => {},
            Err(e) => {
                return Err(e);
            },
        }
    } else {
        assert(writer@ =~= start + (a.code + b.code));
    }
    if scfi == 0 || scfi == 2 {
        let third: Result<()> = write_scf_index(writer, indices[1], indices[2]);
        assert(writer@ =~= start + (a.code + b.code + c.code));
        third
    } else {
        assert(writer@ =~= start + (a.code + b.code + c.code));
        Ok(())
    }
}

/// Writes the scalefactors of a band and channel with the method that codes the fewest of
/// them, and returns the method.
pub fn encode_sv7_band_scf_auto(
    writer: &mut Sv7BitWriter,
    indices: [i32; SCF_GRANULES_PER_BAND],
    prev_band_scf2: i32,
) -> (r: Result<u8>)
    ensures
        ({
            let e = emit_band(method_for(indices), indices, prev_band_scf2);
            &&& final(writer)@ == old(writer)@ + e.code
            &&& match e.result {
                Ok(_) => r == Ok::<u8, Error>(method_for(indices)),
                Err(f) => r == Err::<u8, Error>(f),
            }
        }),
{
    let scfi: u8 = choose_scfi(indices);
    match encode_sv7_band_scf(writer, scfi, indices, prev_band_scf2) {
        Ok(_) => Ok(scfi),
        Err(e) => Err(e),
    }
}

// ---------------------------------------------------------------------------
// What was written reads back
// ---------------------------------------------------------------------------

/// A written scalefactor reads back.
proof fn lemma_index_reads_back(bits: Seq<bool>, pos: nat, reference: i32, index: i32)
    requires
        emit_index(reference, index).result is Ok,
        coding::readable(bits, pos, emit_index(reference, index).code),
    ensures
        sv7_scf_decode::parse_index(bits, pos, reference) == (
            Ok::<i32, Error>(index),
            pos + emit_index(reference, index).code.len(),
        ),
{
    sv7_scf_decode::lemma_codes_orderly();
    let rows = sv7_scf_decode::difference_rows();
    let d = index - reference;
    if -7 <= d <= 7 {
        sv7_huffman::law_value_reads_back(rows, bits, pos, d as i8);
    } else {
        let e = sv7_huffman::emit(rows, DSCF_ESCAPE_SYMBOL);
        bits::lemma_field_len(index as nat, 6);
        lemma2_to64();
        bits::lemma_at_concat(bits, pos, e.code, bits::field(index as nat, 6));
        sv7_huffman::law_value_reads_back(rows, bits, pos, DSCF_ESCAPE_SYMBOL);
        bits::lemma_field_at(bits, pos + e.code.len(), index as nat, 6);
    }
}

/// Written scalefactors read back, given their method.
pub proof fn law_scalefactors_read_back(
    bits: Seq<bool>,
    pos: nat,
    scfi: u8,
    s: [i32; 3],
    reference: i32,
)
    requires
        consistent(scfi, s),
        emit_scalefactors(scfi, s, reference).result is Ok,
        coding::readable(bits, pos, emit_scalefactors(scfi, s, reference).code),
    ensures
        sv7_scf_decode::parse_scalefactors(bits, pos, scfi, reference) == (
            Ok::<Sv7BandScf, Error>(
                Sv7BandScf { scfi, indices: s, clamped: sv7_scf_decode::out_of_range(s) },
            ),
            pos + emit_scalefactors(scfi, s, reference).code.len(),
        ),
{
    let two = sv8_dscf_loop::is_coded(scfi as int, 1);
    let three = sv8_dscf_loop::is_coded(scfi as int, 2);
    let a = emit_index(reference, s[0]);
    let b = emit_later(two, s[0], s[1]);
    let c = emit_later(three, s[1], s[2]);
    bits::lemma_at_concat(bits, pos, a.code + b.code, c.code);
    bits::lemma_at_concat(bits, pos, a.code, b.code);
    lemma_index_reads_back(bits, pos, reference, s[0]);
    let p = pos + a.code.len();
    if two {
        lemma_index_reads_back(bits, p, s[0], s[1]);
    }
    let q = p + b.code.len();
    if three {
        lemma_index_reads_back(bits, q, s[1], s[2]);
    }
    coding::lemma_triple(s);
}

/// A written method reads back.
pub proof fn law_method_reads_back(bits: Seq<bool>, pos: nat, scfi: u8)
    requires
        emit_method(scfi).result is Ok,
        coding::readable(bits, pos, emit_method(scfi).code),
    ensures
        sv7_scf_decode::parse_method(bits, pos) == (
            Ok::<u8, Error>(scfi),
            pos + emit_method(scfi).code.len(),
        ),
{
    sv7_scf_decode::lemma_codes_orderly();
    sv7_huffman::law_value_reads_back(sv7_scf_decode::method_rows(), bits, pos, scfi as i8);
}

/// A written band reads back, with its method and its scalefactors.
pub proof fn law_band_reads_back(
    bits: Seq<bool>,
    pos: nat,
    scfi: u8,
    s: [i32; 3],
    reference: i32,
)
    requires
        consistent(scfi, s),
        emit_band(scfi, s, reference).result is Ok,
        coding::readable(bits, pos, emit_band(scfi, s, reference).code),
    ensures
        sv7_scf_decode::parse_band(bits, pos, reference) == (
            Ok::<Sv7BandScf, Error>(
                Sv7BandScf { scfi, indices: s, clamped: sv7_scf_decode::out_of_range(s) },
            ),
            pos + emit_band(scfi, s, reference).code.len(),
        ),
{
    let a = emit_method(scfi);
    let b = emit_scalefactors(scfi, s, reference);
    bits::lemma_at_concat(bits, pos, a.code, b.code);
    law_method_reads_back(bits, pos, scfi);
    law_scalefactors_read_back(bits, pos + a.code.len(), scfi, s, reference);
}

/// Every method, and every scalefactor that is near the one before or in `0..=63`, can be
/// written.
pub proof fn law_band_writes(scfi: u8, s: [i32; 3], reference: i32)
    requires
        scfi <= 3,
        0 <= s[0] <= 63,
        0 <= s[1] <= 63,
        0 <= s[2] <= 63,
    ensures
        emit_band(scfi, s, reference).result is Ok,
{
    lemma_method_codes(scfi);
    lemma_index_codes(reference, s[0]);
    lemma_index_codes(s[0], s[1]);
    lemma_index_codes(s[1], s[2]);
}

proof fn lemma_method_codes(scfi: u8)
    requires
        scfi <= 3,
    ensures
        emit_method(scfi).result is Ok,
{
    reveal_with_fuel(sv7_huffman::row_of, 5);
}

proof fn lemma_index_codes(reference: i32, index: i32)
    requires
        0 <= index <= 63,
    ensures
        emit_index(reference, index).result is Ok,
{
    reveal_with_fuel(sv7_huffman::row_of, 17);
}

} // verus!
