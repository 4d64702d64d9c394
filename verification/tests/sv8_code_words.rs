//! Code words of canonical codes.

#![allow(dead_code)]

use oxideav_musepack::bit_reader::Sv7BitReader;
use oxideav_musepack::bit_writer::Sv7BitWriter;
use oxideav_musepack::error::Error;
use oxideav_musepack::sv8_band_header::{
    decode_band_resolutions_grounded, decode_band_resolutions_stereo_grounded, res_ctx_for_above,
    wrap_res,
};
use oxideav_musepack::sv8_huffman::{Sv8CanonicalEntry, Sv8CanonicalTable, Sv8TableSet};
use oxideav_musepack::sv8_huffman_encode::encode_symbol_index;

/// A complete code: `shape` says how many of the symbols, in their order, have code words of
/// each length.
fn code(name: &'static str, shape: &[(u8, u32)], symbols: Vec<i8>) -> Sv8CanonicalTable {
    let mut rows = Vec::new();
    let mut bottom = 0x1_0000_u32;
    let mut index = 0_u32;
    for &(length, count) in shape {
        let step = 1_u32 << (16 - length);
        let top = bottom / step;
        bottom -= count * step;
        rows.push(Sv8CanonicalEntry {
            code: bottom as u16,
            length,
            cum_index: (index + top - 1) as i16,
        });
        index += count;
    }
    Sv8CanonicalTable { lengths: rows.leak(), symbols: symbols.leak(), name }
}

fn pairs(bound: i8) -> Vec<i8> {
    let mut out = Vec::new();
    for hi in -bound..=bound {
        for lo in -bound..=bound {
            out.push((hi << 4) | (lo & 15));
        }
    }
    out
}

fn triples() -> Vec<i8> {
    let mut out: Vec<i8> = vec![62];
    out.extend((0..125_i8).filter(|&s| s != 62));
    out
}

fn levels(bound: i8) -> Vec<i8> {
    let mut out = vec![0];
    for l in 1..=bound {
        out.push(l);
        out.push(-l);
    }
    out
}

fn set() -> &'static Sv8TableSet {
    Box::leak(Box::new(Sv8TableSet {
        bands: code(
            "sv8-canonical-bands",
            &[(1, 1), (3, 1), (4, 1), (5, 1), (6, 13), (7, 9), (8, 1), (9, 1), (10, 1), (11, 1), (12, 1), (13, 2)],
            (0..33).collect(),
        ),
        res: [
            code(
                "sv8-canonical-res-1",
                &[
                    (1, 1), (2, 1), (3, 1), (4, 1), (5, 1), (6, 1), (7, 1), (8, 1), (9, 1), (10, 1), (11, 1),
                    (12, 1), (13, 1), (14, 1), (15, 1), (16, 2),
                ],
                (0..17).collect(),
            ),
            code(
                "sv8-canonical-res-2",
                &[(1, 1), (3, 1), (4, 5), (5, 1), (6, 1), (7, 1), (8, 1), (9, 1), (10, 1), (11, 1), (12, 1), (13, 2)],
                (0..17).collect(),
            ),
        ],
        scfi: [
            code("sv8-canonical-scfi-1", &[(1, 1), (2, 1), (3, 2)], (0..4).collect()),
            code(
                "sv8-canonical-scfi-2",
                &[(1, 1), (3, 1), (4, 1), (5, 7), (6, 6)],
                (0..16).collect(),
            ),
        ],
        dscf: [
            code(
                "sv8-canonical-dscf-1",
                &[(1, 1), (3, 1), (4, 1), (5, 1), (6, 1), (7, 14), (8, 39), (9, 1), (10, 1), (11, 1), (12, 1), (13, 2)],
                (0..64).collect(),
            ),
            code(
                "sv8-canonical-dscf-2",
                &[
                    (1, 1), (3, 1), (4, 1), (5, 1), (6, 1), (7, 14), (8, 39), (9, 1), (10, 1), (11, 1), (12, 1),
                    (13, 1), (14, 2),
                ],
                (0..65).collect(),
            ),
        ],
        q1: code(
            "sv8-canonical-q1",
            &[(3, 5), (4, 5), (5, 1), (6, 1), (7, 1), (8, 1), (9, 1), (10, 1), (11, 1), (12, 2)],
            (0..19).collect(),
        ),
        q2: [
            code(
                "sv8-canonical-q2-1",
                &[(1, 1), (3, 1), (4, 1), (5, 1), (6, 1), (7, 1), (8, 15), (9, 101), (10, 1), (11, 2)],
                triples(),
            ),
            code(
                "sv8-canonical-q2-2",
                &[(1, 1), (3, 1), (4, 1), (5, 1), (6, 1), (7, 1), (8, 14), (9, 103), (10, 2)],
                triples(),
            ),
        ],
        q3: code(
            "sv8-canonical-q3",
            &[(1, 1), (3, 1), (4, 1), (5, 1), (6, 1), (7, 24), (8, 20)],
            pairs(3),
        ),
        q4: code(
            "sv8-canonical-q4",
            &[(3, 1), (5, 1), (6, 32), (7, 43), (8, 1), (9, 1), (10, 2)],
            pairs(4),
        ),
        q5: [
            code("sv8-canonical-q5-1", &[(1, 1), (3, 1), (4, 1), (5, 9), (6, 1), (7, 2)], levels(7)),
            code("sv8-canonical-q5-2", &[(1, 1), (4, 3), (5, 9), (6, 2)], levels(7)),
        ],
        q6: [
            code(
                "sv8-canonical-q6-1",
                &[(1, 1), (3, 1), (4, 1), (5, 1), (6, 11), (7, 13), (8, 1), (9, 2)],
                levels(15),
            ),
            code("sv8-canonical-q6-2", &[(1, 1), (4, 1), (5, 1), (6, 24), (7, 4)], levels(15)),
        ],
        q7: [
            code(
                "sv8-canonical-q7-1",
                &[(1, 1), (3, 1), (4, 1), (5, 1), (6, 1), (7, 12), (8, 43), (9, 1), (10, 2)],
                levels(31),
            ),
            code("sv8-canonical-q7-2", &[(1, 1), (5, 1), (6, 1), (7, 56), (8, 4)], levels(31)),
        ],
        q8: [
            code(
                "sv8-canonical-q8-1",
                &[(1, 1), (3, 1), (4, 1), (5, 1), (6, 1), (7, 1), (8, 14), (9, 103), (10, 1), (11, 1), (12, 2)],
                levels(63),
            ),
            code("sv8-canonical-q8-2", &[(1, 1), (7, 3), (8, 121), (9, 2)], levels(63)),
        ],
        q9up: code(
            "sv8-canonical-q9up",
            &[(1, 1), (6, 1), (7, 1), (8, 1), (9, 232), (10, 20)],
            (i8::MIN..=i8::MAX).collect(),
        ),
    }))
}

/// The words of symbols, left-justified.
fn all_tables() -> Vec<&'static Sv8CanonicalTable> {
    let t = set();
    vec![&t.bands, &t.res[0], &t.res[1], &t.scfi[0], &t.dscf[1], &t.q1, &t.q3, &t.q5[0], &t.q8[1]]
}

#[test]
fn no_word_starts_another() {
    for t in all_tables() {
        let words: Vec<(u16, u8)> = (0..t.symbols.len())
            .map(|i| encode_symbol_index(t, i).unwrap())
            .collect();
        for (i, &(a, n)) in words.iter().enumerate() {
            assert!((1..=16).contains(&n));
            assert_eq!(u32::from(a) % (1_u32 << (16 - n)), 0);
            for (j, &(b, m)) in words.iter().enumerate() {
                if i != j && n <= m {
                    assert_ne!(a >> (16 - n), b >> (16 - n), "{}: {i} and {j}", t.name);
                }
            }
        }
        let past = t.symbols.len();
        assert_eq!(
            encode_symbol_index(t, past),
            Err(Error::SymbolNotEncodable(past as i32))
        );
    }
}

fn table(rows: &[(u16, u8, i16)], symbols: &'static [i8]) -> Sv8CanonicalTable {
    let rows: Vec<Sv8CanonicalEntry> = rows
        .iter()
        .map(|&(code, length, cum_index)| Sv8CanonicalEntry { code, length, cum_index })
        .collect();
    Sv8CanonicalTable { lengths: rows.leak(), symbols, name: "a code of a few words" }
}

#[test]
fn the_set_meets_every_premise() {
    assert!(set().is_canonical());
    assert!(set().is_reversible());
    assert!(set().is_unambiguous());
}

#[test]
fn canonical_codes_are_told_apart() {
    assert!(table(&[(0x8000, 1, 1), (0x4000, 2, 2), (0x0000, 2, 2)], &[0, 1, 2]).is_canonical());
    assert!(table(&[], &[]).is_canonical());
    assert!(table(&[(0x8000, 1, 1), (0xFFFF, 0, 0)], &[0]).is_canonical());
    assert!(!table(&[(0x8001, 1, 1)], &[0]).is_canonical());
    assert!(!table(&[(0x4000, 2, 2), (0x8000, 1, 1)], &[0, 1]).is_canonical());
    assert!(!table(&[(0x8000, 2, 3), (0x0000, 1, 1)], &[0, 1, 2]).is_canonical());
    assert!(!table(&[], &[0; 257]).is_canonical());
    let mut broken = set().clone();
    broken.q9up = table(&[(0x8001, 1, 1)], &[0]);
    assert!(!broken.is_canonical());
}

#[test]
fn reversible_codes_are_told_apart() {
    assert!(table(&[(0x8000, 1, 1), (0x0000, 1, 1)], &[5, -5]).is_reversible());
    assert!(!table(&[(0x8000, 1, 1), (0x0000, 1, 1)], &[5, 5]).is_reversible());
    let mut broken = set().clone();
    broken.q2[1] = table(&[(0x8000, 1, 1), (0x0000, 1, 1)], &[5, 5]);
    assert!(!broken.is_reversible());
}

#[test]
fn ambiguous_symbols_are_told_apart() {
    let mut broken = set().clone();
    broken.bands.symbols = &[0, 33];
    assert!(!broken.is_unambiguous());
    broken = set().clone();
    broken.res[1].symbols = &[0, 17];
    assert!(!broken.is_unambiguous());
    broken = set().clone();
    broken.dscf[0].symbols = &[-1];
    assert!(!broken.is_unambiguous());
}

/// Writes symbols of band types, each in the context of the type that the ones before give.
fn words(symbols: &[i8]) -> Vec<(u16, u8)> {
    let mut above: Option<i8> = None;
    let mut out = Vec::new();
    for &s in symbols {
        let ctx = above.map_or(0, res_ctx_for_above);
        let t = &set().res[ctx as usize];
        let index = t.symbols.iter().position(|&x| x == s).unwrap();
        out.push(encode_symbol_index(t, index).unwrap());
        above = Some(wrap_res(i32::from(s) + i32::from(above.unwrap_or(0))));
    }
    out
}

fn bytes_of(words: &[(u16, u8)]) -> Vec<u8> {
    let mut w = Sv7BitWriter::new();
    for &(code, len) in words {
        w.write_bits(u32::from(code >> (16 - len)), len);
    }
    w.write_bits(0, 16);
    w.finish()
}

#[test]
fn words_of_two_channels_in_turn_are_two_walks() {
    let left = words(&[4, 0, 3, 15, 1, 0]);
    let right = words(&[0, 2, 16, 0, 7, 5]);
    let (l, r) = (bytes_of(&left), bytes_of(&right));
    let a = decode_band_resolutions_grounded(set(), &mut Sv7BitReader::new(&l), 6).unwrap();
    let b = decode_band_resolutions_grounded(set(), &mut Sv7BitReader::new(&r), 6).unwrap();
    let turns: Vec<(u16, u8)> = left.iter().zip(&right).flat_map(|(x, y)| [*x, *y]).collect();
    let both = bytes_of(&turns);
    let pairs =
        decode_band_resolutions_stereo_grounded(set(), &mut Sv7BitReader::new(&both), 6).unwrap();
    for k in 0..6 {
        assert_eq!(pairs[k], [a[k], b[k]]);
    }
}
