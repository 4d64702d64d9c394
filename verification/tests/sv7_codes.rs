//! Codes of the older format.

#![allow(dead_code)]

use oxideav_musepack::sv7_band_decode::Sv7TableSet;
use oxideav_musepack::sv7_huffman::{Sv7HuffmanEntry, is_orderly};

fn row(code: u16, length: u8) -> Sv7HuffmanEntry {
    Sv7HuffmanEntry { code, length, value: 0 }
}

#[test]
fn orderly_rows_are_told_apart() {
    assert!(is_orderly(&[]));
    assert!(is_orderly(&[row(0x8000, 1), row(0x4000, 2), row(0x0000, 2)]));
    assert!(is_orderly(&[row(0x8000, 1), row(0x0000, 2)]));
    assert!(!is_orderly(&[row(0x8000, 0)]));
    assert!(!is_orderly(&[row(0x8000, 17)]));
    assert!(!is_orderly(&[row(0x8000, 1), row(0x4001, 2)]));
    assert!(!is_orderly(&[row(0x8000, 1), row(0x8000, 2)]));
    assert!(!is_orderly(&[row(0x4000, 2), row(0x8000, 1)]));
}

#[test]
fn orderly_sets_are_told_apart() {
    let good: &'static [Sv7HuffmanEntry] = vec![row(0x8000, 1), row(0x0000, 1)].leak();
    let bad: &'static [Sv7HuffmanEntry] = vec![row(0x0000, 1), row(0x8000, 1)].leak();
    let set = |hdr, q1, q7| Sv7TableSet {
        hdr,
        q1: [good, q1],
        q2: [good; 2],
        q3: [good; 2],
        q4: [good; 2],
        q5: [good; 2],
        q6: [good; 2],
        q7: [q7, good],
    };
    assert!(set(good, good, good).is_orderly());
    assert!(!set(bad, good, good).is_orderly());
    assert!(!set(good, bad, good).is_orderly());
    assert!(!set(good, good, bad).is_orderly());
}
