//! Code tables.

#![allow(dead_code)]

use oxideav_musepack::sv8_huffman::{
    Sv8CanonicalEntry, Sv8CanonicalTable, Sv8TableRole, Sv8TableSet, table_for_role,
};

/// A complete code: `shape` says how many of the symbols, in their order, have code words of
/// each length.
fn code(name: &'static str, shape: &[(u8, u32)], symbols: Vec<i8>) -> Sv8CanonicalTable {
    let mut rows = Vec::new();
    let mut bottom = 0x1_0000_u32;
    let mut index = 0_u32;
    for &(length, count) in shape {
        let step = 1_u32 << (16 - length);
        let top = bottom / step;
        bottom -= count * step;
        rows.push(Sv8CanonicalEntry {
            code: bottom as u16,
            length,
            cum_index: (index + top - 1) as i16,
        });
        index += count;
    }
    Sv8CanonicalTable { lengths: rows.leak(), symbols: symbols.leak(), name }
}

fn pairs(bound: i8) -> Vec<i8> {
    let mut out = Vec::new();
    for hi in -bound..=bound {
        for lo in -bound..=bound {
            out.push((hi << 4) | (lo & 15));
        }
    }
    out
}

fn triples() -> Vec<i8> {
    let mut out: Vec<i8> = vec![62];
    out.extend((0..125_i8).filter(|&s| s != 62));
    out
}

fn levels(bound: i8) -> Vec<i8> {
    let mut out = vec![0];
    for l in 1..=bound {
        out.push(l);
        out.push(-l);
    }
    out
}

fn set() -> &'static Sv8TableSet {
    Box::leak(Box::new(Sv8TableSet {
        bands: code(
            "sv8-canonical-bands",
            &[(1, 1), (3, 1), (4, 1), (5, 1), (6, 13), (7, 9), (8, 1), (9, 1), (10, 1), (11, 1), (12, 1), (13, 2)],
            (0..33).collect(),
        ),
        res: [
            code(
                "sv8-canonical-res-1",
                &[
                    (1, 1), (2, 1), (3, 1), (4, 1), (5, 1), (6, 1), (7, 1), (8, 1), (9, 1), (10, 1), (11, 1),
                    (12, 1), (13, 1), (14, 1), (15, 1), (16, 2),
                ],
                (0..17).collect(),
            ),
            code(
                "sv8-canonical-res-2",
                &[(1, 1), (3, 1), (4, 5), (5, 1), (6, 1), (7, 1), (8, 1), (9, 1), (10, 1), (11, 1), (12, 1), (13, 2)],
                (0..17).collect(),
            ),
        ],
        scfi: [
            code("sv8-canonical-scfi-1", &[(1, 1), (2, 1), (3, 2)], (0..4).collect()),
            code(
                "sv8-canonical-scfi-2",
                &[(1, 1), (3, 1), (4, 1), (5, 7), (6, 6)],
                (0..16).collect(),
            ),
        ],
        dscf: [
            code(
                "sv8-canonical-dscf-1",
                &[(1, 1), (3, 1), (4, 1), (5, 1), (6, 1), (7, 14), (8, 39), (9, 1), (10, 1), (11, 1), (12, 1), (13, 2)],
                (0..64).collect(),
            ),
            code(
                "sv8-canonical-dscf-2",
                &[
                    (1, 1), (3, 1), (4, 1), (5, 1), (6, 1), (7, 14), (8, 39), (9, 1), (10, 1), (11, 1), (12, 1),
                    (13, 1), (14, 2),
                ],
                (0..65).collect(),
            ),
        ],
        q1: code(
            "sv8-canonical-q1",
            &[(3, 5), (4, 5), (5, 1), (6, 1), (7, 1), (8, 1), (9, 1), (10, 1), (11, 1), (12, 2)],
            (0..19).collect(),
        ),
        q2: [
            code(
                "sv8-canonical-q2-1",
                &[(1, 1), (3, 1), (4, 1), (5, 1), (6, 1), (7, 1), (8, 15), (9, 101), (10, 1), (11, 2)],
                triples(),
            ),
            code(
                "sv8-canonical-q2-2",
                &[(1, 1), (3, 1), (4, 1), (5, 1), (6, 1), (7, 1), (8, 14), (9, 103), (10, 2)],
                triples(),
            ),
        ],
        q3: code(
            "sv8-canonical-q3",
            &[(1, 1), (3, 1), (4, 1), (5, 1), (6, 1), (7, 24), (8, 20)],
            pairs(3),
        ),
        q4: code(
            "sv8-canonical-q4",
            &[(3, 1), (5, 1), (6, 32), (7, 43), (8, 1), (9, 1), (10, 2)],
            pairs(4),
        ),
        q5: [
            code("sv8-canonical-q5-1", &[(1, 1), (3, 1), (4, 1), (5, 9), (6, 1), (7, 2)], levels(7)),
            code("sv8-canonical-q5-2", &[(1, 1), (4, 3), (5, 9), (6, 2)], levels(7)),
        ],
        q6: [
            code(
                "sv8-canonical-q6-1",
                &[(1, 1), (3, 1), (4, 1), (5, 1), (6, 11), (7, 13), (8, 1), (9, 2)],
                levels(15),
            ),
            code("sv8-canonical-q6-2", &[(1, 1), (4, 1), (5, 1), (6, 24), (7, 4)], levels(15)),
        ],
        q7: [
            code(
                "sv8-canonical-q7-1",
                &[(1, 1), (3, 1), (4, 1), (5, 1), (6, 1), (7, 12), (8, 43), (9, 1), (10, 2)],
                levels(31),
            ),
            code("sv8-canonical-q7-2", &[(1, 1), (5, 1), (6, 1), (7, 56), (8, 4)], levels(31)),
        ],
        q8: [
            code(
                "sv8-canonical-q8-1",
                &[(1, 1), (3, 1), (4, 1), (5, 1), (6, 1), (7, 1), (8, 14), (9, 103), (10, 1), (11, 1), (12, 2)],
                levels(63),
            ),
            code("sv8-canonical-q8-2", &[(1, 1), (7, 3), (8, 121), (9, 2)], levels(63)),
        ],
        q9up: code(
            "sv8-canonical-q9up",
            &[(1, 1), (6, 1), (7, 1), (8, 1), (9, 232), (10, 20)],
            (i8::MIN..=i8::MAX).collect(),
        ),
    }))
}

fn bands_table() -> &'static Sv8CanonicalTable {
    &set().bands
}

fn res_1_table() -> &'static Sv8CanonicalTable {
    &set().res[0]
}

fn res_2_table() -> &'static Sv8CanonicalTable {
    &set().res[1]
}

fn q1_table() -> &'static Sv8CanonicalTable {
    &set().q1
}

fn q9up_table() -> &'static Sv8CanonicalTable {
    &set().q9up
}

#[test]
fn min_max_length_helpers() {
    assert_eq!(bands_table().min_length(), 1);
    assert_eq!(bands_table().max_length(), 13);
    assert_eq!(q1_table().min_length(), 3);
    assert_eq!(q1_table().max_length(), 12);
}

#[test]
fn table_for_role_simple_tables_ignore_ctx() {
    let tables = set();
    for ctx in 0..=3u8 {
        assert!(std::ptr::eq(
            table_for_role(tables, Sv8TableRole::Bands, ctx).unwrap(),
            &tables.bands,
        ));
        assert!(std::ptr::eq(
            table_for_role(tables, Sv8TableRole::Q1, ctx).unwrap(),
            &tables.q1,
        ));
        assert!(std::ptr::eq(
            table_for_role(tables, Sv8TableRole::Q3, ctx).unwrap(),
            &tables.q3,
        ));
        assert!(std::ptr::eq(
            table_for_role(tables, Sv8TableRole::Q4, ctx).unwrap(),
            &tables.q4,
        ));
        assert!(std::ptr::eq(
            table_for_role(tables, Sv8TableRole::Q9up, ctx).unwrap(),
            &tables.q9up,
        ));
    }
}

#[test]
fn table_for_role_context_pair_dispatches() {
    let tables = set();
    for &(role, t0, t1) in &[
        (Sv8TableRole::Res, &tables.res[0], &tables.res[1]),
        (Sv8TableRole::Scfi, &tables.scfi[0], &tables.scfi[1]),
        (Sv8TableRole::Dscf, &tables.dscf[0], &tables.dscf[1]),
        (Sv8TableRole::Q2, &tables.q2[0], &tables.q2[1]),
        (Sv8TableRole::Q5, &tables.q5[0], &tables.q5[1]),
        (Sv8TableRole::Q6, &tables.q6[0], &tables.q6[1]),
        (Sv8TableRole::Q7, &tables.q7[0], &tables.q7[1]),
        (Sv8TableRole::Q8, &tables.q8[0], &tables.q8[1]),
    ] {
        assert!(std::ptr::eq(table_for_role(tables, role, 0).unwrap(), t0,));
        assert!(std::ptr::eq(table_for_role(tables, role, 1).unwrap(), t1,));
    }
}

#[test]
fn table_for_role_rejects_oor_context() {
    for role in [
        Sv8TableRole::Res,
        Sv8TableRole::Scfi,
        Sv8TableRole::Dscf,
        Sv8TableRole::Q2,
        Sv8TableRole::Q5,
        Sv8TableRole::Q6,
        Sv8TableRole::Q7,
        Sv8TableRole::Q8,
    ] {
        assert!(table_for_role(set(), role, 2).is_none());
        assert!(table_for_role(set(), role, 255).is_none());
    }
}

#[test]
fn sv8_canonical_table_metadata_carries_csv_stem() {
    assert_eq!(bands_table().name, "sv8-canonical-bands");
    assert_eq!(q9up_table().name, "sv8-canonical-q9up");
    assert_eq!(res_1_table().name, "sv8-canonical-res-1");
    assert_eq!(res_2_table().name, "sv8-canonical-res-2");
}

#[test]
fn sv8_canonical_table_row_helpers() {
    assert_eq!(bands_table().len_table_rows(), bands_table().lengths.len());
    assert_eq!(bands_table().sym_table_rows(), bands_table().symbols.len());
    assert_eq!(q9up_table().sym_table_rows(), 256);
}
