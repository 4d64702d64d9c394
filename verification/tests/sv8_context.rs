//! The sample contexts.

#![allow(dead_code)]

use oxideav_musepack::sv8_context::{Sv8Context, case2_magnitude, context_threshold};
use oxideav_musepack::sv8_sample_decode::unpack_grouped3_symbol;

#[test]
fn thresholds_match_spec_table() {
    assert_eq!(context_threshold(2), Some(3));
    assert_eq!(context_threshold(5), Some(1));
    assert_eq!(context_threshold(6), Some(3));
    assert_eq!(context_threshold(7), Some(4));
    assert_eq!(context_threshold(8), Some(8));
}

#[test]
fn non_context_band_types_have_no_threshold() {
    for bt in [-1_i8, 0, 1, 3, 4, 9, 10, 17] {
        assert_eq!(context_threshold(bt), None, "band_type {bt}");
    }
}

#[test]
fn new_initialises_idx_to_twice_threshold() {
    assert_eq!(Sv8Context::new(2).unwrap().idx(), 6);
    assert_eq!(Sv8Context::new(5).unwrap().idx(), 2);
    assert_eq!(Sv8Context::new(6).unwrap().idx(), 6);
    assert_eq!(Sv8Context::new(7).unwrap().idx(), 8);
    assert_eq!(Sv8Context::new(8).unwrap().idx(), 16);
}

#[test]
fn new_rejects_non_context_band_types() {
    assert!(Sv8Context::new(3).is_none());
    assert!(Sv8Context::new(9).is_none());
}

#[test]
fn initial_table_ctx_is_one_for_every_context_band() {
    for bt in [2_i8, 5, 6, 7, 8] {
        assert_eq!(
            Sv8Context::new(bt).unwrap().table_ctx(),
            1,
            "band_type {bt}"
        );
    }
}

#[test]
fn table_ctx_picks_one_above_threshold_zero_at_or_below() {
    let mut c = Sv8Context::new(5).unwrap();
    assert_eq!(c.table_ctx(), 1);
    c.update_sample(0);
    assert_eq!(c.idx(), 1);
    assert_eq!(c.table_ctx(), 0);
    c.update_sample(3);
    assert_eq!(c.idx(), 3);
    assert_eq!(c.table_ctx(), 1);
}

#[test]
fn update_sample_uses_absolute_value() {
    let mut a = Sv8Context::new(6).unwrap();
    let mut b = Sv8Context::new(6).unwrap();
    a.update_sample(-4);
    b.update_sample(4);
    assert_eq!(a.idx(), b.idx());
    assert_eq!(a.idx(), (6 >> 1) + 4);
}

#[test]
fn case2_magnitude_sums_three_base5_digit_magnitudes() {
    assert_eq!(case2_magnitude(62), 0);
    assert_eq!(case2_magnitude(0), 6);
    assert_eq!(case2_magnitude(124), 6);
    assert_eq!(case2_magnitude(63), 1);
}

#[test]
fn case2_magnitude_matches_unpacked_triplet_magnitude() {
    for tmp in 0..=124_i32 {
        let triplet = unpack_grouped3_symbol(tmp as i8).unwrap();
        let want: u32 = triplet.iter().map(|&s| (s as i32).unsigned_abs()).sum();
        assert_eq!(case2_magnitude(tmp), want, "tmp = {tmp}");
    }
}

#[test]
fn case2_magnitude_out_of_range_is_zero() {
    assert_eq!(case2_magnitude(-1), 0);
    assert_eq!(case2_magnitude(125), 0);
}

#[test]
fn update_group_folds_case2_magnitude() {
    let mut c = Sv8Context::new(2).unwrap();
    c.update_group(0);
    assert_eq!(c.idx(), 9);
    assert_eq!(c.table_ctx(), 1);
    c.update_group(62);
    assert_eq!(c.idx(), 4);
}
