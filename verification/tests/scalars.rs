use oxideav_ape::freq_model::RANGE_TOTAL_WIDTH;
use oxideav_ape::scalars::{KSUM_PIVOT_DIVISOR, MODEL_ELEMENTS, PREDICTOR_HISTORY_SEED, RANGE_OVERFLOW_SHIFT, RANGE_OVERFLOW_TOTAL_WIDTH, SCALARS_CSV, STAGE1_FILTER_SHIFT, STAGE1_FILTER_WEIGHT, ksum_pivot, parse_named_value, stage1_predict};

#[test]
fn no_lookup_returned_the_unreachable_sentinel() {
    assert_ne!(MODEL_ELEMENTS, u32::MAX);
    assert_ne!(RANGE_OVERFLOW_TOTAL_WIDTH, u32::MAX);
    assert_ne!(RANGE_OVERFLOW_SHIFT, u32::MAX);
    assert_ne!(KSUM_PIVOT_DIVISOR, u32::MAX);
    assert_ne!(STAGE1_FILTER_WEIGHT, u32::MAX as i32);
    assert_ne!(STAGE1_FILTER_SHIFT, u32::MAX);
    assert_ne!(PREDICTOR_HISTORY_SEED, u32::MAX as i32);
}

#[test]
fn scalar_values_match_the_documented_table() {
    assert_eq!(MODEL_ELEMENTS, 64);
    assert_eq!(RANGE_OVERFLOW_TOTAL_WIDTH, 65536);
    assert_eq!(RANGE_OVERFLOW_SHIFT, 16);
    assert_eq!(KSUM_PIVOT_DIVISOR, 32);
    assert_eq!(STAGE1_FILTER_WEIGHT, 31);
    assert_eq!(STAGE1_FILTER_SHIFT, 5);
    assert_eq!(PREDICTOR_HISTORY_SEED, 317);
}

#[test]
fn parse_is_independent_of_row_order() {
    assert_eq!(parse_named_value(SCALARS_CSV, "model_elements"), 64);
    assert_eq!(
        parse_named_value(SCALARS_CSV, "predictor_history_seed"),
        317
    );
}

#[test]
fn parse_does_not_prefix_match_a_longer_name() {
    assert_eq!(parse_named_value(SCALARS_CSV, "model_element"), u32::MAX);
    assert_eq!(parse_named_value(SCALARS_CSV, "stage1_filter"), u32::MAX);
}

#[test]
fn scalars_agree_with_freq_model_module() {
    assert_eq!(MODEL_ELEMENTS as usize, oxideav_ape::freq_model::MODEL_ELEMENTS);
    assert_eq!(
        RANGE_OVERFLOW_TOTAL_WIDTH,
        oxideav_ape::freq_model::RANGE_TOTAL_WIDTH
    );
    assert_eq!(
        RANGE_OVERFLOW_SHIFT,
        oxideav_ape::freq_model::RANGE_OVERFLOW_SHIFT
    );
}

#[test]
fn stage1_predict_is_weight_times_then_shift() {
    assert_eq!(stage1_predict(0), 0);
    assert_eq!(stage1_predict(32), (32 * 31) >> 5);
    assert_eq!(stage1_predict(32), 31);
    assert_eq!(stage1_predict(64), 62);
    assert_eq!(stage1_predict(1), 0);
    for x in [-1000i32, -33, -1, 0, 1, 7, 31, 32, 1000, 65535] {
        let expected = (i64::from(x) * 31) >> 5;
        assert_eq!(i64::from(stage1_predict(x)), expected);
    }
}

#[test]
fn stage1_predict_uses_arithmetic_shift_rounding_toward_neg_inf() {
    assert_eq!(stage1_predict(-1), -1);
    assert_eq!(stage1_predict(-2), -2);
}

#[test]
fn stage1_predict_does_not_overflow_on_i32_extremes() {
    let _ = stage1_predict(i32::MIN);
    let _ = stage1_predict(i32::MAX);
    assert_eq!(
        i64::from(stage1_predict(i32::MAX)),
        (i64::from(i32::MAX) * 31) >> 5
    );
}

#[test]
fn stage1_predict_is_const_evaluable() {
    let p: i32 = stage1_predict(64);
    assert_eq!(p, 62);
}

#[test]
fn ksum_pivot_matches_the_spelled_out_closed_form() {
    for ksum in [
        0u64,
        1,
        31,
        32,
        33,
        63,
        64,
        65,
        96,
        1 << 16,
        u64::from(u32::MAX),
        u64::MAX,
    ] {
        let expected = core::cmp::max(ksum / u64::from(KSUM_PIVOT_DIVISOR), 1);
        assert_eq!(ksum_pivot(ksum), expected, "ksum = {ksum}");
    }
}

#[test]
fn ksum_pivot_floors_at_one_below_the_divisor() {
    for ksum in 0..u64::from(KSUM_PIVOT_DIVISOR) {
        assert_eq!(ksum_pivot(ksum), 1);
    }
    assert_eq!(ksum_pivot(u64::from(KSUM_PIVOT_DIVISOR)), 1);
    assert_eq!(ksum_pivot(u64::from(KSUM_PIVOT_DIVISOR) * 2), 2);
}

#[test]
fn ksum_pivot_is_never_zero() {
    for ksum in [0u64, 1, 31, 32, 1000, u64::MAX] {
        assert!(ksum_pivot(ksum) >= 1);
    }
}

#[test]
fn ksum_pivot_is_monotonic_nondecreasing() {
    let mut prev = ksum_pivot(0);
    for ksum in 1..4096u64 {
        let cur = ksum_pivot(ksum);
        assert!(cur >= prev, "pivot regressed at ksum = {ksum}");
        prev = cur;
    }
}

#[test]
fn ksum_pivot_is_const_evaluable() {
    let p: u64 = ksum_pivot(96);
    assert_eq!(p, 3);
}
