use oxideav_ape::error::Error;
use oxideav_ape::predictor::{adapt_sign, predict_dot, predict_step, predict_step_self_ref};

#[test]
fn adapt_sign_matches_wiki_branches() {
    assert_eq!(adapt_sign(-5), -1);
    assert_eq!(adapt_sign(-1), -1);
    assert_eq!(adapt_sign(0), 0);
    assert_eq!(adapt_sign(1), 1);
    assert_eq!(adapt_sign(5), 1);
    assert_eq!(adapt_sign(i64::MIN), -1);
    assert_eq!(adapt_sign(i64::MAX), 1);
}

#[test]
fn dot_product_anchors_small_window() {
    let history = [1i32, 2, 3];
    let par = [10i32, 20, 30];
    assert_eq!(predict_dot(&history, &par).unwrap(), 140);
}

#[test]
fn dot_product_empty_order_is_zero() {
    let history: [i32; 0] = [];
    let par: [i32; 0] = [];
    assert_eq!(predict_dot(&history, &par).unwrap(), 0);
}

#[test]
fn dot_product_rejects_order_mismatch() {
    let history = [1i32, 2, 3];
    let par = [10i32, 20];
    let err = predict_dot(&history, &par).unwrap_err();
    assert_eq!(err, Error::PredictorOrderMismatch { history: 3, par: 2 });
}

#[test]
fn step_output_is_input_plus_prediction() {
    let history = [1i32, 2, 3];
    let mut par = [10i32, 20, 30];
    let out = predict_step(7, &history, &history, &mut par).unwrap();
    assert_eq!(out, 147);
}

#[test]
fn step_adapts_par_up_on_positive_input() {
    let history = [1i32, 2, 3];
    let adapt_ref = [4i32, 5, 6];
    let mut par = [10i32, 20, 30];
    let out = predict_step(7, &history, &adapt_ref, &mut par).unwrap();
    assert_eq!(out, 147);
    assert_eq!(par, [14, 25, 36]);
}

#[test]
fn step_adapts_par_down_on_negative_input() {
    let history = [1i32, 2, 3];
    let adapt_ref = [4i32, 5, 6];
    let mut par = [10i32, 20, 30];
    let out = predict_step(-7, &history, &adapt_ref, &mut par).unwrap();
    assert_eq!(out, 133);
    assert_eq!(par, [6, 15, 24]);
}

#[test]
fn step_leaves_par_untouched_on_zero_input() {
    let history = [1i32, 2, 3];
    let adapt_ref = [4i32, 5, 6];
    let mut par = [10i32, 20, 30];
    let out = predict_step(0, &history, &adapt_ref, &mut par).unwrap();
    assert_eq!(out, 140);
    assert_eq!(par, [10, 20, 30]);
}

#[test]
fn step_reads_prediction_before_adapting() {
    let history = [1i32];
    let adapt_ref = [1000i32];
    let mut par = [2i32];
    let out = predict_step(5, &history, &adapt_ref, &mut par).unwrap();
    assert_eq!(out, 7);
    assert_eq!(par, [1002]);
}

#[test]
fn self_ref_step_aliases_history_as_adaptation_window() {
    let history = [1i32, 2, 3];
    let mut par_a = [10i32, 20, 30];
    let mut par_b = [10i32, 20, 30];
    let out_a = predict_step(7, &history, &history, &mut par_a).unwrap();
    let out_b = predict_step_self_ref(7, &history, &mut par_b).unwrap();
    assert_eq!(out_a, out_b);
    assert_eq!(par_a, par_b);
    assert_eq!(par_a, [11, 22, 33]);
}

#[test]
fn step_rejects_order_mismatch_on_any_slice() {
    let history = [1i32, 2, 3];
    let adapt_ref = [4i32, 5, 6];
    let mut par = [10i32, 20];
    let err = predict_step(7, &history, &adapt_ref, &mut par).unwrap_err();
    assert_eq!(err, Error::PredictorOrderMismatch { history: 3, par: 2 });

    let adapt_short = [4i32, 5];
    let mut par3 = [10i32, 20, 30];
    let err = predict_step(7, &history, &adapt_short, &mut par3).unwrap_err();
    assert_eq!(err, Error::PredictorOrderMismatch { history: 3, par: 3 });
}

#[test]
fn step_does_not_panic_on_extreme_inputs() {
    let history = [i32::MAX, i32::MIN];
    let adapt_ref = [i32::MAX, i32::MIN];
    let mut par = [i32::MAX, i32::MIN];
    let _ = predict_step(i32::MIN, &history, &adapt_ref, &mut par);
    let _ = predict_step(i32::MAX, &history, &adapt_ref, &mut par);
}
