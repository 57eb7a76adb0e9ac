use oxideav_ape::decorrelate::{decorrelate_pair, decorrelate_pair_arith_shift, reconstruct_block, reconstruct_block_arith_shift, reconstruct_pair, reconstruct_pair_arith_shift};
use oxideav_ape::error::Error;

#[test]
fn wiki_worked_zero_pair_is_identity() {
    assert_eq!(reconstruct_pair(0, 0), (0, 0));
    assert_eq!(reconstruct_pair_arith_shift(0, 0), (0, 0));
}

#[test]
fn reconstruct_matches_inverse_for_even_y() {
    for l in [-1024i32, -1, 0, 1, 1024, i32::MIN / 4, i32::MAX / 4] {
        for r in [-1024i32, -1, 0, 1, 1024, i32::MIN / 4, i32::MAX / 4] {
            let y = l - r;
            if y % 2 != 0 {
                continue;
            }
            let (x, y2) = decorrelate_pair(l, r);
            assert_eq!(y2, y);
            let (l2, r2) = reconstruct_pair(x, y);
            assert_eq!((l2, r2), (l, r));
            let (l3, r3) = reconstruct_pair_arith_shift(x, y);
            assert_eq!((l3, r3), (l, r));
        }
    }
}

#[test]
fn divide_vs_shift_differ_for_odd_negative_y_only() {
    for x in -16i32..=16 {
        for y in -16i32..=16 {
            let (l_div, r_div) = reconstruct_pair(x, y);
            let (l_shift, r_shift) = reconstruct_pair_arith_shift(x, y);
            let differ = (l_div, r_div) != (l_shift, r_shift);
            let expected_diff = y < 0 && y % 2 != 0;
            assert_eq!(
                differ, expected_diff,
                "x={x} y={y}: divide=({l_div},{r_div}) shift=({l_shift},{r_shift})"
            );
        }
    }
}

#[test]
fn block_reconstructor_fans_out_correctly() {
    let x = [1i32, 2, 3, 4];
    let y = [0i32, 4, -2, 8];
    let mut left = [0i32; 4];
    let mut right = [0i32; 4];
    reconstruct_block(&x, &y, &mut left, &mut right).unwrap();
    for i in 0..x.len() {
        let (l, r) = reconstruct_pair(x[i], y[i]);
        assert_eq!(left[i], l);
        assert_eq!(right[i], r);
    }
}

#[test]
fn block_reconstructor_arith_shift_fans_out_correctly() {
    let x = [1i32, 2, 3, 4];
    let y = [0i32, 4, -3, 8];
    let mut left = [0i32; 4];
    let mut right = [0i32; 4];
    reconstruct_block_arith_shift(&x, &y, &mut left, &mut right).unwrap();
    for i in 0..x.len() {
        let (l, r) = reconstruct_pair_arith_shift(x[i], y[i]);
        assert_eq!(left[i], l);
        assert_eq!(right[i], r);
    }
}

#[test]
fn block_reconstructor_rejects_length_mismatch() {
    let x = [1i32, 2, 3];
    let y = [0i32, 4];
    let mut left = [0i32; 3];
    let mut right = [0i32; 3];
    let err = reconstruct_block(&x, &y, &mut left, &mut right).unwrap_err();
    assert_eq!(
        err,
        Error::ChannelLengthMismatch {
            x: 3,
            y: 2,
            left: 3,
            right: 3
        }
    );
}

#[test]
fn block_reconstructor_handles_empty_input() {
    let x: [i32; 0] = [];
    let y: [i32; 0] = [];
    let mut left: [i32; 0] = [];
    let mut right: [i32; 0] = [];
    reconstruct_block(&x, &y, &mut left, &mut right).unwrap();
    reconstruct_block_arith_shift(&x, &y, &mut left, &mut right).unwrap();
}

#[test]
fn reconstructor_overflow_is_wrapping_on_documented_extreme() {
    let (l, r) = reconstruct_pair(i32::MAX / 4, i32::MAX / 4);
    let (l2, r2) = reconstruct_pair_arith_shift(i32::MAX / 4, i32::MAX / 4);
    let _ = (l, r, l2, r2);
    let (l, r) = reconstruct_pair(i32::MIN / 4, i32::MIN / 4);
    let _ = (l, r);
}

#[test]
fn reconstruct_pair_is_const_eval_capable() {
    let zero: (i32, i32) = reconstruct_pair(0, 0);
    let zero_shift: (i32, i32) = reconstruct_pair_arith_shift(0, 0);
    let inverse: (i32, i32) = decorrelate_pair(0, 0);
    assert_eq!(zero, (0, 0));
    assert_eq!(zero_shift, (0, 0));
    assert_eq!(inverse, (0, 0));
}

#[test]
fn exhaustive_small_input_roundtrip_matches_closed_form() {
    for l in -32i32..=32 {
        for r in -32i32..=32 {
            let (x, y) = decorrelate_pair(l, r);
            let (l2, r2) = reconstruct_pair(x, y);
            assert_eq!(
                (l2, r2),
                (l, r),
                "round-trip failed for (l, r) = ({l}, {r}) via (x, y) = ({x}, {y})"
            );
        }
    }
}

#[test]
fn full_extreme_inputs_round_trip_without_panicking() {
    let extremes = [i32::MIN, i32::MIN + 1, -1, 0, 1, i32::MAX - 1, i32::MAX];
    for &l in &extremes {
        for &r in &extremes {
            let (x, y) = decorrelate_pair(l, r);
            assert_eq!(reconstruct_pair(x, y), (l, r), "div spelling ({l}, {r})");
            let (xs, ys) = decorrelate_pair_arith_shift(l, r);
            assert_eq!(
                reconstruct_pair_arith_shift(xs, ys),
                (l, r),
                "shift spelling ({l}, {r})"
            );
        }
    }
}

#[test]
fn arith_shift_spelling_pair_is_identity_on_odd_negative_y() {
    for (l, r) in [(0i32, 3i32), (-5, -2), (2, 5), (-1, 2)] {
        let y = l.wrapping_sub(r);
        assert!(y % 2 != 0);
        let (x, y2) = decorrelate_pair_arith_shift(l, r);
        assert_eq!(y2, y);
        assert_eq!(reconstruct_pair_arith_shift(x, y2), (l, r));
    }
}

#[test]
fn cross_pairing_the_spellings_diverges_only_on_odd_negative_y() {
    for l in -16i32..=16 {
        for r in -16i32..=16 {
            let (x, y) = decorrelate_pair(l, r);
            let (l2, r2) = reconstruct_pair_arith_shift(x, y);
            if y % 2 == 0 || y > 0 {
                assert_eq!((l2, r2), (l, r), "({l}, {r})");
            } else {
                assert_eq!((l2, r2), (l + 1, r + 1), "({l}, {r})");
            }
        }
    }
}
