use oxideav_ape::error::Error;
use oxideav_ape::header::CompressionLevel;
use oxideav_ape::predict::{ArrayPredictor, FirstOrderFilter, OFFSET_WEIGHT_SEEDS, OFFSET_WINDOW, OffsetPredictor3930, OffsetPredictor3950};
use oxideav_ape::scalars::PREDICTOR_HISTORY_SEED;

#[test]
fn weight_seed_317_is_the_staged_history_seed() {
    assert_eq!(OFFSET_WEIGHT_SEEDS[1], PREDICTOR_HISTORY_SEED);
}

#[test]
fn first_order_filter_round_trips() {
    let mut comp = FirstOrderFilter::new();
    let mut deco = FirstOrderFilter::new();
    let xs = [0i32, 5, -3, 100, 99, 98, -1000, 12345, 0, 0, 7];
    for &x in &xs {
        let r = comp.compress(x);
        assert_eq!(deco.decompress(r), x);
    }
    assert_eq!(comp.state, deco.state);
}

#[test]
fn first_order_decompress_matches_the_pinned_recurrence() {
    let mut f = FirstOrderFilter::new();
    assert_eq!(f.decompress(64), 64);
    assert_eq!(f.decompress(0), 62);
    assert_eq!(f.decompress(0), 60);
    let mut f = FirstOrderFilter { state: -1 };
    assert_eq!(f.decompress(0), -1, "arithmetic shift: -31 >> 5 = -1");
}

#[test]
fn offset_3950_first_blocks_track_the_seeded_arm() {
    let mut p = OffsetPredictor3950::new();
    assert_eq!(p.step(1000, 0), 1000);
    let expected = 20i32 + (1000 * 360 + 1000 * 317) / 1024;
    assert_eq!(p.step(20, 0), expected);
}

#[test]
fn offset_3950_weight_update_is_unit_step() {
    let mut p = OffsetPredictor3950::new();
    p.step(1000, 500);
    let m_a0 = p.m_a;
    let m_b0 = p.m_b;
    p.step(7, -100);
    for (before, after) in m_a0.iter().zip(p.m_a.iter()) {
        assert!((after - before).abs() <= 1);
    }
    for (before, after) in m_b0.iter().zip(p.m_b.iter()) {
        assert!((after - before).abs() <= 1);
    }
    let (ma, mb) = (p.m_a, p.m_b);
    p.step(0, 42);
    assert_eq!(ma, p.m_a);
    assert_eq!(mb, p.m_b);
}

#[test]
fn offset_3950_cross_arm_sees_the_filtered_cross_term() {
    let mut p = OffsetPredictor3950::new();
    p.step(0, 64);
    let c = p.cursor;
    let pred_b = &p.arm_b.pred;
    assert_eq!(pred_b[c - 1], 64, "first block: 64 - 0");
    p.step(0, 64);
    let c = p.cursor;
    assert_eq!(p.arm_b.pred[c - 1], 2);
}

#[test]
fn offset_3930_folds_the_order_1_stage() {
    let mut p = OffsetPredictor3930::new();
    assert_eq!(p.step(100), 100);
    assert_eq!(p.step(5), 233);
}

#[test]
fn array_predictor_version_dispatch() {
    assert!(matches!(
        ArrayPredictor::new(3920, CompressionLevel::Fast),
        Err(Error::NotImplemented)
    ));
    assert!(matches!(
        ArrayPredictor::new(3930, CompressionLevel::Insane),
        Err(Error::Malformed(_))
    ));
    let p = ArrayPredictor::new(3930, CompressionLevel::ExtraHigh).unwrap();
    assert!(!p.uses_cross_term());
    let p = ArrayPredictor::new(3950, CompressionLevel::Insane).unwrap();
    assert!(p.uses_cross_term());
    let p = ArrayPredictor::new(3990, CompressionLevel::Fast).unwrap();
    assert!(p.uses_cross_term());
    assert!(p.nn.is_empty(), "fast level runs no FIR stage");
}

#[test]
fn cascade_applies_in_reverse_construction_order() {
    let p = ArrayPredictor::new(3990, CompressionLevel::Insane).unwrap();
    let orders: Vec<usize> = p.nn.iter().map(|f| f.order()).collect();
    assert_eq!(orders, [16, 256, 1280]);
    let shifts: Vec<u32> = p.nn.iter().map(|f| f.shift()).collect();
    assert_eq!(shifts, [11, 13, 15]);
    let p = ArrayPredictor::new(3990, CompressionLevel::ExtraHigh).unwrap();
    let orders: Vec<usize> = p.nn.iter().map(|f| f.order()).collect();
    assert_eq!(orders, [32, 256]);
}

#[test]
fn fast_level_zero_history_first_value_is_identity() {
    for version in [3950, 3990] {
        let mut p = ArrayPredictor::new(version, CompressionLevel::Fast).unwrap();
        assert_eq!(p.decode(-674, 0), -674);
    }
    let mut p = ArrayPredictor::new(3930, CompressionLevel::Fast).unwrap();
    assert_eq!(p.decode(1234, 0), 1234);
}

#[test]
fn zero_stream_stays_zero_for_every_form_and_level() {
    for (version, levels) in [
        (
            3930u16,
            &[
                CompressionLevel::Fast,
                CompressionLevel::Normal,
                CompressionLevel::High,
                CompressionLevel::ExtraHigh,
            ][..],
        ),
        (3990, &CompressionLevel::ALL[..]),
    ] {
        for &level in levels {
            let mut p = ArrayPredictor::new(version, level).unwrap();
            for _ in 0..600 {
                assert_eq!(p.decode(0, 0), 0);
            }
        }
    }
}

#[test]
fn predict_extreme_inputs_never_panic() {
    let mut p = ArrayPredictor::new(3990, CompressionLevel::Insane).unwrap();
    for v in [i32::MAX, i32::MIN, -1, 1, i32::MIN + 1] {
        let _ = p.decode(v, v);
    }
    let mut p = ArrayPredictor::new(3940, CompressionLevel::High).unwrap();
    for v in [i32::MAX, i32::MIN, -1, 1] {
        let _ = p.decode(v, 0);
    }
}

#[test]
fn offset_buffers_wrap_preserves_the_step_stream() {
    let mut p = OffsetPredictor3950::new();
    let mut outputs = Vec::new();
    for i in 0..1300i32 {
        outputs.push(p.step(i % 23 - 11, i % 7 - 3));
    }
    assert!(outputs.len() > 2 * OFFSET_WINDOW);
    let mut q = OffsetPredictor3950::new();
    for i in 0..1300i32 {
        assert_eq!(q.step(i % 23 - 11, i % 7 - 3), outputs[i as usize]);
    }
}
