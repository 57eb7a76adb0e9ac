use oxideav_ape::filter_config::FilterCascade;
use oxideav_ape::header::CompressionLevel;
use oxideav_ape::nn_filter::{DeltaEra, NN_WINDOW, NnFilter};

struct Rng(u64);
impl Rng {
    fn next_i32(&mut self, bound: i32) -> i32 {
        self.0 ^= self.0 << 13;
        self.0 ^= self.0 >> 7;
        self.0 ^= self.0 << 17;
        ((self.0 >> 33) as i32) % (2 * bound) - bound
    }
}

#[test]
fn rejects_off_spec_orders_and_shifts() {
    assert!(NnFilter::new(0, 11, DeltaEra::A).is_err());
    assert!(NnFilter::new(24, 11, DeltaEra::A).is_err());
    assert!(NnFilter::new(16, 0, DeltaEra::A).is_err());
    assert!(NnFilter::new(16, 32, DeltaEra::A).is_err());
    assert!(NnFilter::new(16, 11, DeltaEra::A).is_ok());
}

#[test]
fn every_staged_stage_constructs() {
    for level in CompressionLevel::ALL {
        for stage in FilterCascade::for_level(level).stages() {
            if stage.order != 0 {
                NnFilter::for_stage(*stage, 3990, level).unwrap();
            }
        }
    }
}

#[test]
fn delta_era_dispatch_and_level_5000_quirk() {
    assert_eq!(DeltaEra::for_version(3979), DeltaEra::B);
    assert_eq!(DeltaEra::for_version(3980), DeltaEra::A);
    assert_eq!(
        DeltaEra::for_stage(3950, CompressionLevel::Insane),
        DeltaEra::A
    );
    assert_eq!(
        DeltaEra::for_stage(3950, CompressionLevel::ExtraHigh),
        DeltaEra::B
    );
    assert_eq!(
        DeltaEra::for_stage(3990, CompressionLevel::Normal),
        DeltaEra::A
    );
}

#[test]
fn zero_state_first_step_is_identity_plus_rounding_of_zero() {
    let mut f = NnFilter::new(16, 11, DeltaEra::A).unwrap();
    assert_eq!(f.decode(1234), 1234);
    let mut f = NnFilter::new(16, 11, DeltaEra::B).unwrap();
    assert_eq!(f.decode(-77), -77);
}

#[test]
fn rounding_constant_sits_before_the_shift() {
    let mut f = NnFilter::new(16, 11, DeltaEra::A).unwrap();
    for v in [100, -50, 30, -20, 10, 5, -5, 60] {
        f.decode(v);
    }
    let dot = f.dot();
    let out = f.clone().decode(7);
    assert_eq!(out, 7i32.wrapping_add(dot.wrapping_add(1 << 10) >> 11));
}

#[test]
fn weight_update_polarity_negative_adds() {
    let mut f = NnFilter::new(16, 11, DeltaEra::A).unwrap();
    f.decode(1000);
    let before = f.m.clone();
    f.decode(-1);
    assert_eq!(f.m[15], before[15].wrapping_add(-32));
    let frozen = f.m.clone();
    f.decode(0);
    assert_eq!(f.m, frozen);
}

#[test]
fn era_a_decays_lags_1_2_8_and_era_b_lags_4_8() {
    for (era, decayed_lags) in [
        (DeltaEra::A, &[1usize, 2, 8][..]),
        (DeltaEra::B, &[4, 8][..]),
    ] {
        let mut f = NnFilter::new(16, 11, era).unwrap();
        let w = f.cursor;
        for lag in 1..=10 {
            f.delta[w - lag] = 64;
        }
        f.decode(0);
        assert_eq!(f.delta[w], 0, "{era:?}: zero output stores zero");
        for lag in 1..=10 {
            let expected = if decayed_lags.contains(&lag) { 32 } else { 64 };
            assert_eq!(f.delta[w - lag], expected, "{era:?} lag {lag}");
        }
    }
}

#[test]
fn era_a_magnitude_ladder_follows_the_running_average() {
    let cases = [
        (30i32, 301i32, -32i16),
        (30, 90, -16),
        (30, 41, -16),
        (30, 40, -8),
        (30, 1, -8),
        (30, 0, 0),
        (30, -90, 16),
    ];
    for (avg, out_signal, expected) in cases {
        let mut f = NnFilter::new(16, 11, DeltaEra::A).unwrap();
        f.avg = avg;
        let w = f.cursor;
        f.decode(out_signal);
        assert_eq!(f.delta[w], expected, "avg={avg} out={out_signal}");
    }
}

#[test]
fn arithmetic_decay_never_kills_minus_one() {
    let mut f = NnFilter::new(16, 11, DeltaEra::A).unwrap();
    let c = f.cursor;
    f.delta[c - 1] = -1;
    f.decode(0);
    assert_eq!(f.delta[c - 1], -1);
}

#[test]
fn history_saturates_but_output_does_not() {
    let mut f = NnFilter::new(16, 11, DeltaEra::A).unwrap();
    let out = f.decode(1_000_000);
    assert_eq!(out, 1_000_000, "output is the full 32-bit value");
    assert_eq!(
        f.input[f.cursor - 1],
        i16::MAX,
        "history stores the saturated narrow"
    );
    let out = f.decode(-1_000_000);
    assert_eq!(out, -1_000_000);
    assert_eq!(f.input[f.cursor - 1], i16::MIN);
}

#[test]
fn truncating_average_matches_the_staged_rule() {
    let mut f = NnFilter::new(16, 11, DeltaEra::A).unwrap();
    f.decode(100);
    assert_eq!(f.avg, 6);
    f.decode(1);
    assert_eq!(f.avg, 6, "truncating division: -5/16 == 0");
}

#[test]
fn encode_decode_round_trip_all_staged_stages_both_eras() {
    for (order, shift) in [(16usize, 11u32), (64, 11), (256, 13), (32, 10), (1280, 15)] {
        for era in [DeltaEra::A, DeltaEra::B] {
            let mut enc = NnFilter::new(order, shift, era).unwrap();
            let mut dec = NnFilter::new(order, shift, era).unwrap();
            let mut rng = Rng(0x1234_5678_9ABC_DEF0 ^ order as u64);
            for i in 0..1600 {
                let x = if i % 97 == 0 { 0 } else { rng.next_i32(40000) };
                let r = enc.encode(x);
                assert_eq!(dec.decode(r), x, "stage ({order},{shift}) {era:?} step {i}");
            }
            assert_eq!(enc.m, dec.m);
            assert_eq!(enc.delta, dec.delta);
            assert_eq!(enc.avg, dec.avg);
            assert_eq!(enc.cursor, dec.cursor);
        }
    }
}

#[test]
fn round_trip_survives_the_rolling_buffer_wrap() {
    let mut f = NnFilter::new(16, 11, DeltaEra::A).unwrap();
    for i in 0..NN_WINDOW {
        f.decode(i as i32);
    }
    assert_eq!(f.cursor, 16, "cursor re-parks at order after the wrap");
}

#[test]
fn reset_restores_the_fresh_trajectory() {
    let mut f = NnFilter::new(32, 10, DeltaEra::B).unwrap();
    let fresh: Vec<i32> = {
        let mut g = f.clone();
        (0..64).map(|i| g.decode(i * 37 % 101 - 50)).collect()
    };
    for i in 0..500 {
        f.decode(i);
    }
    f.reset();
    let after: Vec<i32> = (0..64).map(|i| f.decode(i * 37 % 101 - 50)).collect();
    assert_eq!(fresh, after);
}

#[test]
fn nn_filter_extreme_inputs_never_panic() {
    for era in [DeltaEra::A, DeltaEra::B] {
        let mut f = NnFilter::new(16, 11, era).unwrap();
        for v in [i32::MAX, i32::MIN, i32::MIN + 1, 0, -1, 1] {
            let _ = f.decode(v);
            let _ = f.encode(v);
        }
    }
}
