use oxideav_ape::cascade::{StageState, cascade_decode, cascade_encode, filter_stage_decode, filter_stage_encode};
use oxideav_ape::error::Error;
use oxideav_ape::filter_config::{FilterCascade, MAX_CASCADE_DEPTH};
use oxideav_ape::header::CompressionLevel;
use oxideav_ape::predictor::predict_step_self_ref as step;

fn xorshift(state: &mut u64) -> u64 {
    let mut x = *state;
    x ^= x << 13;
    x ^= x >> 7;
    x ^= x << 17;
    *state = x;
    x
}

fn raw_residual_policy(residual: i32, _filtered: i32) -> i32 {
    residual
}

#[test]
fn order_zero_stage_is_identity() {
    let mut state_d = StageState::zeroed(0);
    let mut state_e = StageState::zeroed(0);
    let mut buf = [5i32, -3, 0, i32::MAX, i32::MIN];
    let orig = buf;
    filter_stage_decode(&mut buf, &mut state_d, raw_residual_policy).unwrap();
    assert_eq!(buf, orig);
    filter_stage_encode(&mut buf, &mut state_e, raw_residual_policy).unwrap();
    assert_eq!(buf, orig);
}

#[test]
fn decode_walk_matches_a_manual_step_loop() {
    let mut state = StageState::with_initial(&[1, 2], &[3, 4]).unwrap();
    let mut buf = [10i32, -20, 30];
    filter_stage_decode(&mut buf, &mut state, raw_residual_policy).unwrap();

    let mut window = vec![1i32, 2];
    let mut par = vec![3i32, 4];
    let mut expect = Vec::new();
    for &residual in &[10i32, -20, 30] {
        let filtered = step(residual, &window, &mut par).unwrap();
        expect.push(filtered);
        window.rotate_left(1);
        *window.last_mut().unwrap() = residual;
    }
    assert_eq!(buf.as_slice(), expect.as_slice());
    assert_eq!(state.window(), window.as_slice());
    assert_eq!(state.par(), par.as_slice());
}

#[test]
fn stage_round_trips_under_prng_policies() {
    for order in [1usize, 2, 16, 32] {
        let mut rng = 0x9E37_79B9_7F4A_7C15u64 ^ (order as u64);
        let mut init_window = vec![0i32; order];
        let mut init_par = vec![0i32; order];
        for v in init_window.iter_mut().chain(init_par.iter_mut()) {
            *v = (xorshift(&mut rng) as i32) % 512;
        }
        let mut enc_state = StageState::with_initial(&init_window, &init_par).unwrap();
        let mut dec_state = enc_state.clone();

        let mut buf: Vec<i32> = (0..200).map(|_| xorshift(&mut rng) as i32).collect();
        let orig = buf.clone();

        let mut rng_e = 0xDEAD_BEEF_u64 ^ (order as u64);
        filter_stage_encode(&mut buf, &mut enc_state, |r, f| {
            r.wrapping_add(f)
                .wrapping_add((xorshift(&mut rng_e) as i32) % 16)
        })
        .unwrap();
        assert_ne!(buf, orig, "order {order}: encode should transform");

        let mut rng_d = 0xDEAD_BEEF_u64 ^ (order as u64);
        filter_stage_decode(&mut buf, &mut dec_state, |r, f| {
            r.wrapping_add(f)
                .wrapping_add((xorshift(&mut rng_d) as i32) % 16)
        })
        .unwrap();
        assert_eq!(buf, orig, "order {order}: round trip");
        assert_eq!(enc_state, dec_state, "order {order}: state trajectory");
    }
}

#[test]
fn policy_sees_identical_pairs_in_both_directions() {
    let mut enc_state = StageState::with_initial(&[7, -2, 9], &[1, 0, -3]).unwrap();
    let mut dec_state = enc_state.clone();
    let mut buf = [100i32, -50, 0, 25, -8000];
    let orig = buf;

    let mut enc_pairs = Vec::new();
    filter_stage_encode(&mut buf, &mut enc_state, |r, f| {
        enc_pairs.push((r, f));
        r
    })
    .unwrap();

    let mut dec_pairs = Vec::new();
    filter_stage_decode(&mut buf, &mut dec_state, |r, f| {
        dec_pairs.push((r, f));
        r
    })
    .unwrap();

    assert_eq!(buf, orig);
    assert_eq!(enc_pairs, dec_pairs);
    for (pair, &sample) in enc_pairs.iter().zip(orig.iter()) {
        assert_eq!(pair.1, sample);
    }
}

#[test]
fn every_documented_level_cascade_round_trips() {
    for level in CompressionLevel::ALL {
        let cascade = FilterCascade::for_level(level);
        let mut enc_states = StageState::for_cascade(&cascade);
        assert!(enc_states.len() <= MAX_CASCADE_DEPTH);
        let mut dec_states = enc_states.clone();

        let mut rng = 0x1234_5678_9ABC_DEF0u64 ^ u64::from(u16::from(level));
        let mut buf: Vec<i32> = (0..64)
            .map(|_| (xorshift(&mut rng) as i32) % 65536)
            .collect();
        let orig = buf.clone();

        cascade_encode(&mut buf, &mut enc_states, |_i, r, _f| r).unwrap();
        cascade_decode(&mut buf, &mut dec_states, |_i, r, _f| r).unwrap();
        assert_eq!(buf, orig, "level {level:?}");
        assert_eq!(enc_states, dec_states, "level {level:?}");
    }
}

#[test]
fn cascade_policy_receives_stage_indices() {
    let cascade = FilterCascade::for_level(CompressionLevel::Insane);
    let mut states = StageState::for_cascade(&cascade);
    let mut buf = [1i32, 2, 3];

    let mut seen = Vec::new();
    cascade_encode(&mut buf, &mut states, |i, r, _f| {
        if seen.last() != Some(&i) {
            seen.push(i);
        }
        r
    })
    .unwrap();
    assert_eq!(seen, vec![0, 1, 2]);

    let mut seen_dec = Vec::new();
    let mut dec_states = StageState::for_cascade(&cascade);
    cascade_decode(&mut buf, &mut dec_states, |i, r, _f| {
        if seen_dec.last() != Some(&i) {
            seen_dec.push(i);
        }
        r
    })
    .unwrap();
    assert_eq!(seen_dec, vec![2, 1, 0]);
}

#[test]
fn fast_level_cascade_is_a_no_op() {
    let cascade = FilterCascade::for_level(CompressionLevel::Fast);
    let mut states = StageState::for_cascade(&cascade);
    let mut buf = [i32::MIN, -1, 0, 1, i32::MAX];
    let orig = buf;
    cascade_encode(&mut buf, &mut states, |_i, r, _f| r).unwrap();
    assert_eq!(buf, orig);
    cascade_decode(&mut buf, &mut states, |_i, r, _f| r).unwrap();
    assert_eq!(buf, orig);
}

#[test]
fn with_initial_rejects_order_mismatch() {
    let err = StageState::with_initial(&[1, 2, 3], &[1, 2]).unwrap_err();
    assert_eq!(err, Error::PredictorOrderMismatch { history: 3, par: 2 });
}

#[test]
fn zeroed_state_geometry() {
    let s = StageState::zeroed(16);
    assert_eq!(s.order(), 16);
    assert_eq!(s.window(), &[0i32; 16]);
    assert_eq!(s.par(), &[0i32; 16]);
    assert_eq!(StageState::zeroed(0).order(), 0);
}
