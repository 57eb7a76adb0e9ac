use oxideav_ape::entropy::{ESCAPE_SYMBOL, EntropyInit, K_SUM_MIN_BOUNDARY, ResidualDecoder, ResidualEncoder, RunningState, fold_residual, pivot_split, unfold_residual};
use oxideav_ape::freq_model::MODEL_ELEMENTS;

#[test]
fn boundary_ladder_matches_the_staged_closed_form() {
    assert_eq!(K_SUM_MIN_BOUNDARY.len(), 32);
    assert_eq!(K_SUM_MIN_BOUNDARY[0], 0);
    for (n, &b) in K_SUM_MIN_BOUNDARY.iter().enumerate().take(28).skip(1) {
        assert_eq!(b, 1u32 << (n + 4), "index {n}");
    }
    for (n, &b) in K_SUM_MIN_BOUNDARY.iter().enumerate().skip(28) {
        assert_eq!(b, 0, "padding index {n}");
    }
}

#[test]
fn unfold_matches_the_staged_orientation() {
    assert_eq!(unfold_residual(0), 0);
    assert_eq!(unfold_residual(1), 1);
    assert_eq!(unfold_residual(2), -1);
    assert_eq!(unfold_residual(3), 2);
    assert_eq!(unfold_residual(4), -2);
    assert_eq!(unfold_residual(5), 3);
}

#[test]
fn fold_is_the_exact_inverse_of_unfold() {
    for r in -70000i32..=70000 {
        assert_eq!(unfold_residual(fold_residual(r)), r, "residual {r}");
    }
    for v in 0u32..=200000 {
        assert_eq!(fold_residual(unfold_residual(v)), v, "value {v}");
    }
}

#[test]
fn ksum_recurrence_matches_the_staged_arithmetic() {
    let mut st = RunningState::new(EntropyInit { k: 0, ksum: 100 });
    st.update(9, false);
    assert_eq!(st.ksum, 102);
    st.update(0, false);
    assert_eq!(st.ksum, 99);
}

#[test]
fn adaptive_k_walks_the_boundary_ladder() {
    let mut st = RunningState::new(EntropyInit { k: 5, ksum: 0 });
    st.update(0, true);
    assert_eq!(st.k, 4);
    let mut st2 = RunningState::new(EntropyInit { k: 4, ksum: 0 });
    for _ in 0..2000 {
        st2.update(5000, true);
    }
    assert!(st2.k > 4, "k must climb under a large-magnitude run");
    assert!((st2.k as usize) < K_SUM_MIN_BOUNDARY.len());
}

#[test]
fn k_parks_below_the_zero_padded_ladder_top() {
    let mut st = RunningState::new(EntropyInit {
        k: 26,
        ksum: u32::MAX / 2,
    });
    for _ in 0..64 {
        st.update(u32::MAX / 4, true);
    }
    assert!(st.k <= 27, "k = {} escaped past the padded top", st.k);
}

fn xorshift(state: &mut u64) -> u64 {
    let mut x = *state;
    x ^= x << 13;
    x ^= x >> 7;
    x ^= x << 17;
    *state = x;
    x
}

fn round_trip(version: u16, init: EntropyInit, residuals: &[i32]) {
    let mut enc = ResidualEncoder::new(version, init);
    for &r in residuals {
        enc.encode_residual(r).unwrap();
    }
    let bytes = enc.finish();
    let mut dec = ResidualDecoder::new(&bytes, version, init);
    for (i, &r) in residuals.iter().enumerate() {
        assert_eq!(
            dec.decode_residual().unwrap(),
            r,
            "version {version} residual index {i}"
        );
    }
}

#[test]
fn small_residuals_round_trip_across_every_version_boundary() {
    let residuals: Vec<i32> = (-40..=40).chain([0, 1, -1, 63, -63, 64, -64]).collect();
    for version in [3800u16, 3900, 3909, 3910, 3950, 3980, 3989, 3990, 3999] {
        for init in [
            EntropyInit::default(),
            EntropyInit { k: 10, ksum: 16384 },
            EntropyInit { k: 3, ksum: 90 },
        ] {
            round_trip(version, init, &residuals);
        }
    }
}

#[test]
fn audio_shaped_noise_round_trips_on_both_paths() {
    for version in [3920u16, 3990] {
        let mut rng = 0xA0D1_0000_1234_5678u64 ^ u64::from(version);
        let residuals: Vec<i32> = (0..20000)
            .map(|_| (xorshift(&mut rng) as i32) % 32768)
            .collect();
        round_trip(version, EntropyInit { k: 10, ksum: 16384 }, &residuals);
    }
}

#[test]
fn silence_round_trips_and_encodes_compactly() {
    for version in [3920u16, 3990] {
        let residuals = vec![0i32; 8192];
        let mut enc = ResidualEncoder::new(version, EntropyInit::default());
        for &r in &residuals {
            enc.encode_residual(r).unwrap();
        }
        let bytes = enc.finish();
        assert!(
            bytes.len() < residuals.len() / 3,
            "version {version}: silence coded to {} bytes",
            bytes.len()
        );
        let mut dec = ResidualDecoder::new(&bytes, version, EntropyInit::default());
        for _ in 0..residuals.len() {
            assert_eq!(dec.decode_residual().unwrap(), 0);
        }
    }
}

#[test]
fn new_path_escape_carries_a_full_32_bit_overflow() {
    let residuals = [1_000_000i32, -1_000_000, 500_000, -250_000, 2_000_000];
    round_trip(3990, EntropyInit::default(), &residuals);
    round_trip(3990, EntropyInit { k: 0, ksum: 0 }, &residuals);
}

#[test]
fn new_path_pivot_split_engages_past_the_16_bit_ceiling() {
    let init = EntropyInit {
        k: 0,
        ksum: 64 << 16,
    };
    let residuals: Vec<i32> = (0..64).flat_map(|i| [i * 100_000, -i * 99_991]).collect();
    round_trip(3990, init, &residuals);
}

#[test]
fn pivot_split_geometry_matches_the_staged_recipe() {
    let (a, b) = pivot_split(1 << 16);
    assert_eq!(b, 2);
    assert_eq!(a, (1 << 16) / 2 + 1);
    let (a, b) = pivot_split(0x0002_5000);
    assert_eq!(b, 1 << 2);
    assert_eq!(a, 0x0002_5000 / 4 + 1);
    for pivot in [1u32 << 16, (1 << 16) + 1, 0x0003_FFFF, 1 << 26] {
        let (a, b) = pivot_split(pivot);
        let max_base = pivot - 1;
        assert!(max_base / b < a, "pivot {pivot:#x}");
    }
}

#[test]
fn old_path_escape_resets_overflow_and_reads_a_literal_k() {
    let residuals = [100_000i32, -70_000, 65_536, -65_535, 1 << 20];
    for version in [3800u16, 3920, 3989] {
        round_trip(version, EntropyInit { k: 0, ksum: 0 }, &residuals);
    }
}

#[test]
fn old_path_wide_k_split_boundary_at_3910() {
    let mut rng = 0x5EED_5EED_5EED_5EEDu64;
    let residuals: Vec<i32> = (0..4000)
        .map(|_| (xorshift(&mut rng) as i32) % (1 << 24))
        .collect();
    let init = EntropyInit {
        k: 20,
        ksum: 1 << 24,
    };
    round_trip(3909, init, &residuals);
    round_trip(3910, init, &residuals);
    round_trip(3980, init, &residuals);
}

#[test]
fn running_state_trajectories_agree_between_directions() {
    let mut rng = 0xD00D_D00D_0000_1111u64;
    let residuals: Vec<i32> = (0..5000)
        .map(|_| (xorshift(&mut rng) as i32) % 20000)
        .collect();
    for version in [3920u16, 3990] {
        let init = EntropyInit { k: 10, ksum: 16384 };
        let mut enc = ResidualEncoder::new(version, init);
        for &r in &residuals {
            enc.encode_residual(r).unwrap();
        }
        let enc_state = EntropyInit {
            k: enc.state.k,
            ksum: enc.state.ksum,
        };
        let bytes = enc.finish();
        let mut dec = ResidualDecoder::new(&bytes, version, init);
        for _ in 0..residuals.len() {
            dec.decode_residual().unwrap();
        }
        assert_eq!(dec.running_state(), enc_state, "version {version}");
    }
}

#[test]
fn reset_state_rearms_the_running_state_mid_stream() {
    let version = 3990u16;
    let init = EntropyInit { k: 10, ksum: 16384 };
    let a: Vec<i32> = (0..500).map(|i| (i % 97) - 48).collect();
    let b: Vec<i32> = (0..500).map(|i| ((i * 7) % 89) - 44).collect();
    let mut enc = ResidualEncoder::new(version, init);
    for &r in &a {
        enc.encode_residual(r).unwrap();
    }
    enc.reset_state(init);
    for &r in &b {
        enc.encode_residual(r).unwrap();
    }
    let bytes = enc.finish();
    let mut dec = ResidualDecoder::new(&bytes, version, init);
    for &r in &a {
        assert_eq!(dec.decode_residual().unwrap(), r);
    }
    dec.reset_state(init);
    for &r in &b {
        assert_eq!(dec.decode_residual().unwrap(), r);
    }
}

#[test]
fn decoder_is_panic_free_on_corrupt_bytes() {
    let mut rng = 0xBAD0_BAD0_BAD0_BAD0u64;
    for version in [3800u16, 3910, 3920, 3990] {
        for _ in 0..32 {
            let bytes: Vec<u8> = (0..64).map(|_| xorshift(&mut rng) as u8).collect();
            let mut dec = ResidualDecoder::new(&bytes, version, EntropyInit::default());
            for _ in 0..512 {
                let _ = dec.decode_residual();
            }
        }
    }
}

#[test]
fn escape_symbol_is_the_models_last_entry() {
    assert_eq!(ESCAPE_SYMBOL, 63);
    assert_eq!(ESCAPE_SYMBOL as usize, MODEL_ELEMENTS - 1);
}
