use oxideav_ape::freq_model::{COUNTS_GE3990, COUNTS_LE3980, FREQS_GE3990, FREQS_LE3980, FREQ_MODEL_VERSION_SPLIT, MODEL_ELEMENTS, POWERS_OF_TWO_MINUS_ONE, RANGE_OVERFLOW_SHIFT, RANGE_TOTAL_WIDTH, counts_for_version, freqs_for_version, symbol_for_cum_freq, symbol_interval, symbol_width};

#[test]
fn tables_have_documented_shape() {
    assert_eq!(COUNTS_LE3980.len(), MODEL_ELEMENTS + 1);
    assert_eq!(COUNTS_GE3990.len(), MODEL_ELEMENTS + 1);
    assert_eq!(POWERS_OF_TWO_MINUS_ONE.len(), 33);
}

#[test]
fn cumulative_tables_run_zero_to_total_and_are_monotonic() {
    for counts in [&COUNTS_LE3980, &COUNTS_GE3990] {
        assert_eq!(counts[0], 0);
        assert_eq!(counts[MODEL_ELEMENTS], RANGE_TOTAL_WIDTH);
        for w in counts.windows(2) {
            assert!(w[1] > w[0], "table must be strictly increasing");
        }
    }
}

#[test]
fn total_width_matches_scalar_bounds() {
    assert_eq!(RANGE_TOTAL_WIDTH, 65536);
    assert_eq!(RANGE_TOTAL_WIDTH, 1 << RANGE_OVERFLOW_SHIFT);
    assert_eq!(MODEL_ELEMENTS, 64);
}

#[test]
fn first_widths_anchor_the_le3980_table() {
    assert_eq!(symbol_interval(&COUNTS_LE3980, 0), Some((0, 14824)));
    assert_eq!(
        symbol_interval(&COUNTS_LE3980, 1),
        Some((14824, 28224 - 14824))
    );
}

#[test]
fn first_widths_anchor_the_ge3990_table() {
    assert_eq!(symbol_interval(&COUNTS_GE3990, 0), Some((0, 19578)));
    assert_eq!(
        symbol_interval(&COUNTS_GE3990, 1),
        Some((19578, 36160 - 19578))
    );
}

#[test]
fn symbol_interval_rejects_out_of_range_symbol() {
    assert_eq!(symbol_interval(&COUNTS_LE3980, MODEL_ELEMENTS), None);
    assert_eq!(symbol_interval(&COUNTS_LE3980, MODEL_ELEMENTS + 5), None);
}

#[test]
fn version_selector_splits_at_3990() {
    assert_eq!(FREQ_MODEL_VERSION_SPLIT, 3990);
    assert!(counts_for_version(3920) == &COUNTS_LE3980);
    assert!(counts_for_version(3980) == &COUNTS_LE3980);
    assert!(counts_for_version(3989) == &COUNTS_LE3980);
    assert!(counts_for_version(3990) == &COUNTS_GE3990);
    assert!(counts_for_version(3999) == &COUNTS_GE3990);
}

#[test]
fn cum_freq_lookup_inverts_symbol_interval() {
    for counts in [&COUNTS_LE3980, &COUNTS_GE3990] {
        for symbol in 0..MODEL_ELEMENTS {
            let (low, width) = symbol_interval(counts, symbol).unwrap();
            assert_eq!(symbol_for_cum_freq(counts, low), symbol);
            assert_eq!(symbol_for_cum_freq(counts, low + width - 1), symbol);
        }
    }
}

#[test]
fn cum_freq_lookup_clamps_at_total_width() {
    for counts in [&COUNTS_LE3980, &COUNTS_GE3990] {
        assert_eq!(
            symbol_for_cum_freq(counts, RANGE_TOTAL_WIDTH),
            MODEL_ELEMENTS - 1
        );
        assert_eq!(symbol_for_cum_freq(counts, u32::MAX), MODEL_ELEMENTS - 1);
    }
}

#[test]
fn widths_are_successive_differences_summing_to_total() {
    for counts in [&COUNTS_LE3980, &COUNTS_GE3990] {
        let mut sum = 0u32;
        for s in 0..MODEL_ELEMENTS {
            sum += symbol_interval(counts, s).unwrap().1;
        }
        assert_eq!(sum, RANGE_TOTAL_WIDTH);
    }
}

#[test]
fn width_tables_have_documented_shape() {
    assert_eq!(FREQS_LE3980.len(), MODEL_ELEMENTS);
    assert_eq!(FREQS_GE3990.len(), MODEL_ELEMENTS);
}

#[test]
fn staged_width_table_matches_cumulative_differences() {
    for (counts, freqs) in [
        (&COUNTS_LE3980, &FREQS_LE3980),
        (&COUNTS_GE3990, &FREQS_GE3990),
    ] {
        for s in 0..MODEL_ELEMENTS {
            assert_eq!(
                freqs[s],
                counts[s + 1] - counts[s],
                "width[{s}] disagrees with cumulative difference"
            );
            assert_eq!(symbol_interval(counts, s).unwrap().1, freqs[s]);
            assert_eq!(symbol_width(freqs, s), Some(freqs[s]));
        }
    }
}

#[test]
fn widths_sum_to_total_range() {
    for freqs in [&FREQS_LE3980, &FREQS_GE3990] {
        let sum: u32 = freqs.iter().sum();
        assert_eq!(sum, RANGE_TOTAL_WIDTH);
        assert!(freqs.iter().all(|&w| w >= 1));
    }
}

#[test]
fn width_selector_splits_at_3990() {
    assert!(freqs_for_version(3920) == &FREQS_LE3980);
    assert!(freqs_for_version(3989) == &FREQS_LE3980);
    assert!(freqs_for_version(3990) == &FREQS_GE3990);
    assert!(freqs_for_version(3999) == &FREQS_GE3990);
}

#[test]
fn symbol_width_rejects_out_of_range_symbol() {
    assert_eq!(symbol_width(&FREQS_LE3980, MODEL_ELEMENTS), None);
    assert_eq!(symbol_width(&FREQS_GE3990, MODEL_ELEMENTS + 3), None);
}

#[test]
fn first_widths_anchor_the_width_tables() {
    assert_eq!(symbol_width(&FREQS_LE3980, 0), Some(14824));
    assert_eq!(symbol_width(&FREQS_LE3980, 1), Some(13400));
    assert_eq!(symbol_width(&FREQS_GE3990, 0), Some(19578));
}

#[test]
fn exhaustive_cum_freq_inverse_over_the_full_range() {
    for counts in [&COUNTS_LE3980, &COUNTS_GE3990] {
        let mut symbol = 0usize;
        for cf in 0..RANGE_TOTAL_WIDTH {
            while counts[symbol + 1] <= cf {
                symbol += 1;
            }
            assert_eq!(
                symbol_for_cum_freq(counts, cf),
                symbol,
                "cum_freq {cf} must decode to symbol {symbol}"
            );
        }
        assert_eq!(symbol, MODEL_ELEMENTS - 1);
    }
}

#[test]
fn powers_of_two_minus_one_is_mask_table() {
    for (n, &v) in POWERS_OF_TWO_MINUS_ONE.iter().enumerate() {
        if n < 32 {
            assert_eq!(v, (1u32 << n) - 1, "value[{n}] must be (2^{n})-1");
        } else {
            assert_eq!(v, u32::MAX);
        }
    }
}
