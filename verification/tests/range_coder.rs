use oxideav_ape::freq_model::{COUNTS_GE3990, COUNTS_LE3980, MODEL_ELEMENTS, RANGE_OVERFLOW_SHIFT, symbol_for_cum_freq, symbol_interval};
use oxideav_ape::range_coder::{BOTTOM_VALUE, BitInput, CODE_BITS, EXTRA_BITS, RangeDecoder, RangeEncoder, SHIFT_BITS, TOP_VALUE};

#[test]
fn constants_match_the_staged_reference() {
    assert_eq!(CODE_BITS, 32);
    assert_eq!(TOP_VALUE, 0x8000_0000);
    assert_eq!(SHIFT_BITS, 23);
    assert_eq!(EXTRA_BITS, 7);
    assert_eq!(BOTTOM_VALUE, 0x0080_0000);
    assert_eq!(BOTTOM_VALUE, TOP_VALUE >> 8);
}

#[test]
fn bit_input_walks_bytes_sequentially_when_aligned() {
    let data = [0xDE, 0xAD, 0xBE, 0xEF, 0x01, 0x02];
    let mut input = BitInput::new(&data, 0);
    for &b in &data {
        assert_eq!(input.read_byte(), b);
    }
    assert_eq!(input.overrun_bytes(), 0);
    assert_eq!(input.read_byte(), 0);
    assert_eq!(input.read_byte(), 0);
    assert_eq!(input.overrun_bytes(), 2);
}

#[test]
fn bit_input_matches_the_staged_word_addressing() {
    let data = [0x11, 0x22, 0x33, 0x44, 0x55, 0x66, 0x77, 0x88];
    for byte_index in 0..8u64 {
        let i = byte_index * 8;
        let word_index = (i >> 5) as usize;
        let word = u32::from_be_bytes([
            data[word_index * 4],
            data[word_index * 4 + 1],
            data[word_index * 4 + 2],
            data[word_index * 4 + 3],
        ]);
        let expected = ((word >> (24 - (i & 31))) & 0xFF) as u8;
        let mut input = BitInput::new(&data, i);
        assert_eq!(input.read_byte(), expected, "bit index {i}");
        assert_eq!(expected, data[byte_index as usize]);
    }
}

#[test]
fn bit_input_supports_non_aligned_bit_positions() {
    let data = [0xAB, 0xCD];
    let mut input = BitInput::new(&data, 4);
    assert_eq!(input.read_byte(), 0xBC);
    let data2 = [0x11, 0x22, 0x33, 0x44, 0x55];
    let mut input2 = BitInput::new(&data2, 28);
    assert_eq!(input2.read_byte(), 0x45);
}

#[test]
fn decoder_priming_takes_extra_bits_of_the_first_byte() {
    let data = [0xAB, 0, 0, 0, 0];
    let dec = RangeDecoder::new(&data);
    assert_eq!(dec.low, 0xAB >> 1);
    assert_eq!(dec.range, 1 << EXTRA_BITS);
    assert_eq!(dec.buffer, 0xAB);
}

#[test]
fn single_bits_value_round_trips() {
    for shift in [0u32, 1, 5, 8, 15, 16] {
        for v in [0u32, 1, (1 << shift) - 1, (1 << shift) / 2] {
            let v = v & ((1u32 << shift) - 1);
            let mut enc = RangeEncoder::new();
            enc.encode_bits(v, shift);
            let bytes = enc.finish();
            let mut dec = RangeDecoder::new(&bytes);
            assert_eq!(dec.decode_bits(shift).unwrap(), v, "shift {shift} v {v}");
        }
    }
}

#[test]
fn zero_shift_decodes_zero_without_consuming_interval() {
    let mut enc = RangeEncoder::new();
    enc.encode_bits(0x55, 8);
    let bytes = enc.finish();
    let mut dec = RangeDecoder::new(&bytes);
    assert_eq!(dec.decode_bits(0).unwrap(), 0);
    assert_eq!(dec.decode_bits(8).unwrap(), 0x55);
}

#[test]
fn bits_sequence_round_trips() {
    let mut state = 0x1234_5678_9ABC_DEF0u64;
    let mut xs = || {
        state ^= state << 13;
        state ^= state >> 7;
        state ^= state << 17;
        state
    };
    let seq: Vec<(u32, u32)> = (0..4096)
        .map(|_| {
            let shift = (xs() % 17) as u32;
            let v = if shift == 0 {
                0
            } else {
                (xs() as u32) & ((1u32 << shift) - 1)
            };
            (v, shift)
        })
        .collect();
    let mut enc = RangeEncoder::new();
    for &(v, shift) in &seq {
        enc.encode_bits(v, shift);
    }
    let bytes = enc.finish();
    let mut dec = RangeDecoder::new(&bytes);
    for &(v, shift) in &seq {
        assert_eq!(dec.decode_bits(shift).unwrap(), v);
    }
    assert_eq!(dec.overrun_bytes(), 0, "flush must cover the lookahead");
}

#[test]
fn base_sequence_round_trips_over_arbitrary_radices() {
    let mut state = 0xC0FF_EE11_2233_4455u64;
    let mut xs = || {
        state ^= state << 13;
        state ^= state >> 7;
        state ^= state << 17;
        state
    };
    let seq: Vec<(u32, u32)> = (0..4096)
        .map(|_| {
            let divisor = ((xs() % 65535) + 1) as u32;
            let v = (xs() as u32) % divisor;
            (v, divisor)
        })
        .collect();
    let mut enc = RangeEncoder::new();
    for &(v, d) in &seq {
        enc.encode_base(v, d);
    }
    let bytes = enc.finish();
    let mut dec = RangeDecoder::new(&bytes);
    for &(v, d) in &seq {
        assert_eq!(dec.decode_base(d).unwrap(), v);
    }
}

#[test]
fn interval_symbols_round_trip_against_both_staged_models() {
    for counts in [&COUNTS_LE3980, &COUNTS_GE3990] {
        let symbols: Vec<usize> = (0..2048)
            .map(|i| (i * 7 + i / 5) % MODEL_ELEMENTS)
            .collect();
        let mut enc = RangeEncoder::new();
        for &s in &symbols {
            let (low, width) = symbol_interval(counts, s).unwrap();
            enc.encode_interval(low, width, RANGE_OVERFLOW_SHIFT);
        }
        let bytes = enc.finish();
        let mut dec = RangeDecoder::new(&bytes);
        for &s in &symbols {
            let cf = dec.decode_culfreq(RANGE_OVERFLOW_SHIFT).unwrap();
            let sym = symbol_for_cum_freq(counts, cf);
            assert_eq!(sym, s);
            let (low, width) = symbol_interval(counts, sym).unwrap();
            dec.consume(low, width);
        }
    }
}

#[test]
fn mixed_primitive_stream_round_trips() {
    let counts = &COUNTS_GE3990;
    let mut enc = RangeEncoder::new();
    let script: Vec<(usize, u32, u32, u32)> = (0..1024)
        .map(|i| {
            let sym = (i * 11) % 64;
            let bits_v = (i as u32).wrapping_mul(2654435761) & 0xFFFF;
            let divisor = (i as u32 % 1000) + 1;
            let base_v = (i as u32 * 40503) % divisor;
            (sym, bits_v, divisor, base_v)
        })
        .collect();
    for &(sym, bits_v, divisor, base_v) in &script {
        let (low, width) = symbol_interval(counts, sym).unwrap();
        enc.encode_interval(low, width, RANGE_OVERFLOW_SHIFT);
        enc.encode_bits(bits_v, 16);
        enc.encode_base(base_v, divisor);
    }
    let bytes = enc.finish();
    let mut dec = RangeDecoder::new(&bytes);
    for &(sym, bits_v, divisor, base_v) in &script {
        let cf = dec.decode_culfreq(RANGE_OVERFLOW_SHIFT).unwrap();
        let got = symbol_for_cum_freq(counts, cf);
        assert_eq!(got, sym);
        let (low, width) = symbol_interval(counts, got).unwrap();
        dec.consume(low, width);
        assert_eq!(dec.decode_bits(16).unwrap(), bits_v);
        assert_eq!(dec.decode_base(divisor).unwrap(), base_v);
    }
}

#[test]
fn carry_propagation_survives_ff_runs() {
    let mut enc = RangeEncoder::new();
    let seq: Vec<u32> = (0..512)
        .map(|i| if i % 3 == 0 { 0xFFFF } else { 1 })
        .collect();
    for &v in &seq {
        enc.encode_bits(v, 16);
    }
    let bytes = enc.finish();
    let mut dec = RangeDecoder::new(&bytes);
    for &v in &seq {
        assert_eq!(dec.decode_bits(16).unwrap(), v);
    }
}

#[test]
fn decoder_is_panic_free_on_arbitrary_bytes() {
    let mut state = 0x0BAD_F00D_DEAD_BEEFu64;
    for _ in 0..64 {
        let bytes: Vec<u8> = (0..96)
            .map(|_| {
                state ^= state << 13;
                state ^= state >> 7;
                state ^= state << 17;
                state as u8
            })
            .collect();
        let mut dec = RangeDecoder::new(&bytes);
        for i in 0..256u32 {
            let _ = dec.decode_culfreq(16);
            dec.consume(i % 65536, (i % 512) + 1);
            let _ = dec.decode_bits(i % 17);
            let _ = dec.decode_base((i % 4096) + 1);
        }
    }
}

#[test]
fn empty_input_decodes_zeroes() {
    let mut dec = RangeDecoder::new(&[]);
    assert_eq!(dec.decode_bits(16).unwrap(), 0);
    assert_eq!(dec.decode_base(12345).unwrap(), 0);
    assert!(dec.overrun_bytes() > 0);
}

#[test]
fn encoder_finish_emits_the_full_window() {
    let enc = RangeEncoder::new();
    assert_eq!(enc.finish(), vec![0, 0, 0, 0]);
}
