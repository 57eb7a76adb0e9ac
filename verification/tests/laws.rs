use oxideav_ape::cascade::{cascade_decode, cascade_encode, StageState};
use oxideav_ape::decoder::ApeDecoder;
use oxideav_ape::decorrelate::{
    decorrelate_pair, decorrelate_pair_arith_shift, reconstruct_pair, reconstruct_pair_arith_shift,
};
use oxideav_ape::encoder::{
    encode_frame, encode_pcm, encode_wav, ApeEncoder, EncoderConfig,
};
use oxideav_ape::entropy::{
    fold_residual, unfold_residual, EntropyInit, ResidualDecoder, ResidualEncoder,
};
use oxideav_ape::file_header::FileInfo;
use oxideav_ape::filter_config::{filter_stages, parse_stages, FilterCascade, FILTER_CONFIG_CSV};
use oxideav_ape::frame::{crc32, decode_frame_residuals};
use oxideav_ape::freq_model::{
    parse_u32_col, symbol_for_cum_freq, symbol_interval, COUNTS_GE3990, COUNTS_LE3980,
    FREQS_GE3990, FREQS_LE3980, POWERS_OF_TWO_MINUS_ONE,
};
use oxideav_ape::header::{CompressionLevel, HeaderPrefix};
use oxideav_ape::md5::Md5;
use oxideav_ape::nn_filter::{DeltaEra, NnFilter};
use oxideav_ape::pcm::{
    deinterleave_pcm_bytes, frame_pcm, interleave_pcm_bytes, pcm_to_coded_arrays,
};
use oxideav_ape::predict::{
    ArrayPredictor, FirstOrderFilter, OffsetPredictor3930, OffsetPredictor3950,
};
use oxideav_ape::predictor::{predict_step, residual_step};
use oxideav_ape::range_coder::{RangeDecoder, RangeEncoder};
use oxideav_ape::scalars::{ksum_pivot, parse_named_value, SCALARS_CSV};
use oxideav_ape::writer::{canonical_wav_header, to_le_word_layout};

fn samples(seed: u32, n: usize, bound: i32) -> Vec<i32> {
    let mut s = seed;
    (0..n)
        .map(|_| {
            s = s.wrapping_mul(1664525).wrapping_add(1013904223);
            ((s >> 8) as i32) % (2 * bound) - bound
        })
        .collect()
}

#[test]
fn crc32_reference_vector_holds() {
    assert_eq!(crc32(b"123456789"), 0xCBF4_3926);
}

#[test]
fn range_coder_gives_back_each_kind_of_value() {
    let mut enc = RangeEncoder::new();
    enc.encode_bits(0xABC, 12);
    enc.encode_base(7, 10);
    enc.encode_interval(COUNTS_GE3990[3], FREQS_GE3990[3], 16);
    enc.encode_bits(1, 1);
    let bytes = enc.finish();
    let mut dec = RangeDecoder::new(&bytes);
    assert_eq!(dec.decode_bits(12), Ok(0xABC));
    assert_eq!(dec.decode_base(10), Ok(7));
    let cum = dec.decode_culfreq(16).unwrap();
    let s = symbol_for_cum_freq(&COUNTS_GE3990, cum);
    assert_eq!(s, 3);
    dec.consume(COUNTS_GE3990[s], FREQS_GE3990[s]);
    assert_eq!(dec.decode_bits(1), Ok(1));
}

#[test]
fn flush_covers_the_lookahead_of_every_read() {
    let pairs: Vec<(u32, u32)> = (1..400u32).map(|k| (k * k % (3 * k), 3 * k)).collect();
    let mut enc = RangeEncoder::new();
    for &(v, d) in &pairs {
        enc.encode_base(v, d);
    }
    let bytes = enc.finish();
    let mut dec = RangeDecoder::new(&bytes);
    for &(v, d) in &pairs {
        let at = dec.bit_pos();
        assert!(dec.decode_base(0).is_err());
        assert_eq!(dec.bit_pos(), at);
        assert_eq!(dec.decode_base(d), Ok(v));
        assert_eq!(dec.overrun_bytes(), 0);
    }
    assert_eq!(dec.bit_pos(), 8 * bytes.len() as u64);
}

#[test]
fn folding_gives_back_every_residual_but_the_smallest() {
    for r in [0, 1, -1, 2, -2, 12345, -12345, i32::MAX, -i32::MAX] {
        assert_eq!(unfold_residual(fold_residual(r)), r);
    }
    assert_eq!(fold_residual(3), 5);
    assert_eq!(fold_residual(-3), 6);
    for v in [0u32, 1, 2, 3, 4, 0xFFFF_FFFE] {
        assert_eq!(fold_residual(unfold_residual(v)), v);
    }
}

#[test]
fn residuals_come_back_on_all_three_paths() {
    let values = [0, 1, -1, 40, -900, 70000, -2_000_000, 3, 0, 0, 17];
    for version in [3900u16, 3950, 3990] {
        let init = EntropyInit { k: 10, ksum: 16384 };
        let mut enc = ResidualEncoder::new(version, init);
        for v in values {
            enc.encode_residual(v).unwrap();
        }
        let bytes = enc.finish();
        let mut dec = ResidualDecoder::new(&bytes, version, init);
        for v in values {
            assert_eq!(dec.decode_residual(), Ok(v), "version {version}");
            assert_eq!(dec.overrun_bytes(), 0);
        }
    }
}

#[test]
fn every_residual_fits_the_newer_path() {
    let init = EntropyInit { k: 0, ksum: 0 };
    let values = [i32::MAX, -i32::MAX, 0, i32::MAX];
    let mut enc = ResidualEncoder::new(3990, init);
    for v in values {
        enc.encode_residual(v).unwrap();
    }
    let bytes = enc.finish();
    let mut dec = ResidualDecoder::new(&bytes, 3990, init);
    for v in values {
        assert_eq!(dec.decode_residual(), Ok(v));
    }
}

#[test]
fn lookup_inverts_the_interval_of_a_symbol() {
    for counts in [&COUNTS_LE3980, &COUNTS_GE3990] {
        for s in [0usize, 1, 20, 21, 62, 63] {
            let (lo, width) = symbol_interval(counts, s).unwrap();
            assert_eq!(symbol_for_cum_freq(counts, lo), s);
            assert_eq!(symbol_for_cum_freq(counts, lo + width - 1), s);
        }
    }
}

#[test]
fn width_tables_are_differences_of_the_counts() {
    for s in 0..64 {
        assert_eq!(FREQS_LE3980[s], COUNTS_LE3980[s + 1] - COUNTS_LE3980[s]);
        assert_eq!(FREQS_GE3990[s], COUNTS_GE3990[s + 1] - COUNTS_GE3990[s]);
    }
    for n in 0..33u32 {
        assert_eq!(u64::from(POWERS_OF_TWO_MINUS_ONE[n as usize]), (1u64 << n) - 1);
    }
}

#[test]
fn pivot_is_positive_and_grows() {
    assert_eq!(ksum_pivot(0), 1);
    assert_eq!(ksum_pivot(63), 1);
    assert_eq!(ksum_pivot(64), 2);
    assert_eq!(ksum_pivot(16384), 512);
}

#[test]
fn table_text_reads_back_as_the_tables() {
    assert_eq!(parse_stages(FILTER_CONFIG_CSV), filter_stages());
    assert_eq!(parse_stages("h\r\n1,2,3,4\r\n5,6,7,8")[1].order, 7);
    assert_eq!(
        parse_u32_col("index,value\n0,19578\n1,36160\n", 2),
        vec![19578, 36160]
    );
    assert_eq!(parse_u32_col("index,value\n0,19578\n", 3), vec![19578, 0, 0]);
    for (name, value) in [
        ("model_elements", 64u32),
        ("range_overflow_total_width", 65536),
        ("range_overflow_shift", 16),
        ("ksum_pivot_divisor", 32),
        ("stage1_filter_weight", 31),
        ("stage1_filter_shift", 5),
        ("predictor_history_seed", 317),
    ] {
        assert_eq!(parse_named_value(SCALARS_CSV, name), value);
    }
    assert_eq!(parse_named_value(SCALARS_CSV, "model"), u32::MAX);
}

#[test]
fn levels_and_labels_name_each_other() {
    for level in CompressionLevel::ALL {
        assert_eq!(CompressionLevel::from_u16(level.as_u16()), Ok(level));
        assert_eq!(CompressionLevel::from_label(level.label()), Ok(level));
        let upper = format!(" \t{}\n", level.label().to_uppercase());
        assert_eq!(CompressionLevel::from_label(&upper), Ok(level));
        let prefix = HeaderPrefix::new(3990, level);
        assert_eq!(HeaderPrefix::parse(&prefix.encode_prefix()), Ok(prefix));
    }
}

#[test]
fn levels_are_ordered_by_their_numbers() {
    for a in CompressionLevel::ALL {
        for b in CompressionLevel::ALL {
            assert_eq!(a < b, a.as_u16() < b.as_u16());
            assert_eq!(a.cmp(&b), a.as_u16().cmp(&b.as_u16()));
        }
        assert_eq!(
            FilterCascade::for_level(a).is_empty(),
            a == CompressionLevel::Fast
        );
    }
}

#[test]
fn adaptive_filter_undoes_itself() {
    let signal = samples(5, 1500, 40000);
    for era in [DeltaEra::A, DeltaEra::B] {
        let mut enc = NnFilter::new(32, 10, era).unwrap();
        let mut dec = NnFilter::new(32, 10, era).unwrap();
        for &v in &signal {
            let r = enc.encode(v);
            assert_eq!(dec.decode(r), v);
        }
    }
}

#[test]
fn predictors_undo_themselves() {
    let signal = samples(9, 1200, 30000);
    let other = samples(10, 1200, 30000);
    let (mut fe, mut fd) = (FirstOrderFilter::new(), FirstOrderFilter::new());
    let (mut ae, mut ad) = (OffsetPredictor3950::new(), OffsetPredictor3950::new());
    let (mut be, mut bd) = (OffsetPredictor3930::new(), OffsetPredictor3930::new());
    for i in 0..signal.len() {
        let c = fe.compress(signal[i]);
        assert_eq!(fd.decompress(c), signal[i]);
        let r = ae.step_encode(signal[i], other[i]);
        assert_eq!(ad.step(r, other[i]), signal[i]);
        let r = be.step_encode(signal[i]);
        assert_eq!(bd.step(r), signal[i]);
    }
    for (version, level) in [
        (3990u16, CompressionLevel::Insane),
        (3980, CompressionLevel::ExtraHigh),
        (3940, CompressionLevel::High),
        (3990, CompressionLevel::Fast),
    ] {
        let mut enc = ArrayPredictor::new(version, level).unwrap();
        let mut dec = ArrayPredictor::new(version, level).unwrap();
        for i in 0..signal.len() {
            let r = enc.encode(signal[i], other[i]);
            assert_eq!(dec.decode(r, other[i]), signal[i]);
        }
    }
}

#[test]
fn prediction_step_undoes_the_residual_step() {
    let history = [5, -7, 11];
    let reference = [1, 0, -1];
    let mut p = [3, -2, 4];
    let mut q = p;
    let residual = residual_step(1000, &history, &reference, &mut p).unwrap();
    assert_eq!(residual, 1000 - (15 + 14 + 44));
    assert_eq!(predict_step(residual, &history, &reference, &mut q), Ok(1000));
    assert_eq!(p, q);
}

#[test]
fn cascade_undoes_itself_under_one_policy() {
    let cascade = FilterCascade::for_level(CompressionLevel::Insane);
    let signal = samples(21, 300, 9000);
    let policy = |_stage: usize, residual: i32, _filtered: i32| residual.signum();
    let mut values = signal.clone();
    let mut enc = StageState::for_cascade(&cascade);
    cascade_encode(&mut values, &mut enc, policy).unwrap();
    assert_ne!(values, signal);
    let mut dec = StageState::for_cascade(&cascade);
    cascade_decode(&mut values, &mut dec, policy).unwrap();
    assert_eq!(values, signal);
}

#[test]
fn correlation_undoes_itself_with_either_rounding() {
    for (l, r) in [(0, 0), (5, 2), (2, 5), (i32::MAX, i32::MIN), (-7, 4)] {
        let (x, y) = decorrelate_pair(l, r);
        assert_eq!(reconstruct_pair(x, y), (l, r));
        let (x, y) = decorrelate_pair_arith_shift(l, r);
        assert_eq!(reconstruct_pair_arith_shift(x, y), (l, r));
    }
    assert_eq!(reconstruct_pair(10, -3), (8, 11));
    assert_eq!(reconstruct_pair_arith_shift(10, -3), (9, 12));
    assert_eq!(reconstruct_pair(10, 3), reconstruct_pair_arith_shift(10, 3));
}

#[test]
fn junk_moves_a_file_and_nothing_else() {
    let pcm = samples(31, 40, 1000);
    let cfg = EncoderConfig::new(CompressionLevel::Fast, 1, 8000, 16);
    let file = encode_pcm(cfg, &[pcm]).unwrap();
    let mut flat: Vec<u8> = b"MAC ".to_vec();
    for half in [3800u16, 1000, 4 + 16, 2] {
        flat.extend_from_slice(&half.to_le_bytes());
    }
    for word in [44100u32, 3, 1, 1, 7, 999, 2] {
        flat.extend_from_slice(&word.to_le_bytes());
    }
    flat.extend_from_slice(&[1, 2, 3]);
    flat.extend_from_slice(&[9; 8]);
    flat.extend_from_slice(&[4, 5]);
    flat.extend_from_slice(&[6; 20]);
    let junk = [0xAAu8; 13];
    for b in [&file[..], &flat[..], &file[..60], &flat[..30], b"MAC", b"MACX"] {
        let mut all = junk.to_vec();
        all.extend_from_slice(b);
        match (FileInfo::parse_at(b, 0), FileInfo::parse_at(&all, 13)) {
            (Ok(mut plain), Ok(behind)) => {
                plain.junk_bytes += 13;
                plain.audio_data_offset += 13;
                plain.data_len += 13;
                assert_eq!(plain, behind);
                assert_eq!(FileInfo::parse(&all), Ok(behind));
            }
            (Err(plain), Err(behind)) => assert_eq!(plain, behind),
            (plain, behind) => panic!("{plain:?} and {behind:?}"),
        }
    }
    let info = FileInfo::parse_at(&flat, 0).unwrap();
    assert_eq!(info.peak_level, Some(999));
    assert_eq!(info.seek_bit_table, Some(vec![4, 5]));
    assert_eq!(info.audio_data_len, 19);
}

#[test]
fn channels_come_back_from_their_coded_arrays() {
    let pcm = vec![samples(2, 500, 20000), samples(3, 500, 20000)];
    for level in CompressionLevel::ALL {
        let arrays = pcm_to_coded_arrays(&pcm, 3990, level).unwrap();
        let file = {
            let mut bytes = encode_frame(&pcm, level, 16).unwrap().bytes;
            bytes.extend_from_slice(&[0; 8]);
            to_le_word_layout(bytes)
        };
        let frame = decode_frame_residuals(&file, 0, 3990, 2, 500).unwrap();
        assert_eq!(frame.arrays, arrays);
        assert_eq!(frame_pcm(&frame, 3990, level, 2).unwrap(), pcm);
    }
}

#[test]
fn interleaving_and_deinterleaving_undo_each_other() {
    let bytes: Vec<u8> = (0..72u8).map(|i| i.wrapping_mul(37)).collect();
    for bits in [8u16, 16, 24] {
        for channels in [1u16, 2, 3] {
            let pcm = deinterleave_pcm_bytes(&bytes, bits, channels).unwrap();
            assert_eq!(pcm.len(), usize::from(channels));
            assert_eq!(interleave_pcm_bytes(&pcm, bits).unwrap(), bytes);
        }
    }
    assert_eq!(
        interleave_pcm_bytes(&[vec![-128, 127], vec![0, -1]], 8).unwrap(),
        vec![0, 128, 255, 127]
    );
    assert_eq!(
        interleave_pcm_bytes(&[vec![-2]], 24).unwrap(),
        vec![0xFE, 0xFF, 0xFF]
    );
}

#[test]
fn residuals_of_full_scale_samples_stay_clear_of_the_smallest() {
    for bits in [8u16, 16, 24] {
        let top = (1i32 << (bits - 1)) - 1;
        let swing: Vec<i32> = (0..400).map(|i| if i % 2 == 0 { top } else { -top - 1 }).collect();
        let other: Vec<i32> = swing.iter().rev().copied().collect();
        let mut cfg = EncoderConfig::new(CompressionLevel::Insane, 2, 44100, bits);
        cfg.blocks_per_frame = 150;
        let file = encode_pcm(cfg, &[swing.clone(), other.clone()]).unwrap();
        let dec = ApeDecoder::new(&file).unwrap();
        assert_eq!(
            dec.decode_all_bytes().unwrap(),
            interleave_pcm_bytes(&[swing, other], bits).unwrap()
        );
    }
}

#[test]
fn digest_does_not_depend_on_the_pieces() {
    let data: Vec<u8> = (0..200u8).collect();
    for cut in [0usize, 1, 63, 64, 65, 128, 200] {
        let mut md5 = Md5::new();
        md5.update(&data[..cut]);
        md5.update(&data[cut..]);
        assert_eq!(md5.finish(), Md5::digest(&data));
    }
}

#[test]
fn encoded_file_does_not_depend_on_the_pieces() {
    let pcm = vec![samples(4, 1000, 100), samples(6, 1000, 100)];
    let mut cfg = EncoderConfig::new(CompressionLevel::High, 2, 48000, 8);
    cfg.blocks_per_frame = 300;
    cfg.trailing_tag = b"APETAGEX".to_vec();
    let whole = encode_pcm(cfg.clone(), &pcm).unwrap();
    let same = cfg.clone();
    let Ok(mut enc) = ApeEncoder::new(cfg) else {
        panic!("the configuration is valid");
    };
    let mut at = 0;
    for step in [1usize, 299, 350, 0, 350] {
        enc.push_samples(&[&pcm[0][at..at + step], &pcm[1][at..at + step]])
            .unwrap();
        at += step;
    }
    assert_eq!(enc.total_blocks(), 1000);
    assert_eq!(enc.frames_encoded(), 3);
    assert_eq!(enc.finish().unwrap(), whole);
    assert!(whole.ends_with(b"APETAGEX"));
    let Ok(mut enc) = ApeEncoder::new(same) else {
        panic!("the configuration is valid");
    };
    let bytes = interleave_pcm_bytes(&pcm, 8).unwrap();
    enc.push_interleaved_bytes(&bytes[..126]).unwrap();
    enc.push_samples(&[&pcm[0][63..500], &pcm[1][63..500]]).unwrap();
    enc.push_interleaved_bytes(&bytes[1000..]).unwrap();
    assert_eq!(enc.finish().unwrap(), whole);
}

#[test]
fn unused_cascade_slots_carry_the_level() {
    let fast = FilterCascade::for_level(CompressionLevel::Fast);
    for slot in &fast.stages[1..] {
        assert_eq!(
            (slot.level_code, slot.filter_index, slot.order, slot.shift),
            (1000, 0, 0, 0)
        );
    }
    assert_eq!(fast, FilterCascade::for_level(CompressionLevel::Fast));
}

#[test]
fn file_gives_back_samples_and_fields() {
    for (channels, bits) in [(1u16, 8u16), (2, 16), (2, 24)] {
        let pcm: Vec<Vec<i32>> = (0..u32::from(channels))
            .map(|c| samples(77 + c, 777, 120))
            .collect();
        let mut cfg = EncoderConfig::new(CompressionLevel::ExtraHigh, channels, 96000, bits);
        cfg.blocks_per_frame = 256;
        cfg.wav_header = Some(vec![1, 2, 3, 4, 5]);
        let file = encode_pcm(cfg, &pcm).unwrap();
        let info = FileInfo::parse(&file).unwrap();
        assert_eq!(info.version, 3990);
        assert_eq!(info.compression_level, CompressionLevel::ExtraHigh);
        assert_eq!(info.channels, channels);
        assert_eq!(info.sample_rate, 96000);
        assert_eq!(info.bits_per_sample, bits);
        assert_eq!(info.blocks_per_frame, 256);
        assert_eq!(info.total_frames, 4);
        assert_eq!(info.final_frame_blocks, 9);
        assert_eq!(info.wav_header, vec![1, 2, 3, 4, 5]);
        let dec = ApeDecoder::new(&file).unwrap();
        assert_eq!(
            dec.decode_all_bytes().unwrap(),
            interleave_pcm_bytes(&pcm, bits).unwrap()
        );
    }
}

#[test]
fn wav_file_comes_back_byte_for_byte() {
    let pcm = interleave_pcm_bytes(&[samples(8, 90, 30000), samples(9, 90, 30000)], 16).unwrap();
    let mut wav = canonical_wav_header(2, 22050, 16, pcm.len() as u32);
    wav.extend_from_slice(&pcm);
    wav.extend_from_slice(b"LIST\x04\x00\x00\x00INFO");
    let file = encode_wav(&wav, CompressionLevel::Fast).unwrap();
    let dec = ApeDecoder::new(&file).unwrap();
    let mut back = dec.info().wav_header.clone();
    back.extend_from_slice(&dec.decode_all_bytes().unwrap());
    back.extend_from_slice(&file[dec.info().audio_data_end() as usize..]);
    assert_eq!(back, wav);
    assert_eq!(dec.info().terminating_data_bytes, 12);
}
