use oxideav_ape::decoder::ApeDecoder;
use oxideav_ape::encoder::{encode_pcm, encode_wav, ApeEncoder, EncoderConfig};
use oxideav_ape::header::CompressionLevel;
use oxideav_ape::pcm::interleave_pcm_bytes;
use oxideav_ape::writer::canonical_wav_header;

fn noise(seed: u64, len: usize, bound: i32) -> Vec<i32> {
    let mut s = seed | 1;
    (0..len)
        .map(|_| {
            s ^= s << 13;
            s ^= s >> 7;
            s ^= s << 17;
            ((s >> 33) as i32) % (2 * bound) - bound
        })
        .collect()
}

fn assert_round_trip(cfg: EncoderConfig, pcm: &[Vec<i32>], label: &str) -> Vec<u8> {
    let bits = cfg.bits_per_sample;
    let file = encode_pcm(cfg, pcm).unwrap_or_else(|e| panic!("{label}: encode — {e:?}"));
    let dec = ApeDecoder::new(&file).unwrap_or_else(|e| panic!("{label}: parse — {e:?}"));
    let got = dec
        .decode_all_bytes()
        .unwrap_or_else(|e| panic!("{label}: decode — {e:?}"));
    assert_eq!(
        got,
        interleave_pcm_bytes(pcm, bits).unwrap(),
        "{label}: PCM recovery"
    );
    file
}

#[test]
fn synthetic_battery_round_trips_at_every_level() {
    let n = 2600usize;
    let full_scale: Vec<i32> = (0..n)
        .map(|i| if (i / 64) % 2 == 0 { 32767 } else { -32768 })
        .collect();
    let sweep: Vec<i32> = (0..n)
        .map(|i| {
            let i = i as f64;
            (18000.0 * (0.0002 * i * i).sin()) as i32
        })
        .collect();
    let battery: [(&str, Vec<Vec<i32>>); 6] = [
        ("silence", vec![vec![0; n], vec![0; n]]),
        (
            "full_scale_square",
            vec![
                full_scale.clone(),
                full_scale
                    .iter()
                    .map(|&v| if v > 0 { -32768 } else { 32767 })
                    .collect(),
            ],
        ),
        (
            "noise",
            vec![noise(0xBA77E51, n, 32768), noise(0xBA77E52, n, 32768)],
        ),
        ("sweep", vec![sweep.clone(), sweep]),
        ("dc", vec![vec![1000; n], vec![-1000; n]]),
        (
            "odd_length",
            vec![noise(0x0DD, 1237, 4000), noise(0x0DE, 1237, 4000)],
        ),
    ];
    for level in CompressionLevel::ALL {
        for (name, pcm) in &battery {
            let mut cfg = EncoderConfig::new(level, 2, 44100, 16);
            cfg.blocks_per_frame = 1024;
            let file = assert_round_trip(cfg, pcm, &format!("{name} {level:?}"));
            let dec = ApeDecoder::new(&file).unwrap();
            let blocks = pcm[0].len() as u32;
            assert_eq!(dec.info().total_frames, blocks.div_ceil(1024));
            assert_eq!(
                dec.info().final_frame_blocks,
                if blocks % 1024 == 0 {
                    1024
                } else {
                    blocks % 1024
                },
                "{name} {level:?}"
            );
            let mut cfg = EncoderConfig::new(level, 1, 22050, 16);
            cfg.blocks_per_frame = 999;
            assert_round_trip(cfg, &pcm[..1], &format!("{name} mono {level:?}"));
        }
    }
}

#[test]
fn frame_boundary_geometries_round_trip() {
    for blocks in [1usize, 999, 1000, 1001, 2000, 2001] {
        let pcm = vec![noise(blocks as u64, blocks, 12000)];
        let mut cfg = EncoderConfig::new(CompressionLevel::Normal, 1, 44100, 16);
        cfg.blocks_per_frame = 1000;
        let file = assert_round_trip(cfg, &pcm, &format!("{blocks} blocks"));
        let dec = ApeDecoder::new(&file).unwrap();
        assert_eq!(
            dec.info().total_frames,
            (blocks as u32).div_ceil(1000),
            "{blocks} blocks"
        );
    }
}

#[test]
fn special_frames_mix_within_one_stream() {
    let f = 512usize;
    let loud = noise(0x51E, f, 20000);
    let mut ch0 = Vec::new();
    let mut ch1 = Vec::new();
    ch0.extend(vec![0; f]);
    ch1.extend(vec![0; f]);
    ch0.extend(loud.clone());
    ch1.extend(loud.clone());
    ch0.extend(vec![0; f]);
    ch1.extend(loud.clone());
    ch0.extend(noise(4, f, 100));
    ch1.extend(loud.clone());
    ch0.extend(noise(5, f / 2, 100));
    ch1.extend(vec![0; f / 2]);

    let mut cfg = EncoderConfig::new(CompressionLevel::High, 2, 44100, 16);
    cfg.blocks_per_frame = f as u32;
    let pcm = vec![ch0, ch1];
    let file = assert_round_trip(cfg, &pcm, "special mix");
    let dec = ApeDecoder::new(&file).unwrap();
    assert_eq!(dec.info().total_frames, 5);
    let flags: Vec<u32> = (0..5)
        .map(|i| {
            dec.frame_residuals(i)
                .unwrap()
                .prologue
                .flags
                .map_or(0, |f| f.0)
        })
        .collect();
    assert_eq!(flags, vec![7, 4, 2, 0, 1]);
    let arrays: Vec<usize> = (0..5)
        .map(|i| dec.frame_residuals(i).unwrap().arrays.len())
        .collect();
    assert_eq!(arrays, vec![2, 1, 2, 2, 2], "coded-array shapes");
}

#[test]
fn depth_variants_round_trip() {
    for level in CompressionLevel::ALL {
        let pcm8 = vec![noise(8, 1500, 128), noise(9, 1500, 128)];
        let mut cfg = EncoderConfig::new(level, 2, 11025, 8);
        cfg.blocks_per_frame = 700;
        let file = assert_round_trip(cfg, &pcm8, &format!("8-bit {level:?}"));
        assert_eq!(ApeDecoder::new(&file).unwrap().info().bits_per_sample, 8);

        let pcm24 = vec![noise(24, 1500, 8_000_000)];
        let mut cfg = EncoderConfig::new(level, 1, 96000, 24);
        cfg.blocks_per_frame = 700;
        let file = assert_round_trip(cfg, &pcm24, &format!("24-bit {level:?}"));
        assert_eq!(ApeDecoder::new(&file).unwrap().info().bits_per_sample, 24);
    }
}

#[test]
fn wav_pass_through_survives_the_full_loop() {
    let ch0 = noise(0x3AF, 3000, 25000);
    let ch1 = noise(0x3B0, 3000, 25000);
    let pcm_bytes = interleave_pcm_bytes(&[ch0, ch1], 16).unwrap();
    let mut wav = canonical_wav_header(2, 44100, 16, pcm_bytes.len() as u32);
    wav.extend_from_slice(&pcm_bytes);
    wav.extend_from_slice(b"LIST\x0a\x00\x00\x00INFOtrail!");
    let file = encode_wav(&wav, CompressionLevel::ExtraHigh).unwrap();
    let dec = ApeDecoder::new(&file).unwrap();
    let info = dec.info();
    assert_eq!(info.wav_header, &wav[..44]);
    assert_eq!(info.terminating_data_bytes, 18);
    let end = info.audio_data_end() as usize;
    assert_eq!(&file[end..], b"LIST\x0a\x00\x00\x00INFOtrail!");
    assert_eq!(dec.decode_all_bytes().unwrap(), pcm_bytes);
}

#[test]
fn one_sample_at_a_time_streaming_is_identical() {
    let ch = noise(0x111, 2500, 9000);
    let mut cfg = EncoderConfig::new(CompressionLevel::Fast, 1, 8000, 16);
    cfg.blocks_per_frame = 512;
    let one_shot = encode_pcm(cfg.clone(), std::slice::from_ref(&ch)).unwrap();
    let mut enc = ApeEncoder::new(cfg).unwrap();
    for &s in &ch {
        enc.push_samples(&[&[s]]).unwrap();
    }
    assert_eq!(enc.finish().unwrap(), one_shot);
}
