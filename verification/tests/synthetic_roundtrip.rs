use oxideav_ape::decoder::ApeDecoder;
use oxideav_ape::entropy::ResidualEncoder;
use oxideav_ape::frame::{crc32, frame_entropy_init, FRAME_PRIME_PAD_BYTES};
use oxideav_ape::header::CompressionLevel;
use oxideav_ape::pcm::{interleave_pcm_bytes, pcm_to_coded_arrays};

fn noise(seed: u64, len: usize, bound: i32) -> Vec<i32> {
    let mut s = seed | 1;
    (0..len)
        .map(|_| {
            s ^= s << 13;
            s ^= s >> 7;
            s ^= s << 17;
            ((s >> 33) as i32) % (2 * bound) - bound
        })
        .collect()
}

fn to_le_word_layout(mut logical: Vec<u8>) -> Vec<u8> {
    while logical.len() % 4 != 0 {
        logical.push(0);
    }
    for chunk in logical.chunks_mut(4) {
        chunk.reverse();
    }
    logical
}

fn entropy_code_frame(version: u16, arrays: &[Vec<i32>]) -> Vec<u8> {
    let mut enc = ResidualEncoder::new(version, frame_entropy_init());
    if arrays.len() == 2 {
        let mut states = [frame_entropy_init(); 2];
        for i in 0..arrays[0].len() {
            for (ch, arr) in arrays.iter().enumerate() {
                enc.reset_state(states[ch]);
                enc.encode_residual(arr[i]).unwrap();
                states[ch] = enc.running_state();
            }
        }
    } else {
        for &r in &arrays[0] {
            enc.encode_residual(r).unwrap();
        }
    }
    enc.finish()
}

fn build_frame_logical(
    version: u16,
    level: CompressionLevel,
    pcm: &[Vec<i32>],
    bits: u16,
) -> Vec<u8> {
    let pcm_bytes = interleave_pcm_bytes(pcm, bits).unwrap();
    let coded = pcm_to_coded_arrays(pcm, version, level).unwrap();
    let mut logical = Vec::new();
    logical.extend_from_slice(&(crc32(&pcm_bytes) >> 1).to_be_bytes());
    logical.extend_from_slice(&[0u8; FRAME_PRIME_PAD_BYTES]);
    logical.extend_from_slice(&entropy_code_frame(version, &coded));
    logical
}

fn build_old_era_file(
    version: u16,
    level: CompressionLevel,
    sample_rate: u32,
    frames: &[&[Vec<i32>]],
) -> Vec<u8> {
    let channels = frames[0].len() as u16;
    let mut logical = Vec::new();
    let mut offsets = Vec::new();
    let audio_start = 32 + 4 * frames.len() as u32;
    for pcm in frames {
        offsets.push(audio_start + logical.len() as u32);
        logical.extend_from_slice(&build_frame_logical(version, level, pcm, 16));
    }
    let mut file = Vec::new();
    file.extend_from_slice(b"MAC ");
    file.extend_from_slice(&version.to_le_bytes());
    file.extend_from_slice(&u16::from(level).to_le_bytes());
    file.extend_from_slice(&32u16.to_le_bytes());
    file.extend_from_slice(&channels.to_le_bytes());
    file.extend_from_slice(&sample_rate.to_le_bytes());
    file.extend_from_slice(&0u32.to_le_bytes());
    file.extend_from_slice(&0u32.to_le_bytes());
    file.extend_from_slice(&(frames.len() as u32).to_le_bytes());
    file.extend_from_slice(&(frames.last().unwrap()[0].len() as u32).to_le_bytes());
    for off in offsets {
        file.extend_from_slice(&off.to_le_bytes());
    }
    assert_eq!(file.len() as u32, audio_start);
    file.extend_from_slice(&to_le_word_layout(logical));
    file
}

fn build_new_era_file(
    version: u16,
    level: CompressionLevel,
    sample_rate: u32,
    bits: u16,
    blocks_per_frame: u32,
    frames: &[&[Vec<i32>]],
) -> Vec<u8> {
    let channels = frames[0].len() as u16;
    let seek_bytes = 4 * frames.len() as u32;
    let audio_start = 52 + 24 + seek_bytes;
    let mut logical = Vec::new();
    let mut offsets = Vec::new();
    for pcm in frames {
        offsets.push(audio_start + logical.len() as u32);
        logical.extend_from_slice(&build_frame_logical(version, level, pcm, bits));
    }
    let payload = to_le_word_layout(logical);
    let mut file = Vec::new();
    file.extend_from_slice(b"MAC ");
    file.extend_from_slice(&version.to_le_bytes());
    file.extend_from_slice(&[0u8; 2]);
    file.extend_from_slice(&52u32.to_le_bytes());
    file.extend_from_slice(&24u32.to_le_bytes());
    file.extend_from_slice(&seek_bytes.to_le_bytes());
    file.extend_from_slice(&0u32.to_le_bytes());
    file.extend_from_slice(&(payload.len() as u32).to_le_bytes());
    file.extend_from_slice(&0u32.to_le_bytes());
    file.extend_from_slice(&0u32.to_le_bytes());
    file.extend_from_slice(&[0u8; 16]);
    file.extend_from_slice(&u16::from(level).to_le_bytes());
    file.extend_from_slice(&0u16.to_le_bytes());
    file.extend_from_slice(&blocks_per_frame.to_le_bytes());
    file.extend_from_slice(&(frames.last().unwrap()[0].len() as u32).to_le_bytes());
    file.extend_from_slice(&(frames.len() as u32).to_le_bytes());
    file.extend_from_slice(&bits.to_le_bytes());
    file.extend_from_slice(&channels.to_le_bytes());
    file.extend_from_slice(&sample_rate.to_le_bytes());
    for off in offsets {
        file.extend_from_slice(&off.to_le_bytes());
    }
    assert_eq!(file.len() as u32, audio_start);
    file.extend_from_slice(&payload);
    file
}

fn assert_round_trip(file: &[u8], frames: &[&[Vec<i32>]], bits: u16, label: &str) {
    let dec = ApeDecoder::new(file).unwrap_or_else(|e| panic!("{label}: parse — {e:?}"));
    let got = dec
        .decode_all_bytes()
        .unwrap_or_else(|e| panic!("{label}: decode — {e:?}"));
    let mut expected = Vec::new();
    for pcm in frames {
        expected.extend_from_slice(&interleave_pcm_bytes(pcm, bits).unwrap());
    }
    assert_eq!(got, expected, "{label}: PCM bytes");
}

#[test]
fn old_era_files_round_trip_every_predictor_form_and_level() {
    let cases: &[(u16, &[CompressionLevel])] = &[
        (
            3930,
            &[
                CompressionLevel::Fast,
                CompressionLevel::Normal,
                CompressionLevel::High,
                CompressionLevel::ExtraHigh,
            ],
        ),
        (
            3949,
            &[CompressionLevel::Normal, CompressionLevel::ExtraHigh],
        ),
        (3950, &CompressionLevel::ALL[..]),
        (3970, &CompressionLevel::ALL[..]),
    ];
    for &(version, levels) in cases {
        for &level in levels {
            let ch0 = noise(u64::from(version) ^ 0xA5, 1500, 12000);
            let ch1: Vec<i32> = ch0
                .iter()
                .zip(noise(u64::from(version) ^ 0x5A, 1500, 2500))
                .map(|(&a, b)| (a + b).clamp(-32768, 32767))
                .collect();
            let pcm = [ch0, ch1];
            let frames: &[&[Vec<i32>]] = &[&pcm];
            let file = build_old_era_file(version, level, 44100, frames);
            let label = format!("old-era v{version} level {level:?}");
            let dec = ApeDecoder::new(&file).unwrap();
            assert_eq!(dec.info().version, version);
            assert_eq!(dec.info().bits_per_sample, 16, "{label}: flag-derived");
            assert_round_trip(&file, frames, 16, &label);
        }
    }
}

#[test]
fn old_era_mono_and_multi_frame_share_the_word_grid() {
    let f0 = [noise(11, 73728, 900)];
    let f1 = [noise(13, 2200, 900)];
    let frames: &[&[Vec<i32>]] = &[&f0, &f1];
    let file = build_old_era_file(3930, CompressionLevel::Normal, 8000, frames);
    let dec = ApeDecoder::new(&file).unwrap();
    assert_eq!(dec.info().total_frames, 2);
    assert_eq!(dec.info().blocks_per_frame, 73728);
    assert_round_trip(&file, frames, 16, "old-era two-frame mono");
}

#[test]
fn new_era_3980_pairs_the_old_entropy_path_with_era_a_filters() {
    for level in CompressionLevel::ALL {
        let ch0 = noise(0x3980 ^ u64::from(u16::from(level)), 1500, 12000);
        let ch1: Vec<i32> = ch0.iter().map(|&a| a / 2 + 7).collect();
        let pcm = [ch0, ch1];
        let frames: &[&[Vec<i32>]] = &[&pcm];
        let file = build_new_era_file(3980, level, 44100, 16, 73728, frames);
        assert_round_trip(&file, frames, 16, &format!("new-era v3980 {level:?}"));
    }
}

#[test]
fn new_era_3990_deep_cascades_round_trip() {
    for level in [
        CompressionLevel::High,
        CompressionLevel::ExtraHigh,
        CompressionLevel::Insane,
    ] {
        let ch0 = noise(0x3990 ^ u64::from(u16::from(level)), 2000, 15000);
        let ch1: Vec<i32> = ch0
            .iter()
            .zip(noise(0x1234, 2000, 4000))
            .map(|(&a, b)| (a + b).clamp(-32768, 32767))
            .collect();
        let pcm = [ch0, ch1];
        let frames: &[&[Vec<i32>]] = &[&pcm];
        let file = build_new_era_file(3990, level, 48000, 16, 73728, frames);
        assert_round_trip(&file, frames, 16, &format!("new-era v3990 {level:?}"));
    }
}

#[test]
fn high_magnitude_24_bit_stream_exercises_the_wide_coder_branches() {
    let ch0 = noise(0x24B17, 2500, 4_000_000);
    let ch1: Vec<i32> = ch0
        .iter()
        .zip(noise(77, 2500, 1_000_000))
        .map(|(&a, b)| (a + b).clamp(-8_388_608, 8_388_607))
        .collect();
    let pcm = [ch0, ch1];
    let frames: &[&[Vec<i32>]] = &[&pcm];
    let file = build_new_era_file(3990, CompressionLevel::Normal, 96000, 24, 73728, frames);
    let dec = ApeDecoder::new(&file).unwrap();
    assert_eq!(dec.info().bits_per_sample, 24);
    assert_round_trip(&file, frames, 24, "new-era 24-bit high-magnitude");
}

#[test]
fn old_era_wide_k_split_boundary_3910() {
    for version in [3930u16, 3949] {
        let ch0 = noise(u64::from(version), 1200, 30000);
        let pcm = [ch0];
        let frames: &[&[Vec<i32>]] = &[&pcm];
        let file = build_old_era_file(version, CompressionLevel::Fast, 22050, frames);
        assert_round_trip(&file, frames, 16, &format!("wide-k v{version}"));
    }
}

#[test]
fn eight_bit_new_era_round_trips_with_biased_bytes() {
    let ch0: Vec<i32> = noise(88, 900, 128);
    let pcm = [ch0];
    let frames: &[&[Vec<i32>]] = &[&pcm];
    let file = build_new_era_file(3990, CompressionLevel::Fast, 11025, 8, 73728, frames);
    let dec = ApeDecoder::new(&file).unwrap();
    assert_eq!(dec.info().bits_per_sample, 8);
    assert_round_trip(&file, frames, 8, "new-era 8-bit");
}
