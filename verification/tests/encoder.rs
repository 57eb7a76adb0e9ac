use oxideav_ape::decoder::ApeDecoder;
use oxideav_ape::encoder::{ApeEncoder, EncoderConfig, WavSplit, encode_frame, encode_pcm, encode_wav, frame_flags};
use oxideav_ape::error::Error;
use oxideav_ape::frame::{FrameFlags, crc32};
use oxideav_ape::header::CompressionLevel;
use oxideav_ape::pcm::interleave_pcm_bytes;
use oxideav_ape::writer::canonical_wav_header;

fn noise(seed: u64, len: usize, bound: i32) -> Vec<i32> {
    let mut s = seed | 1;
    (0..len)
        .map(|_| {
            s ^= s << 13;
            s ^= s >> 7;
            s ^= s << 17;
            ((s >> 33) as i32) % (2 * bound) - bound
        })
        .collect()
}

fn round_trip(cfg: EncoderConfig, pcm: &[Vec<i32>], label: &str) -> Vec<u8> {
    let bits = cfg.bits_per_sample;
    let file = encode_pcm(cfg, pcm).unwrap_or_else(|e| panic!("{label}: encode — {e:?}"));
    let dec = ApeDecoder::new(&file).unwrap_or_else(|e| panic!("{label}: parse — {e:?}"));
    let got = dec
        .decode_all_bytes()
        .unwrap_or_else(|e| panic!("{label}: decode — {e:?}"));
    assert_eq!(
        got,
        interleave_pcm_bytes(pcm, bits).unwrap(),
        "{label}: PCM"
    );
    file
}

#[test]
fn flags_follow_the_empirical_bit_assignment() {
    let z = vec![0; 4];
    let a = vec![1, 2, 3, 4];
    assert_eq!(
        frame_flags(std::slice::from_ref(&z)),
        FrameFlags(FrameFlags::CH0_SILENT)
    );
    assert_eq!(frame_flags(std::slice::from_ref(&a)), FrameFlags(0));
    assert_eq!(
        frame_flags(&[a.clone(), a.clone()]),
        FrameFlags(FrameFlags::PSEUDO_STEREO)
    );
    assert_eq!(
        frame_flags(&[z.clone(), a.clone()]),
        FrameFlags(FrameFlags::CH1_SILENT)
    );
    assert_eq!(
        frame_flags(&[a.clone(), z.clone()]),
        FrameFlags(FrameFlags::CH0_SILENT)
    );
    assert_eq!(frame_flags(&[z.clone(), z.clone()]), FrameFlags(7));
    assert_eq!(frame_flags(&[a.clone(), vec![1, 2, 3, 5]]), FrameFlags(0));
}

#[test]
fn silent_frame_is_prologue_pad_and_empty_flush() {
    let f = encode_frame(&[vec![0; 100], vec![0; 100]], CompressionLevel::Fast, 16).unwrap();
    assert_eq!(f.flags, FrameFlags(7));
    assert_eq!(f.bytes.len(), 8 + 1 + 4);
    assert_eq!(f.bytes[0] & 0x80, 0x80);
    assert_eq!(&f.bytes[4..8], &[0, 0, 0, 7]);
    assert_eq!(f.crc31, crc32(&[0u8; 400]) >> 1);
    let f = encode_frame(&[vec![5; 3]], CompressionLevel::Fast, 16).unwrap();
    assert_eq!(f.flags, FrameFlags(0));
    assert_eq!(f.bytes[0] & 0x80, 0);
}

#[test]
fn encode_frame_rejects_bad_input() {
    assert!(matches!(
        encode_frame(&[], CompressionLevel::Fast, 16),
        Err(Error::InvalidInput(_))
    ));
    assert!(matches!(
        encode_frame(&[vec![0; 2], vec![0; 3]], CompressionLevel::Fast, 16),
        Err(Error::InvalidInput(_))
    ));
    assert!(matches!(
        encode_frame(&[vec![40000]], CompressionLevel::Fast, 16),
        Err(Error::InvalidInput(_))
    ));
    assert!(matches!(
        encode_frame(&[vec![-129]], CompressionLevel::Fast, 8),
        Err(Error::InvalidInput(_))
    ));
    assert!(encode_frame(&[vec![-128, 127]], CompressionLevel::Fast, 8).is_ok());
}

#[test]
fn config_validation() {
    assert!(EncoderConfig::new(CompressionLevel::Fast, 3, 44100, 16)
        .validate()
        .is_err());
    assert!(EncoderConfig::new(CompressionLevel::Fast, 1, 44100, 12)
        .validate()
        .is_err());
    assert!(EncoderConfig::new(CompressionLevel::Fast, 1, 0, 16)
        .validate()
        .is_err());
    let mut c = EncoderConfig::new(CompressionLevel::Fast, 1, 44100, 16);
    c.blocks_per_frame = 0;
    assert!(c.validate().is_err());
    assert_eq!(
        EncoderConfig::new(CompressionLevel::Fast, 2, 44100, 24).block_align(),
        6
    );
    assert_eq!(
        EncoderConfig::new(CompressionLevel::Fast, 2, 44100, 8).sample_range(),
        (-128, 127)
    );
}

#[test]
fn every_level_round_trips_stereo_and_mono() {
    for level in CompressionLevel::ALL {
        let ch0 = noise(u64::from(u16::from(level)), 3000, 20000);
        let ch1: Vec<i32> = ch0
            .iter()
            .zip(noise(99, 3000, 5000))
            .map(|(&a, b)| (a + b).clamp(-32768, 32767))
            .collect();
        round_trip(
            EncoderConfig::new(level, 2, 44100, 16),
            &[ch0.clone(), ch1],
            &format!("stereo {level:?}"),
        );
        round_trip(
            EncoderConfig::new(level, 1, 22050, 16),
            &[ch0],
            &format!("mono {level:?}"),
        );
    }
}

#[test]
fn multi_frame_streaming_matches_one_shot_and_chunking_is_irrelevant() {
    let mut cfg = EncoderConfig::new(CompressionLevel::Normal, 2, 48000, 16);
    cfg.blocks_per_frame = 1000;
    let ch0 = noise(5, 3500, 12000);
    let ch1 = noise(6, 3500, 12000);
    let one_shot = encode_pcm(cfg.clone(), &[ch0.clone(), ch1.clone()]).unwrap();
    let dec = ApeDecoder::new(&one_shot).unwrap();
    assert_eq!(dec.info().total_frames, 4);
    assert_eq!(dec.info().final_frame_blocks, 500);
    assert_eq!(dec.info().blocks_per_frame, 1000);
    assert_eq!(dec.info().seek_table.len(), 4);
    assert_eq!(
        dec.decode_all_bytes().unwrap(),
        interleave_pcm_bytes(&[ch0.clone(), ch1.clone()], 16).unwrap()
    );
    let mut enc = ApeEncoder::new(cfg).unwrap();
    let mut pos = 0;
    for chunk in [1, 999, 1, 1499, 1000] {
        enc.push_samples(&[&ch0[pos..pos + chunk], &ch1[pos..pos + chunk]])
            .unwrap();
        pos += chunk;
    }
    assert_eq!(pos, 3500);
    assert_eq!(enc.frames_encoded(), 3);
    assert_eq!(enc.total_blocks(), 3500);
    assert_eq!(enc.finish().unwrap(), one_shot);
}

#[test]
fn exact_frame_multiple_has_no_short_final_frame() {
    let mut cfg = EncoderConfig::new(CompressionLevel::Fast, 1, 8000, 16);
    cfg.blocks_per_frame = 500;
    let pcm = noise(7, 1000, 100);
    let file = round_trip(cfg, &[pcm], "exact multiple");
    let dec = ApeDecoder::new(&file).unwrap();
    assert_eq!(dec.info().total_frames, 2);
    assert_eq!(dec.info().final_frame_blocks, 500);
}

#[test]
fn empty_input_writes_one_zero_block_frame() {
    let cfg = EncoderConfig::new(CompressionLevel::High, 2, 44100, 16);
    let file = encode_pcm(cfg, &[Vec::new(), Vec::new()]).unwrap();
    let dec = ApeDecoder::new(&file).unwrap();
    assert_eq!(dec.info().total_frames, 1);
    assert_eq!(dec.info().final_frame_blocks, 0);
    assert_eq!(dec.decode_all_bytes().unwrap(), Vec::<u8>::new());
}

#[test]
fn eight_and_twenty_four_bit_round_trip() {
    let pcm8 = vec![noise(8, 2000, 128), noise(9, 2000, 128)];
    round_trip(
        EncoderConfig::new(CompressionLevel::ExtraHigh, 2, 11025, 8),
        &pcm8,
        "8-bit",
    );
    let pcm24 = vec![noise(24, 2000, 8_000_000), noise(25, 2000, 8_000_000)];
    let file = round_trip(
        EncoderConfig::new(CompressionLevel::Insane, 2, 96000, 24),
        &pcm24,
        "24-bit",
    );
    assert_eq!(ApeDecoder::new(&file).unwrap().info().bits_per_sample, 24);
}

#[test]
fn interleaved_byte_push_equals_sample_push() {
    let ch0 = noise(1, 700, 30000);
    let ch1 = noise(2, 700, 30000);
    let bytes = interleave_pcm_bytes(&[ch0.clone(), ch1.clone()], 16).unwrap();
    let cfg = EncoderConfig::new(CompressionLevel::Normal, 2, 44100, 16);
    let mut a = ApeEncoder::new(cfg.clone()).unwrap();
    a.push_interleaved_bytes(&bytes).unwrap();
    let mut b = ApeEncoder::new(cfg).unwrap();
    b.push_samples(&[&ch0, &ch1]).unwrap();
    assert_eq!(a.finish().unwrap(), b.finish().unwrap());
    let mut c =
        ApeEncoder::new(EncoderConfig::new(CompressionLevel::Fast, 2, 44100, 16)).unwrap();
    assert!(matches!(
        c.push_interleaved_bytes(&bytes[..7]),
        Err(Error::InvalidInput(_))
    ));
}

#[test]
fn push_rejects_shape_and_range_violations() {
    let mut enc =
        ApeEncoder::new(EncoderConfig::new(CompressionLevel::Fast, 2, 44100, 16)).unwrap();
    assert!(matches!(
        enc.push_samples(&[&[1, 2][..]]),
        Err(Error::InvalidInput(_))
    ));
    assert!(matches!(
        enc.push_samples(&[&[1, 2][..], &[1][..]]),
        Err(Error::InvalidInput(_))
    ));
    assert!(matches!(
        enc.push_samples(&[&[32768][..], &[0][..]]),
        Err(Error::InvalidInput(_))
    ));
    assert!(enc.push_samples(&[&[32767][..], &[-32768][..]]).is_ok());
}

#[test]
fn blobs_pass_through_and_the_md5_covers_them() {
    let mut cfg = EncoderConfig::new(CompressionLevel::Fast, 1, 8000, 16);
    cfg.wav_header = Some(b"RIFFfakeheader".to_vec());
    cfg.terminating_data = b"LIST-trailer".to_vec();
    cfg.trailing_tag = b"APETAGEX-not-parsed".to_vec();
    let pcm = vec![noise(3, 300, 1000)];
    let file = encode_pcm(cfg, &pcm).unwrap();
    assert!(file.ends_with(b"APETAGEX-not-parsed"));
    let dec = ApeDecoder::new(&file).unwrap();
    let info = dec.info();
    assert_eq!(info.wav_header, b"RIFFfakeheader");
    assert_eq!(info.terminating_data_bytes, 12);
    let end = info.audio_data_end() as usize;
    assert_eq!(&file[end..end + 12], b"LIST-trailer");
    assert_eq!(
        dec.decode_all_bytes().unwrap(),
        interleave_pcm_bytes(&pcm, 16).unwrap()
    );
    let mut cfg2 = EncoderConfig::new(CompressionLevel::Fast, 1, 8000, 16);
    cfg2.wav_header = Some(b"RIFFfakeheader".to_vec());
    cfg2.terminating_data = b"LIST-trailex".to_vec();
    let file2 = encode_pcm(cfg2, &pcm).unwrap();
    assert_ne!(
        ApeDecoder::new(&file2).unwrap().info().file_md5,
        info.file_md5
    );
}

#[test]
fn wav_split_and_encode_wav_round_trip() {
    let ch0 = noise(11, 1234, 20000);
    let ch1 = noise(12, 1234, 20000);
    let pcm = interleave_pcm_bytes(&[ch0.clone(), ch1.clone()], 16).unwrap();
    let mut wav = canonical_wav_header(2, 44100, 16, pcm.len() as u32);
    wav.extend_from_slice(&pcm);
    wav.extend_from_slice(b"LIST\x04\x00\x00\x00abcd");
    let split = WavSplit::parse(&wav).unwrap();
    assert_eq!(split.channels, 2);
    assert_eq!(split.sample_rate, 44100);
    assert_eq!(split.bits_per_sample, 16);
    assert_eq!(split.header.len(), 44);
    assert_eq!(split.pcm, &pcm[..]);
    assert_eq!(split.terminating, b"LIST\x04\x00\x00\x00abcd");
    let file = encode_wav(&wav, CompressionLevel::High).unwrap();
    let dec = ApeDecoder::new(&file).unwrap();
    assert_eq!(dec.info().wav_header, &wav[..44]);
    assert_eq!(dec.info().terminating_data_bytes, 12);
    assert_eq!(dec.decode_all_bytes().unwrap(), pcm);
    let mut wav2 = b"RIFF\0\0\0\0WAVEjunk\x03\x00\x00\x00abc\0".to_vec();
    wav2.extend_from_slice(&canonical_wav_header(1, 8000, 8, 3)[12..]);
    wav2.extend_from_slice(&[128, 129, 127]);
    let split = WavSplit::parse(&wav2).unwrap();
    assert_eq!(split.pcm, &[128, 129, 127]);
    assert!(split.terminating.is_empty());
    assert!(WavSplit::parse(b"RIFX").is_err());
    assert!(WavSplit::parse(b"RIFF\0\0\0\0WAVEdata\x04\x00\x00\x00abcd").is_err());
}
