use oxideav_ape::decoder::ApeDecoder;
use oxideav_ape::encoder::{encode_frame, encode_pcm, encode_wav, ApeEncoder, EncoderConfig};
use oxideav_ape::entropy::{EntropyInit, ResidualEncoder};
use oxideav_ape::error::Error;
use oxideav_ape::file_header::FileInfo;
use oxideav_ape::frame::{decode_frame_residuals, MAX_FRAME_BLOCKS};
use oxideav_ape::header::CompressionLevel;
use oxideav_ape::nn_filter::{DeltaEra, NnFilter};
use oxideav_ape::pcm::{deinterleave_pcm_bytes, interleave_pcm_bytes, pcm_to_coded_arrays};
use oxideav_ape::predict::ArrayPredictor;
use oxideav_ape::range_coder::RangeDecoder;
use oxideav_ape::writer::canonical_wav_header;

#[test]
fn messages_name_the_fault() {
    for (e, text) in [
        (
            Error::InvalidMagic,
            "oxideav-ape: invalid 'MAC ' magic at offset 0",
        ),
        (
            Error::Truncated,
            "oxideav-ape: stream truncated inside the 8-byte header prefix",
        ),
        (
            Error::UnknownCompressionLevel(1234),
            "oxideav-ape: compression level 1234 is outside the documented {1000,2000,3000,4000,5000} set",
        ),
        (
            Error::UnknownCompressionLabel,
            "oxideav-ape: compression label is outside the documented {fast, normal, high, extra high, insane} set",
        ),
        (
            Error::ChannelLengthMismatch {
                x: 1,
                y: 20,
                left: 0,
                right: 305,
            },
            "oxideav-ape: channel-decorrelation slice lengths disagree — x=1, y=20, left=0, right=305",
        ),
        (
            Error::PredictorOrderMismatch { history: 3, par: 4 },
            "oxideav-ape: IIR-predictor history/par lengths disagree on order — history=3, par=4",
        ),
        (
            Error::CorruptStream("here"),
            "oxideav-ape: corrupt entropy stream — here",
        ),
        (
            Error::Malformed("there"),
            "oxideav-ape: malformed file structure — there",
        ),
        (
            Error::NonFinalized,
            "oxideav-ape: non-finalised file (total_frames == 0 marks a truncated encode)",
        ),
    ] {
        assert_eq!(e.message(), text);
    }
}

fn config() -> EncoderConfig {
    EncoderConfig::new(CompressionLevel::Normal, 2, 44100, 16)
}

#[test]
fn each_configuration_fault_has_its_error() {
    assert_eq!(config().validate(), Ok(()));
    let mut c = config();
    c.channels = 3;
    assert_eq!(
        c.validate(),
        Err(Error::InvalidInput("channel count outside 1..=2"))
    );
    let mut c = config();
    c.bits_per_sample = 32;
    assert!(matches!(c.validate(), Err(Error::InvalidInput(_))));
    let mut c = config();
    c.blocks_per_frame = 0;
    assert_eq!(
        c.validate(),
        Err(Error::InvalidInput("blocks per frame outside 1..=2^20"))
    );
    c.blocks_per_frame = MAX_FRAME_BLOCKS;
    assert_eq!(c.validate(), Ok(()));
    c.blocks_per_frame = MAX_FRAME_BLOCKS + 1;
    assert!(c.validate().is_err());
    let mut c = config();
    c.sample_rate = 0;
    assert_eq!(
        c.validate(),
        Err(Error::InvalidInput("sample rate must be non-zero"))
    );
}

#[test]
fn pushes_of_the_wrong_shape_are_refused_and_change_nothing() {
    let Ok(mut enc) = ApeEncoder::new(config()) else {
        panic!("the configuration is valid");
    };
    assert_eq!(
        enc.push_samples(&[&[1, 2]]),
        Err(Error::InvalidInput(
            "pushed channel count disagrees with the configuration"
        ))
    );
    assert_eq!(
        enc.push_samples(&[&[1, 2], &[3]]),
        Err(Error::InvalidInput("PCM channels disagree on length"))
    );
    assert_eq!(
        enc.push_samples(&[&[1, 32768], &[3, 4]]),
        Err(Error::InvalidInput("sample outside the bit depth's range"))
    );
    assert!(enc.push_interleaved_bytes(&[0; 3]).is_err());
    assert_eq!(enc.total_blocks(), 0);
    assert_eq!(enc.push_samples(&[&[1, 32767], &[3, -32768]]), Ok(()));
    assert_eq!(enc.total_blocks(), 2);
}

#[test]
fn frames_of_the_wrong_shape_are_refused() {
    let level = CompressionLevel::Fast;
    assert!(encode_frame(&[], level, 16).is_err());
    assert!(encode_frame(&[vec![1], vec![1, 2]], level, 16).is_err());
    assert!(encode_frame(&[vec![200]], level, 8).is_err());
    assert_eq!(
        encode_frame(&[vec![]], level, 64),
        Err(Error::Malformed(
            "bits-per-sample outside the staged {8, 16, 24} set"
        ))
    );
    assert!(pcm_to_coded_arrays(&[vec![1], vec![2], vec![3]], 3990, level).is_err());
    assert_eq!(
        decode_frame_residuals(&[0; 16], 0, 3990, 3, 1),
        Err(Error::Malformed("channel count outside the staged 1..=2"))
    );
    assert_eq!(
        decode_frame_residuals(&[0; 16], 0, 3990, 1, MAX_FRAME_BLOCKS + 1),
        Err(Error::Malformed("frame block count exceeds the sane bound"))
    );
}

#[test]
fn sample_buffers_of_the_wrong_shape_are_refused() {
    assert_eq!(
        interleave_pcm_bytes(&[vec![1], vec![]], 16),
        Err(Error::Malformed("PCM channels disagree on length"))
    );
    assert_eq!(
        interleave_pcm_bytes(&[vec![1]], 12),
        Err(Error::Malformed(
            "bits-per-sample outside the staged {8, 16, 24} set"
        ))
    );
    assert!(deinterleave_pcm_bytes(&[0; 4], 16, 0).is_err());
    assert!(deinterleave_pcm_bytes(&[0; 4], 12, 1).is_err());
    assert!(deinterleave_pcm_bytes(&[0; 5], 16, 1).is_err());
}

#[test]
fn filters_and_predictors_refuse_impossible_settings() {
    assert!(NnFilter::new(0, 10, DeltaEra::A).is_err());
    assert!(NnFilter::new(24, 10, DeltaEra::A).is_err());
    assert_eq!(
        ArrayPredictor::new(3930, CompressionLevel::Insane).err(),
        Some(Error::Malformed(
            "level 5000 requires the >= 3950 predictor form"
        ))
    );
    assert_eq!(
        ArrayPredictor::new(3920, CompressionLevel::Normal).err(),
        Some(Error::NotImplemented)
    );
}

#[test]
fn coders_refuse_what_no_stream_holds() {
    let mut dec = RangeDecoder::new(&[1, 2, 3, 4, 5, 6]);
    assert_eq!(
        dec.decode_base(0),
        Err(Error::CorruptStream("zero divisor in decode_base"))
    );
    let mut enc = ResidualEncoder::new(3900, EntropyInit { k: 0, ksum: 0 });
    assert_eq!(
        enc.encode_value(u32::MAX),
        Err(Error::CorruptStream("value too wide for the old-path escape"))
    );
}

#[test]
fn corrupted_frames_fail_their_checksum() {
    let pcm: Vec<i32> = (0..50).map(|i| i * i % 97).collect();
    let mut cfg = EncoderConfig::new(CompressionLevel::Normal, 1, 44100, 16);
    cfg.blocks_per_frame = 50;
    let mut file = encode_pcm(cfg, &[pcm]).unwrap();
    let start = FileInfo::parse(&file).unwrap().audio_data_offset;
    file[start] ^= 1;
    assert_eq!(
        ApeDecoder::new(&file).unwrap().decode_frame_bytes(0),
        Err(Error::Malformed(
            "stored frame CRC disagrees with the decoded PCM"
        ))
    );
    assert_eq!(
        ApeDecoder::new(&file).unwrap().decode_frame_bytes(1),
        Err(Error::Malformed("frame index past total_frames"))
    );
}

#[test]
fn cut_files_are_truncated() {
    let pcm: Vec<i32> = (0..500).map(|i| i * 31 % 970).collect();
    let file = encode_pcm(EncoderConfig::new(CompressionLevel::Fast, 1, 8000, 16), &[pcm]).unwrap();
    assert_eq!(FileInfo::parse(&file[..60]).err(), Some(Error::Truncated));
    let short = &file[..file.len() - 1];
    assert_eq!(
        ApeDecoder::new(short).unwrap().decode_all_bytes(),
        Err(Error::Truncated)
    );
    assert_eq!(FileInfo::parse(&file[1..]).err(), Some(Error::InvalidMagic));
    let info = FileInfo::parse(&file).unwrap();
    assert_eq!(
        ApeDecoder::from_parsed(short, info).err(),
        Some(Error::Truncated)
    );
}

#[test]
fn each_wav_fault_has_its_error() {
    let level = CompressionLevel::Normal;
    let bad = |wav: &[u8], why: &'static str| {
        assert_eq!(encode_wav(wav, level), Err(Error::InvalidInput(why)));
    };
    let wav = canonical_wav_header(1, 8000, 16, 4);
    bad(b"RI", "WAV truncated");
    bad(b"RIFX\x00\x00\x00\x00WAVE", "not a RIFF/WAVE file");
    bad(b"RIFF\x00\x00\x00\x00WAVX", "not a RIFF/WAVE file");
    bad(&wav[..14], "WAV truncated");
    bad(&wav[..30], "WAV truncated");
    bad(&wav[..36], "WAV has no data chunk");
    let mut early = wav[..12].to_vec();
    early.extend_from_slice(b"data\x00\x00\x00\x00");
    bad(&early, "data chunk precedes fmt chunk");
    let mut short = wav.clone();
    short[16] = 15;
    bad(&short, "fmt chunk shorter than 16 bytes");
    let mut float = wav.clone();
    float[20] = 3;
    bad(&float, "WAV is not integer PCM");
    let mut none = wav.clone();
    none[22] = 0;
    bad(&none, "fmt chunk has zero block align");
}
