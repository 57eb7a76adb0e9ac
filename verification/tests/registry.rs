use oxideav_ape::decoder::ApeDecoder;
use oxideav_ape::encoder::{encode_pcm, EncoderConfig, DEFAULT_BLOCKS_PER_FRAME};
use oxideav_ape::error::Error;
use oxideav_ape::file_header::FileInfo;
use oxideav_ape::header::CompressionLevel;
use oxideav_ape::is_ape_magic;
use oxideav_ape::pcm::interleave_pcm_bytes;
use oxideav_ape::registry::{
    bits_for_sample_format, parse_level, sample_format_for, ApeEncoderOptions, FrameworkDecoder,
    FrameworkEncoder, SampleFormat, StreamError, CODEC_ID,
};

fn options(level: CompressionLevel, blocks_per_frame: u32) -> ApeEncoderOptions {
    ApeEncoderOptions {
        compression_level: level,
        blocks_per_frame,
    }
}

fn s16_encoder(rate: u32, channels: u16, opts: ApeEncoderOptions) -> FrameworkEncoder {
    match FrameworkEncoder::from_params(
        Some(rate),
        Some(channels),
        Some(SampleFormat::S16),
        opts,
    ) {
        Ok(enc) => enc,
        Err(e) => panic!("{e:?}"),
    }
}

fn noise_stereo() -> Vec<u8> {
    let cfg = EncoderConfig::new(CompressionLevel::Normal, 2, 44100, 16);
    let mut s: u32 = 1;
    let mut next = || {
        s = s.wrapping_mul(1664525).wrapping_add(1013904223);
        ((s >> 16) % 6000) as i32 - 3000
    };
    let left: Vec<i32> = (0..6000).map(|_| next()).collect();
    let right: Vec<i32> = (0..6000).map(|_| next()).collect();
    encode_pcm(cfg, &[left, right]).unwrap()
}

fn two_frame_mono() -> Vec<u8> {
    let cfg = EncoderConfig::new(CompressionLevel::Normal, 1, 8000, 16);
    let mut pcm = vec![0i32; 73728 + 5000];
    pcm[73728 + 100] = 1234;
    encode_pcm(cfg, &[pcm]).unwrap()
}

#[test]
fn whole_file_in_one_piece_gives_one_frame_and_the_end() {
    let file = noise_stereo();
    let mut dec = FrameworkDecoder::default();
    dec.send_packet(&file);
    dec.flush();
    let frame = dec.receive_frame().unwrap();
    assert_eq!(frame.samples, 6000);
    assert_eq!(frame.pts, Some(0));
    assert_eq!(frame.data.len(), 6000 * 2 * 2);
    assert_eq!(dec.receive_frame(), Err(StreamError::Eof));
}

#[test]
fn multi_frame_file_streams_frames_with_running_pts() {
    let file = two_frame_mono();
    let mut dec = FrameworkDecoder::new();
    let mid = file.len() / 2;
    dec.send_packet(&file[..mid]);
    assert!(matches!(dec.receive_frame(), Err(StreamError::NeedMore)));
    dec.send_packet(&file[mid..]);
    let f0 = dec.receive_frame().unwrap();
    assert_eq!(f0.samples, 73728);
    assert_eq!(f0.pts, Some(0));
    let f1 = dec.receive_frame().unwrap();
    assert_eq!(f1.samples, 5000);
    assert_eq!(f1.pts, Some(73728));
    assert_eq!(&f1.data[200..202], &1234i16.to_le_bytes());
    assert!(matches!(dec.receive_frame(), Err(StreamError::Eof)));
    dec.reset();
    assert!(matches!(dec.receive_frame(), Err(StreamError::NeedMore)));
}

#[test]
fn flushed_truncation_errors_instead_of_stalling() {
    let file = noise_stereo();
    let mut dec = FrameworkDecoder::new();
    dec.send_packet(&file[..file.len() / 2]);
    dec.flush();
    assert_eq!(
        dec.receive_frame(),
        Err(StreamError::Codec(Error::Truncated))
    );
    let mut dec = FrameworkDecoder::new();
    dec.send_packet(&[0u8; 64]);
    assert!(matches!(dec.receive_frame(), Err(StreamError::NeedMore)));
    dec.flush();
    assert_eq!(
        dec.receive_frame(),
        Err(StreamError::Codec(Error::InvalidMagic))
    );
}

#[test]
fn header_errors_surface_before_the_flush() {
    let mut file = two_frame_mono();
    file[52] = 1;
    file[53] = 0;
    let mut dec = FrameworkDecoder::new();
    dec.send_packet(&file);
    assert_eq!(
        dec.receive_frame(),
        Err(StreamError::Codec(Error::UnknownCompressionLevel(1)))
    );
}

#[test]
fn encoder_hands_out_a_complete_file_once() {
    let mut enc = s16_encoder(
        44100,
        2,
        options(parse_level("high").unwrap(), DEFAULT_BLOCKS_PER_FRAME),
    );
    let pcm: Vec<i32> = (0..600).map(|i| (i * 37) % 20000 - 10000).collect();
    let bytes = interleave_pcm_bytes(
        &[
            pcm.iter().step_by(2).copied().collect(),
            pcm.iter().skip(1).step_by(2).copied().collect(),
        ],
        16,
    )
    .unwrap();
    enc.send_frame(&[bytes.clone()], 300).unwrap();
    assert!(matches!(enc.receive_packet(), Err(StreamError::NeedMore)));
    enc.flush().unwrap();
    let pkt = enc.receive_packet().unwrap();
    assert_eq!(pkt.duration, Some(300));
    assert_eq!(pkt.sample_rate, 44100);
    assert!(matches!(enc.receive_packet(), Err(StreamError::Eof)));
    assert_eq!(
        enc.send_frame(&[bytes.clone()], 300),
        Err(StreamError::Invalid("ape encoder already flushed"))
    );
    assert_eq!(enc.flush(), Ok(()));
    let dec = ApeDecoder::new(&pkt.data).unwrap();
    assert_eq!(dec.info().compression_level, CompressionLevel::High);
    assert_eq!(dec.decode_all_bytes().unwrap(), bytes);
    assert!(is_ape_magic(&pkt.data));
    assert_eq!(CODEC_ID, "ape");
}

#[test]
fn encoder_decoder_loop_through_the_registry() {
    let mut enc = s16_encoder(8000, 1, options(parse_level("3000").unwrap(), 256));
    let samples: Vec<i32> = (0..1000).map(|i| ((i * i) % 4001) - 2000).collect();
    let bytes = interleave_pcm_bytes(core::slice::from_ref(&samples), 16).unwrap();
    for chunk in bytes.chunks(154) {
        enc.send_frame(&[chunk.to_vec()], (chunk.len() / 2) as u32).unwrap();
    }
    enc.flush().unwrap();
    let pkt = enc.receive_packet().unwrap();
    let parsed = FileInfo::parse(&pkt.data).unwrap();
    assert_eq!(parsed.blocks_per_frame, 256);
    assert_eq!(parsed.total_frames, 4);

    let mut dec = FrameworkDecoder::new();
    dec.send_packet(&pkt.data);
    dec.flush();
    let mut out = Vec::new();
    loop {
        match dec.receive_frame() {
            Ok(frame) => out.extend(frame.data),
            Err(StreamError::Eof) => break,
            Err(e) => panic!("{e:?}"),
        }
    }
    assert_eq!(out, bytes);
}

#[test]
fn encoder_options_parse_labels_and_codes() {
    for (raw, level) in [
        ("fast", CompressionLevel::Fast),
        ("normal", CompressionLevel::Normal),
        ("extra high", CompressionLevel::ExtraHigh),
        ("extra_high", CompressionLevel::ExtraHigh),
        ("insane", CompressionLevel::Insane),
        ("1000", CompressionLevel::Fast),
        ("5000", CompressionLevel::Insane),
    ] {
        assert_eq!(parse_level(raw).unwrap(), level, "{raw}");
    }
    assert!(parse_level("ultra").is_err());
    assert!(parse_level("1500").is_err());
    assert!(parse_level("bogus").is_err());
}

#[test]
fn option_values_report_which_form_failed() {
    assert_eq!(parse_level("1500"), Err(Error::UnknownCompressionLevel(1500)));
    assert_eq!(parse_level("65536"), Err(Error::UnknownCompressionLabel));
    assert_eq!(parse_level(""), Err(Error::UnknownCompressionLabel));
    assert_eq!(parse_level("hígh"), Err(Error::UnknownCompressionLabel));
    assert_eq!(parse_level(" +3000\u{3000}"), Ok(CompressionLevel::High));
    assert_eq!(parse_level("_Extra_HIGH_"), Ok(CompressionLevel::ExtraHigh));
    assert_eq!(parse_level("+"), Err(Error::UnknownCompressionLabel));
    assert_eq!(parse_level("0000000000002000"), Ok(CompressionLevel::Normal));
}

#[test]
fn default_options_are_the_normal_level_and_frame_size() {
    assert_eq!(
        ApeEncoderOptions::default(),
        options(CompressionLevel::Normal, 73728)
    );
}

#[test]
fn encoder_rejects_unsupported_shapes() {
    let opts = ApeEncoderOptions::default();
    assert!(matches!(
        FrameworkEncoder::from_params(None, None, None, opts.clone()),
        Err(StreamError::Invalid("ape encoder needs sample_rate"))
    ));
    assert!(matches!(
        FrameworkEncoder::from_params(Some(44100), None, None, opts.clone()),
        Err(StreamError::Invalid("ape encoder needs channels"))
    ));
    assert!(matches!(
        FrameworkEncoder::from_params(
            Some(44100),
            Some(2),
            Some(SampleFormat::Other),
            opts.clone()
        ),
        Err(StreamError::UnsupportedFormat)
    ));
    assert!(matches!(
        FrameworkEncoder::from_params(Some(44100), Some(3), None, opts.clone()),
        Err(StreamError::Codec(Error::InvalidInput(_)))
    ));
    let mut enc = s16_encoder(44100, 1, opts);
    assert!(enc.send_frame(&[vec![0, 0], vec![0, 0]], 1).is_err());
    assert!(enc.send_frame(&[vec![0u8; 3]], 1).is_err());
    assert_eq!(enc.samples_in, 0);
    assert!(enc.send_frame(&[vec![0u8; 2]], 1).is_ok());
    assert_eq!(enc.samples_in, 1);
}

#[test]
fn sample_format_dispatch_covers_the_staged_depths() {
    assert_eq!(sample_format_for(8), Some(SampleFormat::U8));
    assert_eq!(sample_format_for(16), Some(SampleFormat::S16));
    assert_eq!(sample_format_for(24), Some(SampleFormat::S24));
    assert_eq!(sample_format_for(32), None);
    for (f, bits) in [
        (SampleFormat::U8, 8u16),
        (SampleFormat::S16, 16),
        (SampleFormat::S24, 24),
    ] {
        assert_eq!(bits_for_sample_format(f), Some(bits));
        assert_eq!(sample_format_for(bits), Some(f));
    }
    assert_eq!(bits_for_sample_format(SampleFormat::Other), None);
}
