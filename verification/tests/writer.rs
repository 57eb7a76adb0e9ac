use oxideav_ape::encoder::{encode_pcm, EncoderConfig};
use oxideav_ape::file_header::FileInfo;
use oxideav_ape::header::CompressionLevel;
use oxideav_ape::md5::Md5;
use oxideav_ape::writer::{canonical_wav_header, to_le_word_layout, FileLayout};

fn layout_from(data: &[u8]) -> FileLayout {
    let info = FileInfo::parse(data).unwrap();
    let start = info.audio_data_offset;
    let end = info.audio_data_end() as usize;
    FileLayout {
        descriptor_padding: [data[6], data[7]],
        compression_level: info.compression_level,
        format_flags: info.format_flags.0,
        blocks_per_frame: info.blocks_per_frame,
        final_frame_blocks: info.final_frame_blocks,
        total_frames: info.total_frames,
        bits_per_sample: info.bits_per_sample,
        channels: info.channels,
        sample_rate: info.sample_rate,
        seek_table: info.seek_table.clone(),
        wav_header: info.wav_header.clone(),
        frame_data: data[start..end].to_vec(),
        terminating_data: data[end..].to_vec(),
    }
}

#[test]
fn writer_reproduces_encoded_files_byte_for_byte() {
    for (channels, bits) in [(1u16, 8u16), (2, 16), (2, 24), (1, 16)] {
        let mut cfg = EncoderConfig::new(CompressionLevel::Normal, channels, 44100, bits);
        cfg.blocks_per_frame = 50;
        cfg.terminating_data = vec![9, 8, 7];
        let pcm: Vec<Vec<i32>> = (0..i32::from(channels))
            .map(|c| (0..120).map(|i| (i * 7 + c * 3) % 100 - 50).collect())
            .collect();
        let data = encode_pcm(cfg, &pcm).unwrap();
        let info = FileInfo::parse(&data).unwrap();
        let layout = layout_from(&data);
        assert_eq!(layout.audio_data_offset(), info.audio_data_offset);
        assert_eq!(layout.file_md5(), info.file_md5.unwrap());
        assert_eq!(layout.serialize(), data);
        assert_eq!(layout.terminating_data, vec![9, 8, 7]);
    }
}

#[test]
fn word_layout_pads_and_reverses_per_word() {
    assert_eq!(
        to_le_word_layout(vec![1, 2, 3, 4, 5]),
        vec![4, 3, 2, 1, 0, 0, 0, 5]
    );
    assert_eq!(to_le_word_layout(Vec::new()), Vec::<u8>::new());
}

#[test]
fn canonical_wav_header_matches_the_vendor_stored_blob() {
    let mut expected: Vec<u8> = Vec::new();
    expected.extend_from_slice(b"RIFF");
    expected.extend_from_slice(&24036u32.to_le_bytes());
    expected.extend_from_slice(b"WAVEfmt ");
    expected.extend_from_slice(&16u32.to_le_bytes());
    expected.extend_from_slice(&1u16.to_le_bytes());
    expected.extend_from_slice(&2u16.to_le_bytes());
    expected.extend_from_slice(&44100u32.to_le_bytes());
    expected.extend_from_slice(&176400u32.to_le_bytes());
    expected.extend_from_slice(&4u16.to_le_bytes());
    expected.extend_from_slice(&16u16.to_le_bytes());
    expected.extend_from_slice(b"data");
    expected.extend_from_slice(&24000u32.to_le_bytes());
    assert_eq!(expected.len(), 44);
    assert_eq!(canonical_wav_header(2, 44100, 16, 24000), expected);
}

#[test]
fn layout_parts_hold_the_documented_bytes() {
    let layout = FileLayout {
        descriptor_padding: [0xAA, 0xBB],
        compression_level: CompressionLevel::High,
        format_flags: 0x20,
        blocks_per_frame: 73728,
        final_frame_blocks: 5,
        total_frames: 2,
        bits_per_sample: 16,
        channels: 1,
        sample_rate: 8000,
        seek_table: vec![100, 0x01020304],
        wav_header: vec![1, 2, 3],
        frame_data: vec![4, 5, 6, 7],
        terminating_data: vec![8, 9],
    };
    let mut header: Vec<u8> = Vec::new();
    header.extend_from_slice(&3000u16.to_le_bytes());
    header.extend_from_slice(&0x20u16.to_le_bytes());
    header.extend_from_slice(&73728u32.to_le_bytes());
    header.extend_from_slice(&5u32.to_le_bytes());
    header.extend_from_slice(&2u32.to_le_bytes());
    header.extend_from_slice(&16u16.to_le_bytes());
    header.extend_from_slice(&1u16.to_le_bytes());
    header.extend_from_slice(&8000u32.to_le_bytes());
    assert_eq!(layout.header_block().to_vec(), header);
    assert_eq!(layout.seek_table_bytes(), vec![100, 0, 0, 0, 4, 3, 2, 1]);
    assert_eq!(layout.audio_data_offset(), 76 + 8 + 3);

    let mut digested: Vec<u8> = vec![1, 2, 3, 4, 5, 6, 7, 8, 9];
    digested.extend_from_slice(&header);
    digested.extend_from_slice(&[100, 0, 0, 0, 4, 3, 2, 1]);
    assert_eq!(layout.file_md5(), Md5::digest(&digested));

    let mut descriptor: Vec<u8> = b"MAC ".to_vec();
    descriptor.extend_from_slice(&3990u16.to_le_bytes());
    descriptor.extend_from_slice(&[0xAA, 0xBB]);
    for word in [52u32, 24, 8, 3, 4, 0, 2] {
        descriptor.extend_from_slice(&word.to_le_bytes());
    }
    descriptor.extend_from_slice(&layout.file_md5());
    assert_eq!(layout.descriptor_block().to_vec(), descriptor);

    let file = layout.serialize();
    assert_eq!(&file[..52], &descriptor[..]);
    assert_eq!(&file[52..76], &header[..]);
    assert_eq!(&file[84..], &[1, 2, 3, 4, 5, 6, 7, 8, 9]);
}
