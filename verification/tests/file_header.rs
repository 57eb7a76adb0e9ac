use oxideav_ape::header::CompressionLevel as L;
use oxideav_ape::error::Error;
use oxideav_ape::file_header::{DESCRIPTOR_LEN, FileInfo, FormatFlags, NEW_HEADER_LEN, OLD_HEADER_LEN, SEEK_BIT_TABLE_MAX_VERSION, SYNTHESISED_WAV_HEADER_LEN, old_blocks_per_frame};
use oxideav_ape::header::{CompressionLevel, MAGIC};

fn le16(v: u16) -> [u8; 2] {
    v.to_le_bytes()
}
fn le32(v: u32) -> [u8; 4] {
    v.to_le_bytes()
}

#[allow(clippy::too_many_arguments)]
fn build_new_era(
    version: u16,
    level: u16,
    flags: u16,
    blocks_per_frame: u32,
    final_frame_blocks: u32,
    seek_entries: &[u32],
    wav_blob: &[u8],
    payload: &[u8],
    descriptor_surplus: usize,
    header_surplus: usize,
) -> Vec<u8> {
    let total_frames = seek_entries.len() as u32;
    let mut f = Vec::new();
    f.extend_from_slice(&MAGIC);
    f.extend_from_slice(&le16(version));
    f.extend_from_slice(&le16(0));
    f.extend_from_slice(&le32((DESCRIPTOR_LEN + descriptor_surplus) as u32));
    f.extend_from_slice(&le32((NEW_HEADER_LEN + header_surplus) as u32));
    f.extend_from_slice(&le32(seek_entries.len() as u32 * 4));
    f.extend_from_slice(&le32(wav_blob.len() as u32));
    f.extend_from_slice(&le32(payload.len() as u32));
    f.extend_from_slice(&le32(0));
    f.extend_from_slice(&le32(7));
    f.extend_from_slice(&[0xA5; 16]);
    f.extend(std::iter::repeat_n(0xEE, descriptor_surplus));
    f.extend_from_slice(&le16(level));
    f.extend_from_slice(&le16(flags));
    f.extend_from_slice(&le32(blocks_per_frame));
    f.extend_from_slice(&le32(final_frame_blocks));
    f.extend_from_slice(&le32(total_frames));
    f.extend_from_slice(&le16(16));
    f.extend_from_slice(&le16(2));
    f.extend_from_slice(&le32(44100));
    f.extend(std::iter::repeat_n(0xDD, header_surplus));
    for &s in seek_entries {
        f.extend_from_slice(&le32(s));
    }
    f.extend_from_slice(wav_blob);
    f.extend_from_slice(payload);
    f.extend_from_slice(&[0xCC; 7]);
    f
}

#[allow(clippy::too_many_arguments)]
fn build_old_era(
    version: u16,
    level: u16,
    flags: u16,
    total_frames: u32,
    final_frame_blocks: u32,
    wav_blob: &[u8],
    seek_entries: &[u32],
    payload: &[u8],
) -> Vec<u8> {
    let mut f = Vec::new();
    f.extend_from_slice(&MAGIC);
    f.extend_from_slice(&le16(version));
    f.extend_from_slice(&le16(level));
    f.extend_from_slice(&le16(flags));
    f.extend_from_slice(&le16(2));
    f.extend_from_slice(&le32(44100));
    f.extend_from_slice(&le32(wav_blob.len() as u32));
    f.extend_from_slice(&le32(5));
    f.extend_from_slice(&le32(total_frames));
    f.extend_from_slice(&le32(final_frame_blocks));
    if flags & FormatFlags::HAS_PEAK_LEVEL != 0 {
        f.extend_from_slice(&le32(31000));
    }
    if flags & FormatFlags::HAS_SEEK_ELEMENTS != 0 {
        f.extend_from_slice(&le32(seek_entries.len() as u32));
    }
    if flags & FormatFlags::CREATE_WAV_HEADER == 0 {
        f.extend_from_slice(wav_blob);
    }
    for &s in seek_entries {
        f.extend_from_slice(&le32(s));
    }
    if version <= SEEK_BIT_TABLE_MAX_VERSION {
        f.extend(std::iter::repeat_n(3u8, seek_entries.len()));
    }
    f.extend_from_slice(payload);
    f.extend_from_slice(&[0xBB; 5]);
    f
}

#[test]
fn new_era_layout_round_trips_every_field() {
    let audio_start = (DESCRIPTOR_LEN + NEW_HEADER_LEN + 8 + 5) as u32;
    let payload = [0x11u8; 40];
    let file = build_new_era(
        3990,
        2000,
        0,
        0x48000,
        123,
        &[audio_start, audio_start + 25],
        b"RIFFx",
        &payload,
        0,
        0,
    );
    let info = FileInfo::parse(&file).unwrap();
    assert_eq!(info.junk_bytes, 0);
    assert_eq!(info.version, 3990);
    assert_eq!(info.compression_level, CompressionLevel::Normal);
    assert_eq!(info.format_flags, FormatFlags(0));
    assert_eq!(info.channels, 2);
    assert_eq!(info.sample_rate, 44100);
    assert_eq!(info.bits_per_sample, 16);
    assert_eq!(info.blocks_per_frame, 0x48000);
    assert_eq!(info.final_frame_blocks, 123);
    assert_eq!(info.total_frames, 2);
    assert_eq!(info.seek_table, vec![audio_start, audio_start + 25]);
    assert_eq!(info.wav_header, b"RIFFx");
    assert_eq!(info.audio_data_offset, audio_start as usize);
    assert_eq!(info.audio_data_len, payload.len() as u64);
    assert_eq!(info.terminating_data_bytes, 7);
    assert_eq!(info.file_md5, Some([0xA5; 16]));
    let desc = info.descriptor.unwrap();
    assert_eq!(desc.frame_data_len(), payload.len() as u64);
    assert_eq!(info.bytes_per_sample(), 2);
    assert_eq!(info.block_align(), 4);
    assert_eq!(info.total_blocks(), 0x48000 + 123);
    assert_eq!(info.wav_header_bytes(), 5);
    assert_eq!(
        info.frame_byte_range(0).unwrap(),
        (u64::from(audio_start), u64::from(audio_start) + 25)
    );
    assert_eq!(
        info.frame_byte_range(1).unwrap(),
        (u64::from(audio_start) + 25, info.audio_data_end())
    );
    assert_eq!(info.frame_blocks(0).unwrap(), 0x48000);
    assert_eq!(info.frame_blocks(1).unwrap(), 123);
}

#[test]
fn new_era_skips_descriptor_and_header_surplus() {
    let audio_start = (DESCRIPTOR_LEN + 12 + NEW_HEADER_LEN + 6 + 4) as u32;
    let file = build_new_era(
        3995,
        1000,
        0,
        0x48000,
        9,
        &[audio_start],
        b"",
        &[0x22; 16],
        12,
        6,
    );
    let info = FileInfo::parse(&file).unwrap();
    assert_eq!(info.compression_level, CompressionLevel::Fast);
    assert_eq!(info.audio_data_offset, audio_start as usize);
    assert_eq!(info.total_frames, 1);
}

#[test]
fn new_era_rejects_undersized_descriptor_and_header() {
    let mut file = build_new_era(3990, 2000, 0, 1, 1, &[100], b"", &[0; 4], 0, 0);
    file[8..12].copy_from_slice(&le32(51));
    assert_eq!(
        FileInfo::parse(&file).unwrap_err(),
        Error::Malformed("descriptor shorter than 52 bytes")
    );
    let mut file2 = build_new_era(3990, 2000, 0, 1, 1, &[100], b"", &[0; 4], 0, 0);
    file2[12..16].copy_from_slice(&le32(23));
    assert_eq!(
        FileInfo::parse(&file2).unwrap_err(),
        Error::Malformed("header block shorter than 24 bytes")
    );
}

#[test]
fn new_era_rejects_zero_total_frames_as_non_finalized() {
    let file = build_new_era(3990, 2000, 0, 1, 1, &[], b"", &[], 0, 0);
    assert_eq!(FileInfo::parse(&file).unwrap_err(), Error::NonFinalized);
}

#[test]
fn junk_prefix_is_skipped_and_recorded() {
    let audio_start = (DESCRIPTOR_LEN + NEW_HEADER_LEN + 4) as u32;
    let inner = build_new_era(
        3990,
        3000,
        0,
        64,
        64,
        &[audio_start + 10],
        b"",
        &[0; 8],
        0,
        0,
    );
    let mut file = b"ID3\x04\x00junkjunk".to_vec();
    let junk = file.len();
    file.extend_from_slice(&inner);
    let info = FileInfo::parse(&file).unwrap();
    assert_eq!(info.junk_bytes, junk);
    assert_eq!(info.compression_level, CompressionLevel::High);
    assert_eq!(info.audio_data_offset, junk + audio_start as usize);
}

#[test]
fn old_era_flat_header_and_tail_order() {
    let flags = FormatFlags::HAS_PEAK_LEVEL | FormatFlags::HAS_SEEK_ELEMENTS;
    let payload = [0x33u8; 30];
    let file = build_old_era(3920, 2000, flags, 2, 77, b"RIFFRIFF", &[100, 115], &payload);
    let info = FileInfo::parse(&file).unwrap();
    assert_eq!(info.version, 3920);
    assert_eq!(info.compression_level, CompressionLevel::Normal);
    assert_eq!(info.peak_level, Some(31000));
    assert_eq!(info.seek_table, vec![100, 115]);
    assert_eq!(info.seek_bit_table, None, "3920 > 3800: no bit table");
    assert_eq!(info.wav_header, b"RIFFRIFF");
    assert_eq!(info.bits_per_sample, 16);
    assert_eq!(info.blocks_per_frame, 73728, "3920 -> 73728");
    assert_eq!(info.total_frames, 2);
    assert_eq!(info.final_frame_blocks, 77);
    assert_eq!(info.terminating_data_bytes, 5);
    assert_eq!(info.file_md5, None);
    assert_eq!(info.descriptor, None);
    assert_eq!(info.audio_data_len, payload.len() as u64);
    assert_eq!(
        info.audio_data_offset,
        OLD_HEADER_LEN + 4 + 4 + 8 + 8
    );
}

#[test]
fn old_era_seek_bit_table_present_at_or_below_3800() {
    let file = build_old_era(3800, 1000, 0, 3, 9, b"", &[50, 60, 70], &[0; 25]);
    let info = FileInfo::parse(&file).unwrap();
    assert_eq!(info.seek_bit_table, Some(vec![3, 3, 3]));
    assert_eq!(info.blocks_per_frame, 9216, "3800 fast stays 9216");
    assert_eq!(info.seek_table.len(), 3);
}

#[test]
fn old_era_create_wav_header_stores_no_blob() {
    let file = build_old_era(
        3970,
        5000,
        FormatFlags::CREATE_WAV_HEADER,
        1,
        5,
        b"IGNORED!",
        &[44],
        &[0; 10],
    );
    let info = FileInfo::parse(&file).unwrap();
    assert!(info.wav_header.is_empty());
    assert_eq!(info.wav_header_bytes(), SYNTHESISED_WAV_HEADER_LEN);
    assert_eq!(info.blocks_per_frame, 73728 * 4, "3970 -> 294912");
}

#[test]
fn old_era_bits_per_sample_follow_the_flags() {
    for (flags, bits) in [
        (0u16, 16u16),
        (FormatFlags::EIGHT_BIT, 8),
        (FormatFlags::TWENTY_FOUR_BIT, 24),
        (FormatFlags::EIGHT_BIT | FormatFlags::TWENTY_FOUR_BIT, 8),
    ] {
        let file = build_old_era(3920, 2000, flags, 1, 1, b"", &[40], &[0; 6]);
        let info = FileInfo::parse(&file).unwrap();
        assert_eq!(info.bits_per_sample, bits, "flags {flags:#x}");
    }
}

#[test]
fn old_blocks_per_frame_matches_the_staged_ladder() {
    assert_eq!(old_blocks_per_frame(3790, L::Normal), 9216);
    assert_eq!(old_blocks_per_frame(3800, L::Normal), 9216);
    assert_eq!(old_blocks_per_frame(3800, L::ExtraHigh), 73728);
    assert_eq!(old_blocks_per_frame(3890, L::ExtraHigh), 73728);
    assert_eq!(old_blocks_per_frame(3890, L::Insane), 9216);
    assert_eq!(old_blocks_per_frame(3900, L::Fast), 73728);
    assert_eq!(old_blocks_per_frame(3949, L::Normal), 73728);
    assert_eq!(old_blocks_per_frame(3950, L::Normal), 294912);
    assert_eq!(old_blocks_per_frame(3979, L::Insane), 294912);
}

#[test]
fn truncated_buffers_error_cleanly_at_every_length() {
    let audio_start = (DESCRIPTOR_LEN + NEW_HEADER_LEN + 4 + 3) as u32;
    let full = build_new_era(3990, 4000, 0, 64, 4, &[audio_start], b"abc", &[0; 12], 0, 0);
    for len in 0..full.len() {
        match FileInfo::parse(&full[..len]) {
            Ok(info) => {
                assert!(len >= audio_start as usize);
                assert_eq!(info.total_frames, 1);
            }
            Err(
                Error::Truncated
                | Error::InvalidMagic
                | Error::Malformed(_)
                | Error::NonFinalized,
            ) => {}
            Err(other) => panic!("unexpected error {other:?} at length {len}"),
        }
    }
    let full_old = build_old_era(3820, 2000, 0, 2, 2, b"hdr", &[50, 55], &[0; 9]);
    for len in 0..full_old.len() {
        match FileInfo::parse(&full_old[..len]) {
            Ok(_) => {}
            Err(
                Error::Truncated
                | Error::InvalidMagic
                | Error::Malformed(_)
                | Error::NonFinalized,
            ) => {}
            Err(other) => panic!("unexpected error {other:?} at length {len}"),
        }
    }
}

#[test]
fn frame_range_guards_reject_bad_seek_geometry() {
    let audio_start = (DESCRIPTOR_LEN + NEW_HEADER_LEN + 8) as u32;
    let file = build_new_era(3990, 2000, 0, 64, 4, &[4, audio_start], b"", &[0; 10], 0, 0);
    let info = FileInfo::parse(&file).unwrap();
    assert!(matches!(info.frame_byte_range(0), Err(Error::Malformed(_))));
    assert!(matches!(info.frame_byte_range(9), Err(Error::Malformed(_))));
    assert!(matches!(info.frame_blocks(9), Err(Error::Malformed(_))));
}

#[test]
fn missing_magic_is_invalid_magic() {
    assert_eq!(
        FileInfo::parse(b"no monkeys here").unwrap_err(),
        Error::InvalidMagic
    );
    assert_eq!(FileInfo::parse(b"").unwrap_err(), Error::InvalidMagic);
}

#[test]
fn format_flags_query_matches_the_staged_bit_table() {
    let all = FormatFlags(0b111111);
    for bit in [
        FormatFlags::EIGHT_BIT,
        FormatFlags::CRC,
        FormatFlags::HAS_PEAK_LEVEL,
        FormatFlags::TWENTY_FOUR_BIT,
        FormatFlags::HAS_SEEK_ELEMENTS,
        FormatFlags::CREATE_WAV_HEADER,
    ] {
        assert!(all.has(bit));
        assert!(!FormatFlags(0).has(bit));
    }
    assert_eq!(FormatFlags::EIGHT_BIT, 1);
    assert_eq!(FormatFlags::CRC, 2);
    assert_eq!(FormatFlags::HAS_PEAK_LEVEL, 4);
    assert_eq!(FormatFlags::TWENTY_FOUR_BIT, 8);
    assert_eq!(FormatFlags::HAS_SEEK_ELEMENTS, 16);
    assert_eq!(FormatFlags::CREATE_WAV_HEADER, 32);
}
