use oxideav_ape::error::Error;
use oxideav_ape::frame::{FrameFlags, FramePrologue, MAX_FRAME_BLOCKS, crc32, decode_frame_residuals};
use oxideav_ape::range_coder::BitInput;

#[test]
fn crc32_matches_the_standard_vectors() {
    assert_eq!(crc32(b"123456789"), 0xCBF4_3926);
    assert_eq!(crc32(b""), 0);
}

#[test]
fn prologue_without_flag_bit_is_four_bytes() {
    let raw = [0x4D, 0x2B, 0x04, 0x71, 0xAA, 0xBB, 0xCC, 0xDD];
    let mut input = BitInput::new_le_words(&raw, 0);
    let p = FramePrologue::read(&mut input);
    assert_eq!(p.crc31, 0x7104_2B4D);
    assert_eq!(p.flags, None);
    assert_eq!(p.len, 4);
    assert_eq!(input.bit_pos(), 32);
}

#[test]
fn prologue_with_flag_bit_reads_the_flags_word() {
    let raw = [0xBB, 0x36, 0x37, 0xAC, 0x07, 0x00, 0x00, 0x00];
    let mut input = BitInput::new_le_words(&raw, 0);
    let p = FramePrologue::read(&mut input);
    assert_eq!(p.crc31, 0x2C37_36BB);
    assert_eq!(p.flags, Some(FrameFlags(7)));
    assert_eq!(p.len, 8);
    assert_eq!(input.bit_pos(), 64);
}

#[test]
fn prologue_reads_through_the_word_grid_when_unaligned() {
    let raw = [0xB0, 0xB1, 0x12, 0xB3, 0xB4, 0xB5, 0xB6, 0xB7];
    let mut input = BitInput::new_le_words(&raw, 8);
    let p = FramePrologue::read(&mut input);
    assert_eq!(p.crc31, 0x12B1_B0B7);
    assert_eq!(p.flags, None);
    assert_eq!(p.len, 4);
}

#[test]
fn all_silent_shapes() {
    assert!(FrameFlags(1).all_silent(1));
    assert!(!FrameFlags(0).all_silent(1));
    assert!(FrameFlags(3).all_silent(2));
    assert!(FrameFlags(7).all_silent(2));
    assert!(!FrameFlags(1).all_silent(2));
    assert!(!FrameFlags(2).all_silent(2));
    assert!(!FrameFlags(4).all_silent(2));
}

#[test]
fn silent_frame_decodes_to_zero_arrays_without_entropy() {
    let audio = [0xBB, 0x36, 0x37, 0xAC, 0x07, 0x00, 0x00, 0x00];
    let out = decode_frame_residuals(&audio, 0, 3990, 2, 64).unwrap();
    assert!(out.silent);
    assert_eq!(out.end_bit_pos, 64);
    assert_eq!(out.arrays.len(), 2);
    assert!(out
        .arrays
        .iter()
        .all(|a| a.len() == 64 && a.iter().all(|&v| v == 0)));
}

#[test]
fn crc_verify_accepts_matching_pcm() {
    let pcm = vec![0u8; 256];
    let p = FramePrologue {
        crc31: crc32(&pcm) >> 1,
        flags: Some(FrameFlags(3)),
        len: 8,
    };
    assert!(p.matches_pcm_crc(&pcm));
    assert!(!p.matches_pcm_crc(&[1, 2, 3]));
}

#[test]
fn rejects_unstaged_channel_counts_and_truncation() {
    let audio = [0u8; 16];
    assert!(matches!(
        decode_frame_residuals(&audio, 0, 3990, 0, 4),
        Err(Error::Malformed(_))
    ));
    assert!(matches!(
        decode_frame_residuals(&audio, 0, 3990, 3, 4),
        Err(Error::Malformed(_))
    ));
    assert_eq!(
        decode_frame_residuals(&audio, 14, 3990, 1, 4).unwrap_err(),
        Error::Truncated
    );
}

#[test]
fn oversized_block_counts_are_rejected_before_allocation() {
    let audio = [0u8; 16];
    assert!(matches!(
        decode_frame_residuals(&audio, 0, 3990, 1, MAX_FRAME_BLOCKS + 1),
        Err(Error::Malformed(_))
    ));
    assert!(matches!(
        decode_frame_residuals(&audio, 0, 3990, 2, u32::MAX),
        Err(Error::Malformed(_))
    ));
    const { assert!(294912 < MAX_FRAME_BLOCKS) };
}
