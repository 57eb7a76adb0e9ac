use oxideav_ape::error::Error;
use oxideav_ape::frame::{FrameFlags, FramePrologue, FrameResiduals};
use oxideav_ape::header::CompressionLevel;
use oxideav_ape::pcm::{frame_pcm, interleave_pcm_bytes, reconstruct_sample_pair};

fn residuals(arrays: Vec<Vec<i32>>, flags: Option<u32>) -> FrameResiduals {
    FrameResiduals {
        prologue: FramePrologue {
            crc31: 0,
            flags: flags.map(FrameFlags),
            len: if flags.is_some() { 8 } else { 4 },
        },
        arrays,
        end_bit_pos: 0,
        silent: false,
    }
}

#[test]
fn reconstruct_pair_uses_truncating_division() {
    assert_eq!(reconstruct_sample_pair(10, -3), (11, 8));
    assert_eq!(reconstruct_sample_pair(10, 3), (9, 12));
    assert_eq!(reconstruct_sample_pair(0, 0), (0, 0));
}

#[test]
fn reconstruct_inverts_the_pinned_encoder_form() {
    for s0 in -5i32..=5 {
        for s1 in -5i32..=5 {
            let y = s1 - s0;
            let x = s0 + y / 2;
            assert_eq!(reconstruct_sample_pair(x, y), (s0, s1), "s0={s0} s1={s1}");
        }
    }
}

#[test]
fn mono_first_sample_identity() {
    let res = residuals(vec![vec![1234, 0, 0, 0]], None);
    let pcm = frame_pcm(&res, 3990, CompressionLevel::Fast, 1).unwrap();
    assert_eq!(pcm.len(), 1);
    assert_eq!(pcm[0][0], 1234);
}

#[test]
fn pseudo_stereo_duplicates_x_on_both_channels() {
    let res = residuals(vec![vec![5, -3, 8]], Some(FrameFlags::PSEUDO_STEREO));
    let pcm = frame_pcm(&res, 3990, CompressionLevel::Normal, 2).unwrap();
    assert_eq!(pcm.len(), 2);
    assert_eq!(pcm[0], pcm[1]);
}

#[test]
fn stereo_zero_arrays_stay_zero() {
    let res = residuals(vec![vec![0; 32], vec![0; 32]], None);
    for version in [3930u16, 3949, 3950, 3990] {
        let pcm = frame_pcm(&res, version, CompressionLevel::Fast, 2).unwrap();
        assert!(pcm.iter().all(|c| c.iter().all(|&v| v == 0)));
    }
}

#[test]
fn layout_mismatches_are_rejected() {
    let res = residuals(vec![vec![0; 4], vec![0; 5]], None);
    assert!(matches!(
        frame_pcm(&res, 3990, CompressionLevel::Fast, 2),
        Err(Error::Malformed(_))
    ));
    let res = residuals(vec![vec![0; 4]], None);
    assert!(matches!(
        frame_pcm(&res, 3990, CompressionLevel::Fast, 2),
        Err(Error::Malformed(_))
    ));
    let res = residuals(vec![vec![0; 4], vec![0; 4]], None);
    assert!(matches!(
        frame_pcm(&res, 3990, CompressionLevel::Fast, 1),
        Err(Error::Malformed(_))
    ));
}

#[test]
fn unpinned_versions_surface_not_implemented() {
    let res = residuals(vec![vec![0; 4]], None);
    assert!(matches!(
        frame_pcm(&res, 3920, CompressionLevel::Fast, 1),
        Err(Error::NotImplemented)
    ));
}

#[test]
fn interleave_16_bit_is_le_sample_pairs() {
    let bytes = interleave_pcm_bytes(&[vec![1, -2], vec![0x0100, -1]], 16).unwrap();
    assert_eq!(bytes, [0x01, 0x00, 0x00, 0x01, 0xFE, 0xFF, 0xFF, 0xFF]);
}

#[test]
fn interleave_8_bit_biases_by_128() {
    let bytes = interleave_pcm_bytes(&[vec![0, -128, 127]], 8).unwrap();
    assert_eq!(bytes, [128, 0, 255]);
}

#[test]
fn interleave_24_bit_truncates_two_complement() {
    let bytes = interleave_pcm_bytes(&[vec![1, -1, -8_388_608]], 24).unwrap();
    assert_eq!(bytes, [1, 0, 0, 0xFF, 0xFF, 0xFF, 0x00, 0x00, 0x80]);
}

#[test]
fn interleave_rejects_ragged_and_unstaged_depths() {
    assert!(interleave_pcm_bytes(&[vec![0; 2], vec![0; 3]], 16).is_err());
    assert!(interleave_pcm_bytes(&[vec![0; 2]], 32).is_err());
    assert_eq!(interleave_pcm_bytes(&[], 16).unwrap(), Vec::<u8>::new());
}
