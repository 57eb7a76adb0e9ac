use oxideav_ape::decoder::FrameDeltaSource;
use oxideav_ape::error::Error;
use oxideav_ape::pipeline::{CorrelationRounding, DeltaSource, FrameChannels, decode_frame};

#[test]
fn frame_delta_source_serves_channels_in_unpack_order() {
    let src = FrameDeltaSource {
        arrays: vec![vec![1, 2, 3], vec![4, 5, 6]],
        pseudo_stereo: false,
    };
    let mut s = src.clone();
    let mut buf = [0i32; 3];
    s.unpack_deltas(0, &mut buf).unwrap();
    assert_eq!(buf, [1, 2, 3]);
    s.unpack_deltas(1, &mut buf).unwrap();
    assert_eq!(buf, [4, 5, 6]);
    let mut short = [0i32; 2];
    assert!(matches!(
        s.unpack_deltas(0, &mut short),
        Err(Error::Malformed(_))
    ));
}

#[test]
fn pseudo_stereo_serves_the_shared_array_to_both_channels() {
    let mut src = FrameDeltaSource {
        arrays: vec![vec![7, 8]],
        pseudo_stereo: true,
    };
    let mut a = [0i32; 2];
    let mut b = [0i32; 2];
    src.unpack_deltas(0, &mut a).unwrap();
    src.unpack_deltas(1, &mut b).unwrap();
    assert_eq!(a, b);
    assert_eq!(a, [7, 8]);
}

#[test]
fn delta_source_plugs_into_the_pinned_pipeline_walk() {
    let mut src = FrameDeltaSource {
        arrays: vec![vec![10, 4], vec![4, 2]],
        pseudo_stereo: false,
    };
    let out = decode_frame(
        &mut src,
        FrameChannels::Stereo,
        2,
        |_ch, _arr| Ok(()),
        CorrelationRounding::TruncatingDiv,
    )
    .unwrap();
    assert_eq!(out, vec![vec![12, 5], vec![8, 3]]);
}
