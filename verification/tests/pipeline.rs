use oxideav_ape::cascade::{StageState, cascade_decode, cascade_encode};
use oxideav_ape::error::{Error, Result};
use oxideav_ape::filter_config::FilterCascade;
use oxideav_ape::header::CompressionLevel;
use oxideav_ape::pipeline::{CorrelationRounding, DeltaSink, DeltaSource, FrameChannels, decode_frame, encode_frame};

fn xorshift(state: &mut u64) -> u64 {
    let mut x = *state;
    x ^= x << 13;
    x ^= x >> 7;
    x ^= x << 17;
    *state = x;
    x
}

struct VecSource {
    arrays: Vec<Vec<i32>>,
    calls: Vec<usize>,
}

impl DeltaSource for VecSource {
    fn unpack_deltas(&mut self, channel: usize, out: &mut [i32]) -> Result<()> {
        self.calls.push(channel);
        out.copy_from_slice(&self.arrays[channel]);
        Ok(())
    }
}

#[derive(Default)]
struct VecSink {
    arrays: Vec<(usize, Vec<i32>)>,
}

impl DeltaSink for VecSink {
    fn pack_deltas(&mut self, channel: usize, deltas: &[i32]) -> Result<()> {
        self.arrays.push((channel, deltas.to_vec()));
        Ok(())
    }
}

#[test]
fn channel_count_matches_the_wiki_shapes() {
    assert_eq!(FrameChannels::Mono.count(), 1);
    assert_eq!(FrameChannels::Stereo.count(), 2);
}

#[test]
fn mono_decode_is_unpack_then_filter_only() {
    let mut src = VecSource {
        arrays: vec![vec![5, -3, 7, 0]],
        calls: Vec::new(),
    };
    let out = decode_frame(
        &mut src,
        FrameChannels::Mono,
        4,
        |_ch, arr| {
            for v in arr.iter_mut() {
                *v += 1;
            }
            Ok(())
        },
        CorrelationRounding::TruncatingDiv,
    )
    .unwrap();
    assert_eq!(out, vec![vec![6, -2, 8, 1]]);
    assert_eq!(src.calls, vec![0]);
}

#[test]
fn stereo_stage_ordering_is_pinned() {
    let mut src = VecSource {
        arrays: vec![vec![10, 4], vec![4, 2]],
        calls: Vec::new(),
    };
    let mut filter_calls = Vec::new();
    let out = decode_frame(
        &mut src,
        FrameChannels::Stereo,
        2,
        |ch, _arr| {
            filter_calls.push(ch);
            Ok(())
        },
        CorrelationRounding::TruncatingDiv,
    )
    .unwrap();
    assert_eq!(src.calls, vec![0, 1]);
    assert_eq!(filter_calls, vec![0, 1]);
    assert_eq!(out, vec![vec![12, 5], vec![8, 3]]);
}

#[test]
fn stereo_uses_array0_as_x_and_array1_as_y() {
    let mut src_a = VecSource {
        arrays: vec![vec![10], vec![4]],
        calls: Vec::new(),
    };
    let mut src_b = VecSource {
        arrays: vec![vec![4], vec![10]],
        calls: Vec::new(),
    };
    let no_filter = |_ch: usize, _arr: &mut [i32]| Ok(());
    let a = decode_frame(
        &mut src_a,
        FrameChannels::Stereo,
        1,
        no_filter,
        CorrelationRounding::TruncatingDiv,
    )
    .unwrap();
    let b = decode_frame(
        &mut src_b,
        FrameChannels::Stereo,
        1,
        no_filter,
        CorrelationRounding::TruncatingDiv,
    )
    .unwrap();
    assert_ne!(a, b);
    assert_eq!(a, vec![vec![12], vec![8]]);
}

#[test]
fn rounding_variants_differ_exactly_on_odd_negative_y() {
    let mut src = VecSource {
        arrays: vec![vec![0], vec![-3]],
        calls: Vec::new(),
    };
    let no_filter = |_ch: usize, _arr: &mut [i32]| Ok(());
    let div = decode_frame(
        &mut src,
        FrameChannels::Stereo,
        1,
        no_filter,
        CorrelationRounding::TruncatingDiv,
    )
    .unwrap();
    let mut src2 = VecSource {
        arrays: vec![vec![0], vec![-3]],
        calls: Vec::new(),
    };
    let shift = decode_frame(
        &mut src2,
        FrameChannels::Stereo,
        1,
        no_filter,
        CorrelationRounding::ArithShift,
    )
    .unwrap();
    assert_eq!(div, vec![vec![-2], vec![1]]);
    assert_eq!(shift, vec![vec![-1], vec![2]]);
}

#[test]
fn filter_errors_propagate() {
    let mut src = VecSource {
        arrays: vec![vec![1, 2]],
        calls: Vec::new(),
    };
    let err = decode_frame(
        &mut src,
        FrameChannels::Mono,
        2,
        |_ch, _arr| Err(Error::NotImplemented),
        CorrelationRounding::TruncatingDiv,
    )
    .unwrap_err();
    assert_eq!(err, Error::NotImplemented);
}

#[test]
fn frame_round_trips_end_to_end_for_every_level_and_rounding() {
    for level in CompressionLevel::ALL {
        for rounding in [
            CorrelationRounding::TruncatingDiv,
            CorrelationRounding::ArithShift,
        ] {
            let cascade = FilterCascade::for_level(level);
            let mut rng = 0xC0FF_EE00_u64 ^ u64::from(u16::from(level));
            let frame_len = 48usize;
            let left: Vec<i32> = (0..frame_len)
                .map(|_| (xorshift(&mut rng) as i32) % 32768)
                .collect();
            let right: Vec<i32> = (0..frame_len)
                .map(|_| (xorshift(&mut rng) as i32) % 32768)
                .collect();
            let input = vec![left.clone(), right.clone()];

            let mut enc_states = [
                StageState::for_cascade(&cascade),
                StageState::for_cascade(&cascade),
            ];
            let mut sink = VecSink::default();
            encode_frame(
                &input,
                &mut sink,
                FrameChannels::Stereo,
                |ch, arr| cascade_encode(arr, &mut enc_states[ch], |_i, r, _f| r),
                rounding,
            )
            .unwrap();
            assert_eq!(sink.arrays.len(), 2);
            assert_eq!(sink.arrays[0].0, 0);
            assert_eq!(sink.arrays[1].0, 1);

            let mut dec_states = [
                StageState::for_cascade(&cascade),
                StageState::for_cascade(&cascade),
            ];
            let mut src = VecSource {
                arrays: vec![sink.arrays[0].1.clone(), sink.arrays[1].1.clone()],
                calls: Vec::new(),
            };
            let out = decode_frame(
                &mut src,
                FrameChannels::Stereo,
                frame_len,
                |ch, arr| cascade_decode(arr, &mut dec_states[ch], |_i, r, _f| r),
                rounding,
            )
            .unwrap();
            assert_eq!(out[0], left, "{level:?}/{rounding:?} left");
            assert_eq!(out[1], right, "{level:?}/{rounding:?} right");
            assert_eq!(enc_states, dec_states, "{level:?}/{rounding:?} states");
        }
    }
}

#[test]
fn mono_frame_round_trips() {
    let cascade = FilterCascade::for_level(CompressionLevel::High);
    let mut rng = 0x5EED_u64;
    let frame_len = 32usize;
    let pcm: Vec<i32> = (0..frame_len)
        .map(|_| (xorshift(&mut rng) as i32) % 65536)
        .collect();

    let mut enc_states = StageState::for_cascade(&cascade);
    let mut sink = VecSink::default();
    encode_frame(
        core::slice::from_ref(&pcm),
        &mut sink,
        FrameChannels::Mono,
        |_ch, arr| cascade_encode(arr, &mut enc_states, |_i, r, _f| r),
        CorrelationRounding::default(),
    )
    .unwrap();

    let mut dec_states = StageState::for_cascade(&cascade);
    let mut src = VecSource {
        arrays: vec![sink.arrays[0].1.clone()],
        calls: Vec::new(),
    };
    let out = decode_frame(
        &mut src,
        FrameChannels::Mono,
        frame_len,
        |_ch, arr| cascade_decode(arr, &mut dec_states, |_i, r, _f| r),
        CorrelationRounding::default(),
    )
    .unwrap();
    assert_eq!(out, vec![pcm]);
}
