//! How far a residual can be from its sample.
//!
//! Every prediction is a shifted 32-bit number, so each part of the chain
//! moves a value by a bounded amount. For samples of up to 24 bits the
//! residuals stay far away from `i32::MIN`, the one value that has no
//! magnitude.

use vstd::arithmetic::power2::*;
use vstd::prelude::*;

use crate::arith::{floor_shift, lemma_floor_shift_bound, lemma_wrap32, trunc_div, wrap32};

use crate::filter_config::{law_level_stages, level_stages};
use crate::header::CompressionLevel;
use crate::nn_filter::NnModel;
use crate::pcm::{
    array_encoded, channel_len, coded_arrays, fits_depth, fresh_stereo, is_depth, pair_of,
    same_lengths, stereo_encoded, all_fit, StereoModel,
};
use crate::predict::{
    first_order_down, fresh_array, fresh_stages, leaked, nn_encode, ArrayModel, FormModel,
    OffsetModel3950,
};

verus! {

/// `v` is at most `b` away from zero.
pub open spec fn within(v: int, b: int) -> bool {
    -b <= v <= b
}

/// The stages predict with at least ten fractional bits, and there are at
/// most three.
pub open spec fn tame_stages(nn: Seq<NnModel>) -> bool {
    &&& nn.len() <= 3
    &&& forall|k: int| 0 <= k < nn.len() ==> (#[trigger] nn[k]).shift >= 10
}

/// A chain of the newer form with tame stages.
pub open spec fn tame(p: ArrayModel) -> bool {
    &&& p.form is V3950
    &&& tame_stages(p.nn)
}

proof fn lemma_moved(v: int, p: int, b: int, m: int)
    requires
        within(v, b),
        within(p, m),
        b + m <= i32::MAX,
        b >= 0,
        m >= 0,
    ensures
        wrap32(v - p) == v - p,
        within(v - p, b + m),
{
    lemma_wrap32(v - p);
}

proof fn lemma_leaked_bound(state: i32)
    ensures
        within(leaked(state), 0x400_0000),
{
    lemma2_to64();
    lemma_wrap32(state * 31);
    lemma_floor_shift_bound(wrap32(state * 31), 5, 5);
    assert(pow2(26) == 0x400_0000);
}

proof fn lemma_offset_bound(p: OffsetModel3950, cross: i32)
    ensures
        within(p.prediction(cross), 0x20_0000),
{
    lemma2_to64();
    let own = wrap32(crate::predict::tap_sum(p.taps_a(), p.m_a, 4));
    let other = wrap32(crate::predict::tap_sum(p.taps_b(cross), p.m_b, 5));
    let sum = own + floor_shift(other, 1);
    lemma_wrap32(sum);
    lemma_floor_shift_bound(wrap32(sum), 10, 10);
    assert(pow2(21) == 0x20_0000);
}

proof fn lemma_nn_bound(f: NnModel)
    requires
        f.shift >= 10,
    ensures
        within(f.prediction(), 0x20_0000),
{
    lemma2_to64();
    let x = f.dot() + pow2((f.shift - 1) as nat);
    lemma_wrap32(x);
    lemma_floor_shift_bound(wrap32(x), f.shift, 10);
    assert(pow2(21) == 0x20_0000);
}

/// Each stage moves a value by at most `2^21`.
proof fn lemma_stages_bound(nn: Seq<NnModel>, v: i32, b: int)
    requires
        tame_stages(nn),
        0 <= b <= 0x4080_0000 - nn.len() * 0x20_0000,
        within(v as int, b),
    ensures
        within(nn_encode(nn, v).1 as int, b + nn.len() * 0x20_0000),
        tame_stages(nn_encode(nn, v).0),
        nn_encode(nn, v).0.len() == nn.len(),
    decreases nn.len(),
{
    if nn.len() > 0 {
        let last = nn.last();
        assert(nn[nn.len() - 1].shift >= 10);
        lemma_nn_bound(last);
        lemma_moved(v as int, last.prediction(), b, 0x20_0000);
        let u = last.encode(v).1;
        let head = nn.drop_last();
        assert forall|k: int| 0 <= k < head.len() implies (#[trigger] head[k]).shift >= 10 by {
            assert(head[k] == nn[k]);
        }
        lemma_stages_bound(head, u, b + 0x20_0000);
        reveal(NnModel::advanced);
        let out = nn_encode(nn, v).0;
        let inner = nn_encode(head, u).0;
        assert forall|k: int| 0 <= k < out.len() implies (#[trigger] out[k]).shift >= 10 by {
            if k < inner.len() {
                assert(out[k] == inner[k]);
            }
        }
    }
}

/// A residual of a signal within `2^24` is within `2^27`.
pub proof fn lemma_residual_bound(p: ArrayModel, signal: i32, cross: i32)
    requires
        tame(p),
        within(signal as int, 0x100_0000),
    ensures
        within(p.encode(signal, cross).1 as int, 0x800_0000),
        tame(p.encode(signal, cross).0),
{
    match p.form {
        FormModel::V3950 { offset, output } => {
            lemma_leaked_bound(output);
            lemma_moved(signal as int, leaked(output), 0x100_0000, 0x400_0000);
            let current = first_order_down(output, signal);
            lemma_offset_bound(offset, cross);
            lemma_moved(current as int, offset.prediction(cross), 0x500_0000, 0x20_0000);
            let v = offset.encode(current, cross).1;
            lemma_stages_bound(p.nn, v, 0x520_0000);
        },
        FormModel::V3930 { offset } => {},
    }
}

/// All residuals of a tame array are within `2^27`.
proof fn lemma_array_bound(p: ArrayModel, signal: Seq<i32>)
    requires
        tame(p),
        forall|i: int| 0 <= i < signal.len() ==> within(#[trigger] signal[i] as int, 0x100_0000),
    ensures
        tame(array_encoded(p, signal).0),
        forall|i: int|
            0 <= i < array_encoded(p, signal).1.len() ==> within(
                #[trigger] array_encoded(p, signal).1[i] as int,
                0x800_0000,
            ),
    decreases signal.len(),
{
    if signal.len() > 0 {
        let head = signal.drop_last();
        assert forall|i: int| 0 <= i < head.len() implies within(
            #[trigger] head[i] as int,
            0x100_0000,
        ) by {
            assert(head[i] == signal[i]);
        }
        lemma_array_bound(p, head);
        assert(within(signal[signal.len() - 1] as int, 0x100_0000));
        lemma_residual_bound(array_encoded(p, head).0, signal.last(), 0);
        let inner = array_encoded(p, head).1;
        let out = array_encoded(p, signal).1;
        assert forall|i: int| 0 <= i < out.len() implies within(
            #[trigger] out[i] as int,
            0x800_0000,
        ) by {
            if i < inner.len() {
                assert(out[i] == inner[i]);
            }
        }
    }
}

/// The pair of two samples of up to 24 bits is within `2^24`.
proof fn lemma_pair_bound(s0: i32, s1: i32)
    requires
        within(s0 as int, 0x80_0000),
        within(s1 as int, 0x80_0000),
    ensures
        within(pair_of(s0, s1).0 as int, 0x100_0000),
        within(pair_of(s0, s1).1 as int, 0x100_0000),
{
    lemma_wrap32(s1 - s0);
    let y = wrap32(s1 - s0);
    lemma_wrap32(s0 + trunc_div(y, 2));
}

/// All residuals of tame stereo arrays are within `2^27`.
proof fn lemma_stereo_bound(st: StereoModel, s0: Seq<i32>, s1: Seq<i32>, n: nat)
    requires
        tame(st.y),
        tame(st.x),
        n <= s0.len(),
        n <= s1.len(),
        forall|i: int| 0 <= i < s0.len() ==> within(#[trigger] s0[i] as int, 0x80_0000),
        forall|i: int| 0 <= i < s1.len() ==> within(#[trigger] s1[i] as int, 0x80_0000),
    ensures
        ({
            let (next, r) = stereo_encoded(st, true, s0, s1, n);
            &&& tame(next.y)
            &&& tame(next.x)
            &&& forall|i: int|
                0 <= i < r.first.len() ==> within(#[trigger] r.first[i] as int, 0x800_0000)
            &&& forall|i: int|
                0 <= i < r.second.len() ==> within(#[trigger] r.second[i] as int, 0x800_0000)
        }),
    decreases n,
{
    if n > 0 {
        let m = (n - 1) as nat;
        lemma_stereo_bound(st, s0, s1, m);
        let (mid, head) = stereo_encoded(st, true, s0, s1, m);
        let (next, r) = stereo_encoded(st, true, s0, s1, n);
        assert(within(s0[n - 1] as int, 0x80_0000) && within(s1[n - 1] as int, 0x80_0000));
        lemma_pair_bound(s0[n - 1], s1[n - 1]);
        let (x, y) = pair_of(s0[n - 1], s1[n - 1]);
        lemma_residual_bound(mid.y, y, mid.last_x);
        lemma_residual_bound(mid.x, x, y);
        reveal(StereoModel::encode);
        assert forall|i: int| 0 <= i < r.first.len() implies within(
            #[trigger] r.first[i] as int,
            0x800_0000,
        ) by {
            if i < head.first.len() {
                assert(r.first[i] == head.first[i]);
            }
        }
        assert forall|i: int| 0 <= i < r.second.len() implies within(
            #[trigger] r.second[i] as int,
            0x800_0000,
        ) by {
            if i < head.second.len() {
                assert(r.second[i] == head.second[i]);
            }
        }
    }
}

/// The fresh chain of a version from 3950 on is tame.
proof fn lemma_fresh_tame(version: u16, level: CompressionLevel)
    requires
        version >= 3950,
    ensures
        tame(fresh_array(version, level)),
{
    law_level_stages(level);
    let nn = fresh_stages(version, level);
    if level != CompressionLevel::Fast {
        let stages = level_stages(level);
        assert forall|k: int| 0 <= k < nn.len() implies (#[trigger] nn[k]).shift >= 10 by {
            let s = stages[stages.len() - 1 - k];
            assert(s.order != 0);
        }
    }
}

/// Residuals of samples of up to 24 bits are within `2^27`, for every
/// level and every version from 3950 on.
pub proof fn law_residuals_bounded(
    pcm: Seq<Seq<i32>>,
    version: u16,
    level: CompressionLevel,
    bits: u16,
)
    requires
        version >= 3950,
        is_depth(bits),
        1 <= pcm.len() <= 2,
        same_lengths(pcm),
        all_fit(pcm, bits),
    ensures
        coded_arrays(pcm, version, level) is Ok,
        forall|k: int, i: int|
            0 <= k < coded_arrays(pcm, version, level)->Ok_0.len() && 0 <= i < coded_arrays(
                pcm,
                version,
                level,
            )->Ok_0[k].len() ==> within(
                #[trigger] coded_arrays(pcm, version, level)->Ok_0[k][i] as int,
                0x800_0000,
            ),
{
    lemma_fresh_tame(version, level);
    assert(pcm.len() == 2 ==> pcm[1].len() == channel_len(pcm));
    assert forall|c: int, i: int| 0 <= c < pcm.len() && 0 <= i < pcm[c].len() implies within(
        #[trigger] pcm[c][i] as int,
        0x80_0000,
    ) by {
        assert(fits_depth(pcm[c][i], bits));
    }
    if pcm.len() == 1 {
        let ch = pcm[0];
        assert forall|i: int| 0 <= i < ch.len() implies within(
            #[trigger] ch[i] as int,
            0x100_0000,
        ) by {
            assert(within(pcm[0][i] as int, 0x80_0000));
        }
        lemma_array_bound(fresh_array(version, level), ch);
    } else {
        let a = pcm[0];
        let b = pcm[1];
        assert forall|i: int| 0 <= i < a.len() implies within(
            #[trigger] a[i] as int,
            0x80_0000,
        ) by {
            assert(within(pcm[0][i] as int, 0x80_0000));
        }
        assert forall|i: int| 0 <= i < b.len() implies within(
            #[trigger] b[i] as int,
            0x80_0000,
        ) by {
            assert(within(pcm[1][i] as int, 0x80_0000));
        }
        lemma_stereo_bound(fresh_stereo(version, level), a, b, a.len());
    }
}

} // verus!
