//! The channels of a frame, told by samples and residuals alone: which
//! array codes what, and what it is predicted from.

use vstd::prelude::*;

use crate::arith::{lemma_wrap32, wrap32};
use crate::decorrelate::{decorrelated, law_correlation_round_trip, reconstructed};
use crate::error::Error;
use crate::frame::{FrameModel, FramePrologue};
use crate::header::CompressionLevel;
use crate::pcm::{
    array_decoded, coded_arrays, frame_samples, fresh_stereo, law_frame_samples_round_trip,
    lemma_coded_array_lengths, samples_of, stereo_decoded, PairSeq, StereoModel,
};
use crate::predict::{array_error, fresh_array, ArrayModel};
use crate::predictor_laws::{array_run, past};

verus! {

/// The difference of two samples, the second less the first.
pub open spec fn side(s0: i32, s1: i32) -> i32 {
    wrap32(s1 - s0) as i32
}

/// The middle of two samples: the first one and half of the difference,
/// rounded toward zero.
pub open spec fn middle(s0: i32, s1: i32) -> i32 {
    let y = side(s0, s1) as int;
    wrap32(
        s0 + if y >= 0 {
            y / 2
        } else {
            -((-y) / 2)
        },
    ) as i32
}

/// The differences of two channels.
pub open spec fn sides(s0: Seq<i32>, s1: Seq<i32>) -> Seq<i32> {
    Seq::new(s0.len(), |i: int| side(s0[i], s1[i]))
}

/// The middles of two channels.
pub open spec fn middles(s0: Seq<i32>, s1: Seq<i32>) -> Seq<i32> {
    Seq::new(s0.len(), |i: int| middle(s0[i], s1[i]))
}

/// A signal one block later, from zero on.
pub open spec fn one_later(s: Seq<i32>) -> Seq<i32> {
    Seq::new(s.len(), |i: int| past(s, i - 1) as i32)
}

/// No cross terms.
pub open spec fn no_cross(n: nat) -> Seq<i32> {
    Seq::new(n, |i: int| 0i32)
}

/// A run reads its cross terms only as far as it goes.
proof fn lemma_cross_prefix(p: ArrayModel, r: Seq<i32>, x: Seq<i32>, y: Seq<i32>, n: nat)
    requires
        forall|i: int| 0 <= i < n ==> x[i] == y[i],
    ensures
        array_run(p, r, x, n) == array_run(p, r, y, n),
    decreases n,
{
    if n > 0 {
        lemma_cross_prefix(p, r, x, y, (n - 1) as nat);
    }
}

/// The pair that two samples were made of.
proof fn lemma_samples(x: i32, y: i32)
    ensures
        side(samples_of(x, y).0, samples_of(x, y).1) == y,
        middle(samples_of(x, y).0, samples_of(x, y).1) == x,
{
    law_correlation_round_trip(x, y);
    let (l, r) = reconstructed(x, y);
    assert(decorrelated(l, r) == (x, y));
    lemma_wrap32(l - r);
}

spec fn cross_of_first(cross: bool, out: PairSeq) -> Seq<i32> {
    if cross {
        one_later(middles(out.first, out.second))
    } else {
        no_cross(out.first.len())
    }
}

spec fn cross_of_second(cross: bool, out: PairSeq) -> Seq<i32> {
    if cross {
        sides(out.first, out.second)
    } else {
        no_cross(out.first.len())
    }
}

proof fn lemma_two_arrays(
    version: u16,
    level: CompressionLevel,
    cross: bool,
    ry: Seq<i32>,
    rx: Seq<i32>,
    n: nat,
)
    ensures
        ({
            let (st, out) = stereo_decoded(fresh_stereo(version, level), cross, ry, rx, n);
            let p = fresh_array(version, level);
            &&& out.first.len() == n
            &&& out.second.len() == n
            &&& (st.y, sides(out.first, out.second)) == array_run(
                p,
                ry,
                cross_of_first(cross, out),
                n,
            )
            &&& (st.x, middles(out.first, out.second)) == array_run(
                p,
                rx,
                cross_of_second(cross, out),
                n,
            )
            &&& st.last_x == past(middles(out.first, out.second), n - 1)
        }),
    decreases n,
{
    let start = fresh_stereo(version, level);
    let p = fresh_array(version, level);
    let (st, out) = stereo_decoded(start, cross, ry, rx, n);
    if n == 0 {
        assert(sides(out.first, out.second) =~= Seq::<i32>::empty());
        assert(middles(out.first, out.second) =~= Seq::<i32>::empty());
    } else {
        let m = (n - 1) as nat;
        lemma_two_arrays(version, level, cross, ry, rx, m);
        let (mid, head) = stereo_decoded(start, cross, ry, rx, m);
        let (next, s) = mid.decode(cross, ry[n - 1], rx[n - 1]);
        reveal(StereoModel::decode);
        let y = mid.y.decode(
            ry[n - 1],
            if cross {
                mid.last_x
            } else {
                0
            },
        ).1;
        let x = mid.x.decode(
            rx[n - 1],
            if cross {
                y
            } else {
                0
            },
        ).1;
        lemma_samples(x, y);
        assert(s == samples_of(x, y));
        let ys = sides(head.first, head.second);
        let xs = middles(head.first, head.second);
        let ys2 = sides(out.first, out.second);
        let xs2 = middles(out.first, out.second);
        assert(ys2 =~= ys.push(y));
        assert(xs2 =~= xs.push(x));
        let c1 = cross_of_first(cross, head);
        let c2 = cross_of_second(cross, head);
        let d1 = cross_of_first(cross, out);
        let d2 = cross_of_second(cross, out);
        assert forall|i: int| 0 <= i < m implies c1[i] == d1[i] && c2[i] == d2[i] by {}
        lemma_cross_prefix(p, ry, c1, d1, m);
        lemma_cross_prefix(p, rx, c2, d2, m);
        assert(d1[n - 1] == if cross {
            mid.last_x
        } else {
            0
        });
        assert(d2[n - 1] == if cross {
            y
        } else {
            0
        });
    }
}

/// A stereo frame in terms of its residuals and its samples. From version
/// 3950 on the first array codes the differences and the second one the
/// middles. A difference is predicted with the middle of the block before
/// it as cross term, zero in the first block, and a middle with the
/// difference of its own block. Before version 3950 the first array codes
/// the middles and the second one the differences, without cross terms.
pub proof fn law_stereo_frame(m: FrameModel, version: u16, level: CompressionLevel)
    requires
        !m.silent,
        m.arrays.len() == 2,
        m.arrays[0].len() == m.arrays[1].len(),
        array_error(version, level) is None,
    ensures
        frame_samples(m, version, level, 2) is Ok,
        ({
            let out = frame_samples(m, version, level, 2)->Ok_0;
            let p = fresh_array(version, level);
            let n = m.arrays[0].len();
            let ys = sides(out[0], out[1]);
            let xs = middles(out[0], out[1]);
            &&& out.len() == 2
            &&& out[0].len() == n
            &&& out[1].len() == n
            &&& version >= 3950 ==> {
                &&& array_run(p, m.arrays[0], one_later(xs), n).1 == ys
                &&& array_run(p, m.arrays[1], ys, n).1 == xs
            }
            &&& version < 3950 ==> {
                &&& array_run(p, m.arrays[0], no_cross(n), n).1 == xs
                &&& array_run(p, m.arrays[1], no_cross(n), n).1 == ys
            }
        }),
{
    let cross = version >= 3950;
    let n = m.arrays[0].len();
    if cross {
        lemma_two_arrays(version, level, true, m.arrays[0], m.arrays[1], n);
    } else {
        lemma_two_arrays(version, level, false, m.arrays[1], m.arrays[0], n);
    }
}

/// What two channels are coded as, in terms of their samples: the arrays
/// that [`law_stereo_frame`] speaks of.
pub proof fn law_coded_stereo(pcm: Seq<Seq<i32>>, version: u16, level: CompressionLevel)
    requires
        pcm.len() == 2,
        pcm[0].len() == pcm[1].len(),
        array_error(version, level) is None,
    ensures
        coded_arrays(pcm, version, level) is Ok,
        ({
            let coded = coded_arrays(pcm, version, level)->Ok_0;
            let p = fresh_array(version, level);
            let n = pcm[0].len();
            let ys = sides(pcm[0], pcm[1]);
            let xs = middles(pcm[0], pcm[1]);
            &&& coded.len() == 2
            &&& coded[0].len() == n
            &&& coded[1].len() == n
            &&& version >= 3950 ==> {
                &&& array_run(p, coded[0], one_later(xs), n).1 == ys
                &&& array_run(p, coded[1], ys, n).1 == xs
            }
            &&& version < 3950 ==> {
                &&& array_run(p, coded[0], no_cross(n), n).1 == xs
                &&& array_run(p, coded[1], no_cross(n), n).1 == ys
            }
        }),
{
    let m = FrameModel {
        prologue: FramePrologue { crc31: 0, flags: None, len: 4 },
        arrays: coded_arrays(pcm, version, level)->Ok_0,
        end_bit_pos: 0,
        silent: false,
    };
    lemma_coded_array_lengths(pcm, version, level);
    law_frame_samples_round_trip(pcm, version, level, m);
    assert(m.arrays[0].len() == pcm[0].len());
    assert(m.arrays[1].len() == pcm[0].len());
    law_stereo_frame(m, version, level);
}

proof fn lemma_one_array(p: ArrayModel, r: Seq<i32>, n: nat)
    requires
        n <= r.len(),
    ensures
        array_decoded(p, r.take(n as int)) == array_run(p, r, no_cross(r.len()), n),
        array_run(p, r, no_cross(r.len()), n).1.len() == n,
    decreases n,
{
    if n > 0 {
        lemma_one_array(p, r, (n - 1) as nat);
        assert(r.take(n as int).drop_last() =~= r.take(n - 1));
    } else {
        assert(r.take(0) =~= Seq::<i32>::empty());
    }
}

/// A mono frame has one array, without cross terms. Two equal channels
/// are coded as one.
pub proof fn law_mono_frame(m: FrameModel, version: u16, level: CompressionLevel)
    requires
        !m.silent,
        m.arrays.len() == 1,
        array_error(version, level) is None,
    ensures
        ({
            let r = m.arrays[0];
            let s = array_run(fresh_array(version, level), r, no_cross(r.len()), r.len()).1;
            &&& frame_samples(m, version, level, 1) == Ok::<Seq<Seq<i32>>, Error>(seq![s])
            &&& m.prologue.flag_word().0 & 4 != 0 ==> frame_samples(m, version, level, 2) == Ok::<
                Seq<Seq<i32>>,
                Error,
            >(seq![s, s])
        }),
{
    let r = m.arrays[0];
    lemma_one_array(fresh_array(version, level), r, r.len());
    assert(r.take(r.len() as int) =~= r);
}

} // verus!
