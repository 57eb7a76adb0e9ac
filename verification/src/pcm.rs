//! From residual arrays to samples and back, and the byte layout of
//! interleaved samples.
//!
//! A stereo frame is coded as the difference `Y` of its channels and a
//! mean `X`. From file version 3950 on `Y` is coded first, predicted with
//! the help of the previous `X`, and `X` with the help of the current
//! `Y`. Before that `X` is coded first and there is no such help. A frame
//! with two equal channels is coded as one array.

use vstd::prelude::*;

use crate::decorrelate::{
    decorrelate_pair, decorrelated, law_correlation_round_trip, reconstruct_pair, reconstructed,
};
use crate::error::{Error, Result};
use crate::frame::{FrameFlags, FrameModel, FrameResiduals};
use crate::header::CompressionLevel;
use crate::pipeline::contents;
use crate::predict::{
    array_error, fresh_array, law_array_round_trip, ArrayModel, ArrayPredictor, CROSS_TERM_VERSION,
};

verus! {

/// The samples `(s0, s1)` of the pair `(x, y)`.
pub open spec fn samples_of(x: i32, y: i32) -> (i32, i32) {
    let (l, r) = reconstructed(x, y);
    (r, l)
}

/// The pair `(x, y)` of the samples `(s0, s1)`.
pub open spec fn pair_of(s0: i32, s1: i32) -> (i32, i32) {
    decorrelated(s1, s0)
}

/// The samples of a pair: `s0 = x - y / 2`, rounded toward zero, and
/// `s1 = s0 + y`.
pub fn reconstruct_sample_pair(x: i32, y: i32) -> (p: (i32, i32))
    ensures
        p == samples_of(x, y),
{
    let (l, r) = reconstruct_pair(x, y);
    (r, l)
}

// ---------------------------------------------------------------------
// One array
// ---------------------------------------------------------------------

/// Decoding an array without cross term.
pub open spec fn array_decoded(p: ArrayModel, residuals: Seq<i32>) -> (ArrayModel, Seq<i32>)
    decreases residuals.len(),
{
    if residuals.len() == 0 {
        (p, residuals)
    } else {
        let (mid, head) = array_decoded(p, residuals.drop_last());
        let (next, v) = mid.decode(residuals.last(), 0);
        (next, head.push(v))
    }
}

/// Encoding an array without cross term.
pub open spec fn array_encoded(p: ArrayModel, signal: Seq<i32>) -> (ArrayModel, Seq<i32>)
    decreases signal.len(),
{
    if signal.len() == 0 {
        (p, signal)
    } else {
        let (mid, head) = array_encoded(p, signal.drop_last());
        let (next, v) = mid.encode(signal.last(), 0);
        (next, head.push(v))
    }
}

/// Decoding an encoded array gives it back.
pub proof fn law_array_decoded_encoded(p: ArrayModel, signal: Seq<i32>)
    ensures
        array_encoded(p, signal).1.len() == signal.len(),
        array_decoded(p, array_encoded(p, signal).1) == (array_encoded(p, signal).0, signal),
    decreases signal.len(),
{
    if signal.len() > 0 {
        let head = signal.drop_last();
        law_array_decoded_encoded(p, head);
        let (mid, coded) = array_encoded(p, head);
        law_array_round_trip(mid, signal.last(), 0);
        let v = mid.encode(signal.last(), 0).1;
        assert(coded.push(v).drop_last() =~= coded);
        assert(head.push(signal.last()) =~= signal);
    }
}

/// Decodes an array without cross term.
fn decode_array(p: &mut ArrayPredictor, residuals: &Vec<i32>) -> (r: Vec<i32>)
    requires
        old(p).wf(),
    ensures
        final(p).wf(),
        (final(p)@, r@) == array_decoded(old(p)@, residuals@),
{
    let mut out: Vec<i32> = Vec::new();
    let mut i: usize = 0;
    let ghost start = p@;
    assert(residuals@.take(0) =~= Seq::<i32>::empty());
    while i < residuals.len()
        invariant
            i <= residuals@.len(),
            p.wf(),
            (p@, out@) == array_decoded(start, residuals@.take(i as int)),
        decreases residuals@.len() - i,
    {
        let v = p.decode(residuals[i], 0);
        out.push(v);
        assert(residuals@.take(i as int + 1).drop_last() =~= residuals@.take(i as int));
        i = i + 1;
    }
    assert(residuals@.take(i as int) =~= residuals@);
    out
}

/// Encodes an array without cross term.
fn encode_array(p: &mut ArrayPredictor, signal: &Vec<i32>) -> (r: Vec<i32>)
    requires
        old(p).wf(),
    ensures
        final(p).wf(),
        (final(p)@, r@) == array_encoded(old(p)@, signal@),
{
    let mut out: Vec<i32> = Vec::new();
    let mut i: usize = 0;
    let ghost start = p@;
    assert(signal@.take(0) =~= Seq::<i32>::empty());
    while i < signal.len()
        invariant
            i <= signal@.len(),
            p.wf(),
            (p@, out@) == array_encoded(start, signal@.take(i as int)),
        decreases signal@.len() - i,
    {
        let v = p.encode(signal[i], 0);
        out.push(v);
        assert(signal@.take(i as int + 1).drop_last() =~= signal@.take(i as int));
        i = i + 1;
    }
    assert(signal@.take(i as int) =~= signal@);
    out
}

// ---------------------------------------------------------------------
// Two arrays
// ---------------------------------------------------------------------

/// The two predictors of a stereo frame, and the last `X`.
pub ghost struct StereoModel {
    pub y: ArrayModel,
    pub x: ArrayModel,
    pub last_x: i32,
}

/// Two sequences that grow together.
pub ghost struct PairSeq {
    pub first: Seq<i32>,
    pub second: Seq<i32>,
}

impl StereoModel {
    /// Decoding a pair of residuals, with or without cross terms.
    #[verifier::opaque]
    pub open spec fn decode(self, cross: bool, ry: i32, rx: i32) -> (StereoModel, (i32, i32)) {
        let (y_next, y) = self.y.decode(
            ry,
            if cross {
                self.last_x
            } else {
                0
            },
        );
        let (x_next, x) = self.x.decode(
            rx,
            if cross {
                y
            } else {
                0
            },
        );
        (StereoModel { y: y_next, x: x_next, last_x: x }, samples_of(x, y))
    }

    /// Encoding a pair of samples: the residuals of `Y` and `X`.
    #[verifier::opaque]
    pub open spec fn encode(self, cross: bool, s0: i32, s1: i32) -> (StereoModel, (i32, i32)) {
        let (x, y) = pair_of(s0, s1);
        let (y_next, ry) = self.y.encode(
            y,
            if cross {
                self.last_x
            } else {
                0
            },
        );
        let (x_next, rx) = self.x.encode(
            x,
            if cross {
                y
            } else {
                0
            },
        );
        (StereoModel { y: y_next, x: x_next, last_x: x }, (ry, rx))
    }
}

/// Decoding the first `n` pairs of residuals; the result holds the two
/// channels.
pub open spec fn stereo_decoded(
    st: StereoModel,
    cross: bool,
    ry: Seq<i32>,
    rx: Seq<i32>,
    n: nat,
) -> (StereoModel, PairSeq)
    decreases n,
{
    if n == 0 {
        (st, PairSeq { first: Seq::empty(), second: Seq::empty() })
    } else {
        let (mid, head) = stereo_decoded(st, cross, ry, rx, (n - 1) as nat);
        let (next, s) = mid.decode(cross, ry[n - 1], rx[n - 1]);
        (next, PairSeq { first: head.first.push(s.0), second: head.second.push(s.1) })
    }
}

/// Encoding the first `n` pairs of samples; the result holds the
/// residuals of `Y` and of `X`.
pub open spec fn stereo_encoded(
    st: StereoModel,
    cross: bool,
    s0: Seq<i32>,
    s1: Seq<i32>,
    n: nat,
) -> (StereoModel, PairSeq)
    decreases n,
{
    if n == 0 {
        (st, PairSeq { first: Seq::empty(), second: Seq::empty() })
    } else {
        let (mid, head) = stereo_encoded(st, cross, s0, s1, (n - 1) as nat);
        let (next, r) = mid.encode(cross, s0[n - 1], s1[n - 1]);
        (next, PairSeq { first: head.first.push(r.0), second: head.second.push(r.1) })
    }
}

/// Decoding an encoded pair of samples gives it back.
pub proof fn law_stereo_step_round_trip(st: StereoModel, cross: bool, s0: i32, s1: i32)
    ensures
        ({
            let (next, (ry, rx)) = st.encode(cross, s0, s1);
            st.decode(cross, ry, rx) == (next, (s0, s1))
        }),
{
    reveal(StereoModel::decode);
    reveal(StereoModel::encode);
    let (x, y) = pair_of(s0, s1);
    law_correlation_round_trip(s1, s0);
    law_array_round_trip(
        st.y,
        y,
        if cross {
            st.last_x
        } else {
            0
        },
    );
    law_array_round_trip(
        st.x,
        x,
        if cross {
            y
        } else {
            0
        },
    );
}

proof fn lemma_stereo_encoded_len(
    st: StereoModel,
    cross: bool,
    s0: Seq<i32>,
    s1: Seq<i32>,
    n: nat,
)
    ensures
        stereo_encoded(st, cross, s0, s1, n).1.first.len() == n,
        stereo_encoded(st, cross, s0, s1, n).1.second.len() == n,
    decreases n,
{
    if n > 0 {
        lemma_stereo_encoded_len(st, cross, s0, s1, (n - 1) as nat);
    }
}

/// Decoding reads residuals only as far as it goes.
proof fn lemma_stereo_decoded_prefix(
    st: StereoModel,
    cross: bool,
    ry: Seq<i32>,
    rx: Seq<i32>,
    ry2: Seq<i32>,
    rx2: Seq<i32>,
    n: nat,
)
    requires
        forall|k: int| 0 <= k < n ==> ry[k] == ry2[k] && rx[k] == rx2[k],
    ensures
        stereo_decoded(st, cross, ry, rx, n) == stereo_decoded(st, cross, ry2, rx2, n),
    decreases n,
{
    if n > 0 {
        lemma_stereo_decoded_prefix(st, cross, ry, rx, ry2, rx2, (n - 1) as nat);
    }
}

/// Decoding encoded channels gives them back.
pub proof fn law_stereo_round_trip(
    st: StereoModel,
    cross: bool,
    s0: Seq<i32>,
    s1: Seq<i32>,
    n: nat,
)
    requires
        n <= s0.len(),
        n <= s1.len(),
    ensures
        ({
            let (next, r) = stereo_encoded(st, cross, s0, s1, n);
            stereo_decoded(st, cross, r.first, r.second, n) == (
                next,
                PairSeq { first: s0.take(n as int), second: s1.take(n as int) },
            )
        }),
    decreases n,
{
    if n == 0 {
        assert(s0.take(0) =~= Seq::<i32>::empty());
        assert(s1.take(0) =~= Seq::<i32>::empty());
    } else {
        let m = (n - 1) as nat;
        law_stereo_round_trip(st, cross, s0, s1, m);
        let (mid, head) = stereo_encoded(st, cross, s0, s1, m);
        let (next, r) = stereo_encoded(st, cross, s0, s1, n);
        lemma_stereo_encoded_len(st, cross, s0, s1, m);
        lemma_stereo_decoded_prefix(
            st,
            cross,
            r.first,
            r.second,
            head.first,
            head.second,
            m,
        );
        law_stereo_step_round_trip(mid, cross, s0[n - 1], s1[n - 1]);
        assert(s0.take(n as int) =~= s0.take(m as int).push(s0[n - 1]));
        assert(s1.take(n as int) =~= s1.take(m as int).push(s1[n - 1]));
    }
}

/// The predictors of a stereo frame at its start.
pub open spec fn fresh_stereo(version: u16, level: CompressionLevel) -> StereoModel {
    StereoModel { y: fresh_array(version, level), x: fresh_array(version, level), last_x: 0 }
}

/// Decodes pairs of residuals.
fn decode_stereo(
    y_pred: &mut ArrayPredictor,
    x_pred: &mut ArrayPredictor,
    cross: bool,
    ry: &Vec<i32>,
    rx: &Vec<i32>,
) -> (r: (Vec<i32>, Vec<i32>))
    requires
        old(y_pred).wf(),
        old(x_pred).wf(),
        ry@.len() == rx@.len(),
    ensures
        (PairSeq { first: r.0@, second: r.1@ }) == stereo_decoded(
            StereoModel { y: old(y_pred)@, x: old(x_pred)@, last_x: 0 },
            cross,
            ry@,
            rx@,
            ry@.len(),
        ).1,
{
    let ghost start = StereoModel { y: y_pred@, x: x_pred@, last_x: 0 };
    let mut ch0: Vec<i32> = Vec::new();
    let mut ch1: Vec<i32> = Vec::new();
    let mut last_x: i32 = 0;
    let mut i: usize = 0;
    while i < ry.len()
        invariant
            i <= ry@.len(),
            ry@.len() == rx@.len(),
            y_pred.wf(),
            x_pred.wf(),
            stereo_decoded(start, cross, ry@, rx@, i as nat) == (
                StereoModel { y: y_pred@, x: x_pred@, last_x },
                PairSeq { first: ch0@, second: ch1@ },
            ),
        decreases ry@.len() - i,
    {
        proof {
            reveal(StereoModel::decode);
        }
        let y = y_pred.decode(
            ry[i],
            if cross {
                last_x
            } else {
                0
            },
        );
        let x = x_pred.decode(
            rx[i],
            if cross {
                y
            } else {
                0
            },
        );
        last_x = x;
        let (s0, s1) = reconstruct_sample_pair(x, y);
        ch0.push(s0);
        ch1.push(s1);
        i = i + 1;
    }
    (ch0, ch1)
}

/// Encodes pairs of samples to the residuals of `Y` and `X`.
fn encode_stereo(
    y_pred: &mut ArrayPredictor,
    x_pred: &mut ArrayPredictor,
    cross: bool,
    s0: &Vec<i32>,
    s1: &Vec<i32>,
) -> (r: (Vec<i32>, Vec<i32>))
    requires
        old(y_pred).wf(),
        old(x_pred).wf(),
        s0@.len() == s1@.len(),
    ensures
        (PairSeq { first: r.0@, second: r.1@ }) == stereo_encoded(
            StereoModel { y: old(y_pred)@, x: old(x_pred)@, last_x: 0 },
            cross,
            s0@,
            s1@,
            s0@.len(),
        ).1,
{
    let ghost start = StereoModel { y: y_pred@, x: x_pred@, last_x: 0 };
    let mut ry: Vec<i32> = Vec::new();
    let mut rx: Vec<i32> = Vec::new();
    let mut last_x: i32 = 0;
    let mut i: usize = 0;
    while i < s0.len()
        invariant
            i <= s0@.len(),
            s0@.len() == s1@.len(),
            y_pred.wf(),
            x_pred.wf(),
            stereo_encoded(start, cross, s0@, s1@, i as nat) == (
                StereoModel { y: y_pred@, x: x_pred@, last_x },
                PairSeq { first: ry@, second: rx@ },
            ),
        decreases s0@.len() - i,
    {
        proof {
            reveal(StereoModel::encode);
        }
        let (x, y) = decorrelate_pair(s1[i], s0[i]);
        let a = y_pred.encode(
            y,
            if cross {
                last_x
            } else {
                0
            },
        );
        let b = x_pred.encode(
            x,
            if cross {
                y
            } else {
                0
            },
        );
        last_x = x;
        ry.push(a);
        rx.push(b);
        i = i + 1;
    }
    (ry, rx)
}

// ---------------------------------------------------------------------
// Frames
// ---------------------------------------------------------------------

/// The channels of a frame.
pub open spec fn frame_samples(
    m: FrameModel,
    version: u16,
    level: CompressionLevel,
    channels: u16,
) -> Result<Seq<Seq<i32>>> {
    let p = fresh_array(version, level);
    if m.silent {
        Ok(m.arrays)
    } else if channels == 1 && m.arrays.len() == 1 {
        match array_error(version, level) {
            Some(e) => Err(e),
            None => Ok(seq![array_decoded(p, m.arrays[0]).1]),
        }
    } else if channels == 2 && m.arrays.len() == 1 && m.prologue.flag_word().carries(4) {
        match array_error(version, level) {
            Some(e) => Err(e),
            None => Ok(
                seq![array_decoded(p, m.arrays[0]).1, array_decoded(p, m.arrays[0]).1],
            ),
        }
    } else if channels == 2 && m.arrays.len() == 2 {
        if m.arrays[1].len() != m.arrays[0].len() {
            Err(Error::Malformed("stereo coded arrays disagree on length"))
        } else {
            match array_error(version, level) {
                Some(e) => Err(e),
                None => {
                    let cross = version >= CROSS_TERM_VERSION;
                    let (ry, rx) = if cross {
                        (m.arrays[0], m.arrays[1])
                    } else {
                        (m.arrays[1], m.arrays[0])
                    };
                    let s = stereo_decoded(
                        fresh_stereo(version, level),
                        cross,
                        ry,
                        rx,
                        ry.len(),
                    ).1;
                    Ok(seq![s.first, s.second])
                },
            }
        }
    } else {
        Err(Error::Malformed("channel count disagrees with the coded array layout"))
    }
}

/// A copy of the arrays.
fn copy_arrays(arrays: &Vec<Vec<i32>>) -> (r: Vec<Vec<i32>>)
    ensures
        contents(r@) == contents(arrays@),
{
    let mut r: Vec<Vec<i32>> = Vec::new();
    let mut i: usize = 0;
    assert(contents(arrays@).take(0) =~= Seq::<Seq<i32>>::empty());
    assert(contents(r@) =~= Seq::<Seq<i32>>::empty());
    while i < arrays.len()
        invariant
            i <= arrays@.len(),
            contents(r@) == contents(arrays@).take(i as int),
        decreases arrays@.len() - i,
    {
        let ghost before = contents(r@);
        let a = vstd::slice::slice_to_vec(arrays[i].as_slice());
        r.push(a);
        assert(contents(r@) =~= before.push(arrays@[i as int]@));
        assert(contents(arrays@).take(i as int + 1) =~= before.push(arrays@[i as int]@));
        i = i + 1;
    }
    assert(contents(arrays@).take(i as int) =~= contents(arrays@));
    r
}

/// Reconstructs the channels of a frame from its residual arrays.
pub fn frame_pcm(
    res: &FrameResiduals,
    version: u16,
    level: CompressionLevel,
    channels: u16,
) -> (r: Result<Vec<Vec<i32>>>)
    ensures
        match frame_samples(res@, version, level, channels) {
            Ok(out) => r is Ok && contents(r->Ok_0@) == out,
            Err(e) => r == Err::<Vec<Vec<i32>>, Error>(e),
        },
{
    if res.silent {
        return Ok(copy_arrays(&res.arrays));
    }
    let count: usize = res.arrays.len();
    assert(res@.arrays.len() == count);
    let pseudo: bool = match res.prologue.flags {
        Some(f) => f.has(FrameFlags::PSEUDO_STEREO),
        None => {
            assert(0u32 & 4u32 == 0) by (bit_vector);
            false
        },
    };
    let mut out: Vec<Vec<i32>> = Vec::new();
    if channels == 1 && count == 1 {
        let mut p = match ArrayPredictor::new(version, level) {
            Err(e) => {
                return Err(e);
            },
            Ok(p) => p,
        };
        let x = decode_array(&mut p, &res.arrays[0]);
        let ghost one = seq![x@];
        out.push(x);
        assert(contents(out@) =~= one);
        Ok(out)
    } else if channels == 2 && count == 1 && pseudo {
        let mut p = match ArrayPredictor::new(version, level) {
            Err(e) => {
                return Err(e);
            },
            Ok(p) => p,
        };
        let x = decode_array(&mut p, &res.arrays[0]);
        let again = vstd::slice::slice_to_vec(x.as_slice());
        let ghost both = seq![x@, x@];
        out.push(again);
        out.push(x);
        assert(contents(out@) =~= both);
        Ok(out)
    } else if channels == 2 && count == 2 {
        if res.arrays[1].len() != res.arrays[0].len() {
            return Err(Error::Malformed("stereo coded arrays disagree on length"));
        }
        let mut y_pred = match ArrayPredictor::new(version, level) {
            Err(e) => {
                return Err(e);
            },
            Ok(p) => p,
        };
        let mut x_pred = match ArrayPredictor::new(version, level) {
            Err(e) => {
                return Err(e);
            },
            Ok(p) => p,
        };
        let cross = version >= CROSS_TERM_VERSION;
        let (ch0, ch1) = if cross {
            decode_stereo(&mut y_pred, &mut x_pred, cross, &res.arrays[0], &res.arrays[1])
        } else {
            decode_stereo(&mut y_pred, &mut x_pred, cross, &res.arrays[1], &res.arrays[0])
        };
        let ghost both = seq![ch0@, ch1@];
        out.push(ch0);
        out.push(ch1);
        assert(contents(out@) =~= both);
        Ok(out)
    } else {
        Err(Error::Malformed("channel count disagrees with the coded array layout"))
    }
}

/// The arrays that the channels `pcm` are coded as.
pub open spec fn coded_arrays(pcm: Seq<Seq<i32>>, version: u16, level: CompressionLevel) -> Result<
    Seq<Seq<i32>>,
> {
    if !(1 <= pcm.len() <= 2) {
        Err(Error::InvalidInput("channel count outside 1..=2"))
    } else if pcm.len() == 2 && pcm[0].len() != pcm[1].len() {
        Err(Error::InvalidInput("PCM channels disagree on length"))
    } else {
        match array_error(version, level) {
            Some(e) => Err(e),
            None => if pcm.len() == 1 {
                Ok(seq![array_encoded(fresh_array(version, level), pcm[0]).1])
            } else {
                let cross = version >= CROSS_TERM_VERSION;
                let r = stereo_encoded(
                    fresh_stereo(version, level),
                    cross,
                    pcm[0],
                    pcm[1],
                    pcm[0].len(),
                ).1;
                Ok(
                    if cross {
                        seq![r.first, r.second]
                    } else {
                        seq![r.second, r.first]
                    },
                )
            },
        }
    }
}

/// Turns channels into the residual arrays of a frame: one array for one
/// channel; for two, `Y` and `X` in the order of the file version.
pub fn pcm_to_coded_arrays(pcm: &[Vec<i32>], version: u16, level: CompressionLevel) -> (r: Result<
    Vec<Vec<i32>>,
>)
    ensures
        match coded_arrays(contents(pcm@), version, level) {
            Ok(out) => r is Ok && contents(r->Ok_0@) == out,
            Err(e) => r == Err::<Vec<Vec<i32>>, Error>(e),
        },
{
    assert(contents(pcm@).len() == pcm@.len());
    if pcm.len() < 1 || pcm.len() > 2 {
        return Err(Error::InvalidInput("channel count outside 1..=2"));
    }
    if pcm.len() == 2 && pcm[0].len() != pcm[1].len() {
        return Err(Error::InvalidInput("PCM channels disagree on length"));
    }
    let mut x_pred = match ArrayPredictor::new(version, level) {
        Err(e) => {
            return Err(e);
        },
        Ok(p) => p,
    };
    let mut out: Vec<Vec<i32>> = Vec::new();
    if pcm.len() == 1 {
        let x = encode_array(&mut x_pred, &pcm[0]);
        let ghost one = seq![x@];
        out.push(x);
        assert(contents(out@) =~= one);
    } else {
        let mut y_pred = match ArrayPredictor::new(version, level) {
            Err(e) => {
                return Err(e);
            },
            Ok(p) => p,
        };
        let cross = version >= CROSS_TERM_VERSION;
        let (ry, rx) = encode_stereo(&mut y_pred, &mut x_pred, cross, &pcm[0], &pcm[1]);
        if cross {
            let ghost both = seq![ry@, rx@];
            out.push(ry);
            out.push(rx);
            assert(contents(out@) =~= both);
        } else {
            let ghost both = seq![rx@, ry@];
            out.push(rx);
            out.push(ry);
            assert(contents(out@) =~= both);
        }
    }
    Ok(out)
}

/// Every coded array is as long as the channels.
pub proof fn lemma_coded_array_lengths(
    pcm: Seq<Seq<i32>>,
    version: u16,
    level: CompressionLevel,
)
    requires
        coded_arrays(pcm, version, level) is Ok,
    ensures
        coded_arrays(pcm, version, level)->Ok_0.len() == pcm.len(),
        forall|k: int|
            0 <= k < pcm.len() ==> (#[trigger] coded_arrays(pcm, version, level)->Ok_0[k]).len()
                == pcm[0].len(),
{
    if pcm.len() == 1 {
        law_array_decoded_encoded(fresh_array(version, level), pcm[0]);
    } else {
        lemma_stereo_encoded_len(
            fresh_stereo(version, level),
            version >= CROSS_TERM_VERSION,
            pcm[0],
            pcm[1],
            pcm[0].len(),
        );
    }
}

/// Reconstructing the arrays of coded channels gives the channels back,
/// for every file version and level that has a predictor. Two equal
/// channels may be coded as one.
pub proof fn law_frame_samples_round_trip(
    pcm: Seq<Seq<i32>>,
    version: u16,
    level: CompressionLevel,
    m: FrameModel,
)
    requires
        1 <= pcm.len() <= 2,
        pcm.len() == 2 ==> pcm[0].len() == pcm[1].len(),
        array_error(version, level) is None,
        !m.silent,
        m.arrays == coded_arrays(pcm, version, level)->Ok_0,
    ensures
        frame_samples(m, version, level, pcm.len() as u16) == Ok::<Seq<Seq<i32>>, Error>(pcm),
        pcm.len() == 1 && m.prologue.flag_word().carries(4) ==> frame_samples(
            m,
            version,
            level,
            2,
        ) == Ok::<Seq<Seq<i32>>, Error>(seq![pcm[0], pcm[0]]),
{
    if pcm.len() == 1 {
        lemma_mono_round_trip(pcm, version, level, m);
    } else {
        lemma_stereo_frame_round_trip(pcm, version, level, m);
    }
}

proof fn lemma_mono_round_trip(
    pcm: Seq<Seq<i32>>,
    version: u16,
    level: CompressionLevel,
    m: FrameModel,
)
    requires
        pcm.len() == 1,
        array_error(version, level) is None,
        !m.silent,
        m.arrays == coded_arrays(pcm, version, level)->Ok_0,
    ensures
        frame_samples(m, version, level, 1) == Ok::<Seq<Seq<i32>>, Error>(pcm),
        m.prologue.flag_word().carries(4) ==> frame_samples(m, version, level, 2) == Ok::<
            Seq<Seq<i32>>,
            Error,
        >(seq![pcm[0], pcm[0]]),
{
    let p = fresh_array(version, level);
    let coded = array_encoded(p, pcm[0]).1;
    law_array_decoded_encoded(p, pcm[0]);
    assert(m.arrays == seq![coded]);
    assert(m.arrays.len() == 1 && m.arrays[0] == coded);
    assert(seq![pcm[0]] =~= pcm);
}

proof fn lemma_stereo_frame_round_trip(
    pcm: Seq<Seq<i32>>,
    version: u16,
    level: CompressionLevel,
    m: FrameModel,
)
    requires
        pcm.len() == 2,
        pcm[0].len() == pcm[1].len(),
        array_error(version, level) is None,
        !m.silent,
        m.arrays == coded_arrays(pcm, version, level)->Ok_0,
    ensures
        frame_samples(m, version, level, 2) == Ok::<Seq<Seq<i32>>, Error>(pcm),
{
    let cross = version >= CROSS_TERM_VERSION;
    let n = pcm[0].len();
    let st = fresh_stereo(version, level);
    let r = stereo_encoded(st, cross, pcm[0], pcm[1], n).1;
    law_stereo_round_trip(st, cross, pcm[0], pcm[1], n);
    lemma_stereo_encoded_len(st, cross, pcm[0], pcm[1], n);
    let (a, b) = if cross {
        (r.first, r.second)
    } else {
        (r.second, r.first)
    };
    assert(m.arrays == seq![a, b]);
    assert(m.arrays.len() == 2 && m.arrays[0] == a && m.arrays[1] == b);
    assert(pcm[0].take(n as int) =~= pcm[0]);
    assert(pcm[1].take(n as int) =~= pcm[1]);
    assert(seq![pcm[0], pcm[1]] =~= pcm);
}

// ---------------------------------------------------------------------
// Interleaved bytes
// ---------------------------------------------------------------------

/// A bit depth that has a byte layout.
pub open spec fn is_depth(bits: u16) -> bool {
    bits == 8 || bits == 16 || bits == 24
}

/// Bytes per sample.
pub open spec fn sample_len(bits: u16) -> nat {
    (bits / 8) as nat
}

/// The bytes of one sample: 8-bit samples are stored with an offset of
/// 128, the others as little-endian two's complement.
pub open spec fn sample_bytes(v: i32, bits: u16) -> Seq<u8> {
    if bits == 8 {
        seq![((v + 128) % 256) as u8]
    } else if bits == 16 {
        let u = (v as int) % 0x1_0000;
        seq![(u % 256) as u8, (u / 256) as u8]
    } else {
        let u = (v as int) % 0x100_0000;
        seq![(u % 256) as u8, ((u / 256) % 256) as u8, (u / 0x1_0000) as u8]
    }
}

/// The sample whose bytes start at `at`.
pub open spec fn sample_at(bytes: Seq<u8>, at: int, bits: u16) -> i32 {
    if bits == 8 {
        (bytes[at] - 128) as i32
    } else if bits == 16 {
        let u = bytes[at] + 256 * bytes[at + 1];
        if u >= 0x8000 {
            (u - 0x1_0000) as i32
        } else {
            u as i32
        }
    } else {
        let u = bytes[at] + 256 * bytes[at + 1] + 0x1_0000 * bytes[at + 2];
        if u >= 0x80_0000 {
            (u - 0x100_0000) as i32
        } else {
            u as i32
        }
    }
}

/// A sample that the bit depth can hold.
pub open spec fn fits_depth(v: i32, bits: u16) -> bool {
    if bits == 8 {
        -0x80 <= v < 0x80
    } else if bits == 16 {
        -0x8000 <= v < 0x8000
    } else {
        -0x80_0000 <= v < 0x80_0000
    }
}

/// All samples fit the bit depth.
pub open spec fn all_fit(channels: Seq<Seq<i32>>, bits: u16) -> bool {
    forall|c: int, i: int|
        0 <= c < channels.len() && 0 <= i < channels[c].len() ==> fits_depth(
            #[trigger] channels[c][i],
            bits,
        )
}

/// Sample `i` of the first `c` channels, one after the other.
pub open spec fn block_bytes(channels: Seq<Seq<i32>>, bits: u16, i: int, c: nat) -> Seq<u8>
    decreases c,
{
    if c == 0 {
        Seq::empty()
    } else {
        block_bytes(channels, bits, i, (c - 1) as nat) + sample_bytes(channels[c - 1][i], bits)
    }
}

/// The first `n` samples of all channels, interleaved.
pub open spec fn interleaved(channels: Seq<Seq<i32>>, bits: u16, n: nat) -> Seq<u8>
    decreases n,
{
    if n == 0 {
        Seq::empty()
    } else {
        interleaved(channels, bits, (n - 1) as nat) + block_bytes(
            channels,
            bits,
            n - 1,
            channels.len(),
        )
    }
}

/// The number of samples per channel.
pub open spec fn channel_len(channels: Seq<Seq<i32>>) -> nat {
    if channels.len() == 0 {
        0
    } else {
        channels[0].len()
    }
}

/// All channels have the same length.
pub open spec fn same_lengths(channels: Seq<Seq<i32>>) -> bool {
    forall|c: int| 0 <= c < channels.len() ==> (#[trigger] channels[c]).len() == channel_len(channels)
}

/// The interleaved bytes of all samples, or the reason why there are
/// none.
pub open spec fn interleaved_bytes(channels: Seq<Seq<i32>>, bits: u16) -> Result<Seq<u8>> {
    if !same_lengths(channels) {
        Err(Error::Malformed("PCM channels disagree on length"))
    } else if !is_depth(bits) {
        Err(Error::Malformed("bits-per-sample outside the staged {8, 16, 24} set"))
    } else {
        Ok(interleaved(channels, bits, channel_len(channels)))
    }
}

/// The low 32 bits of `v`.
fn unsigned(v: i32) -> (r: u32)
    ensures
        r == (v as int) % 0x1_0000_0000,
{
    if v >= 0 {
        v as u32
    } else {
        (v as i64 + 0x1_0000_0000) as u32
    }
}

/// The low bytes of `v` are those of its two's complement.
proof fn lemma_low_bytes(v: int, u: int)
    requires
        i32::MIN <= v <= i32::MAX,
        u == v % 0x1_0000_0000,
    ensures
        u % 256 == (v % 0x1_0000) % 256,
        u % 256 == (v % 0x100_0000) % 256,
        u % 256 == v % 256,
        (u / 256) % 256 == (v % 0x1_0000) / 256,
        (u / 256) % 256 == ((v % 0x100_0000) / 256) % 256,
        (u / 0x1_0000) % 256 == (v % 0x100_0000) / 0x1_0000,
{
    let b0 = u % 256;
    let b1 = (u / 256) % 256;
    let b2 = (u / 0x1_0000) % 256;
    let b3 = u / 0x100_0000;
    assert(u == b0 + 256 * b1 + 0x1_0000 * b2 + 0x100_0000 * b3);
    assert(0 <= b3 < 256);
    let k: int = if v < 0 {
        1
    } else {
        0
    };
    assert(v == u - k * 0x1_0000_0000);
    assert(v % 0x1_0000 == b0 + 256 * b1) by {
        assert(v == (b0 + 256 * b1) + 0x1_0000 * (b2 + 256 * b3 - k * 0x1_0000));
    }
    assert(v % 0x100_0000 == b0 + 256 * b1 + 0x1_0000 * b2) by {
        assert(v == (b0 + 256 * b1 + 0x1_0000 * b2) + 0x100_0000 * (b3 - k * 256));
    }
    assert(v % 256 == b0) by {
        assert(v == b0 + 256 * (b1 + 256 * b2 + 0x1_0000 * b3 - k * 0x100_0000));
    }
}

/// Appends the bytes of one sample.
#[verifier::rlimit(40)]
fn push_sample(out: &mut Vec<u8>, v: i32, bits: u16)
    requires
        is_depth(bits),
    ensures
        final(out)@ == old(out)@ + sample_bytes(v, bits),
{
    let u = unsigned(v);
    proof {
        lemma_low_bytes(v as int, u as int);
    }
    if bits == 8 {
        out.push(((u % 256 + 128) % 256) as u8);
        assert((v + 128) % 256 == (v % 256 + 128) % 256);
    } else if bits == 16 {
        out.push((u % 256) as u8);
        out.push(((u / 256) % 256) as u8);
    } else {
        out.push((u % 256) as u8);
        out.push(((u / 256) % 256) as u8);
        out.push(((u / 0x1_0000) % 256) as u8);
    }
    assert(out@ =~= old(out)@ + sample_bytes(v, bits));
}

/// Interleaves the channels into bytes: the samples of all channels in
/// turn.
pub fn interleave_pcm_bytes(channels: &[Vec<i32>], bits_per_sample: u16) -> (r: Result<Vec<u8>>)
    ensures
        match interleaved_bytes(contents(channels@), bits_per_sample) {
            Ok(bytes) => r is Ok && r->Ok_0@ == bytes,
            Err(e) => r == Err::<Vec<u8>, Error>(e),
        },
{
    let ghost chs = contents(channels@);
    let n: usize = if channels.len() == 0 {
        0
    } else {
        channels[0].len()
    };
    assert(n == channel_len(chs));
    let mut k: usize = 0;
    while k < channels.len()
        invariant
            k <= channels@.len(),
            chs == contents(channels@),
            n == channel_len(chs),
            forall|c: int| 0 <= c < k ==> (#[trigger] chs[c]).len() == n,
        decreases channels@.len() - k,
    {
        if channels[k].len() != n {
            assert(chs[k as int].len() != n);
            return Err(Error::Malformed("PCM channels disagree on length"));
        }
        k = k + 1;
    }
    if bits_per_sample != 8 && bits_per_sample != 16 && bits_per_sample != 24 {
        return Err(Error::Malformed("bits-per-sample outside the staged {8, 16, 24} set"));
    }
    let mut out: Vec<u8> = Vec::new();
    let mut i: usize = 0;
    while i < n
        invariant
            i <= n,
            chs == contents(channels@),
            n == channel_len(chs),
            is_depth(bits_per_sample),
            forall|c: int| 0 <= c < chs.len() ==> (#[trigger] chs[c]).len() == n,
            out@ == interleaved(chs, bits_per_sample, i as nat),
        decreases n - i,
    {
        let ghost before = out@;
        let mut c: usize = 0;
        assert(before + block_bytes(chs, bits_per_sample, i as int, 0) =~= before);
        while c < channels.len()
            invariant
                i < n,
                c <= channels@.len(),
                chs == contents(channels@),
                is_depth(bits_per_sample),
                forall|d: int| 0 <= d < chs.len() ==> (#[trigger] chs[d]).len() == n,
                out@ == before + block_bytes(chs, bits_per_sample, i as int, c as nat),
            decreases channels@.len() - c,
        {
            let ghost mid = out@;
            assert(chs[c as int].len() == n);
            push_sample(&mut out, channels[c][i], bits_per_sample);
            assert(out@ =~= before + block_bytes(chs, bits_per_sample, i as int, c as nat + 1));
            c = c + 1;
        }
        i = i + 1;
    }
    Ok(out)
}

/// Channel `c` of interleaved bytes with `n` samples per channel.
pub open spec fn channel_from(bytes: Seq<u8>, bits: u16, channels: nat, c: int, n: nat) -> Seq<i32> {
    Seq::new(
        n,
        |i: int|
            sample_at(
                bytes,
                i * (channels * sample_len(bits)) + c * sample_len(bits),
                bits,
            ),
    )
}

/// The channels of interleaved bytes, or the reason why there are none.
pub open spec fn deinterleaved(bytes: Seq<u8>, bits: u16, channels: u16) -> Result<Seq<Seq<i32>>> {
    if !is_depth(bits) {
        Err(Error::InvalidInput("bits per sample outside {8, 16, 24}"))
    } else if channels == 0 {
        Err(Error::InvalidInput("channel count must be non-zero"))
    } else {
        let block = channels as nat * sample_len(bits);
        if bytes.len() % block != 0 {
            Err(Error::InvalidInput("PCM bytes do not hold whole sample frames"))
        } else {
            Ok(
                Seq::new(
                    channels as nat,
                    |c: int| channel_from(bytes, bits, channels as nat, c, bytes.len() / block),
                ),
            )
        }
    }
}

/// The sample whose bytes start at `at`.
fn read_sample(bytes: &[u8], at: usize, bits: u16) -> (r: i32)
    requires
        is_depth(bits),
        at + sample_len(bits) <= bytes@.len(),
    ensures
        r == sample_at(bytes@, at as int, bits),
{
    assert(bytes@.len() == bytes.len());
    if bits == 8 {
        bytes[at] as i32 - 128
    } else if bits == 16 {
        let u: i32 = bytes[at] as i32 + 256 * (bytes[at + 1] as i32);
        if u >= 0x8000 {
            u - 0x1_0000
        } else {
            u
        }
    } else {
        let u: i32 = bytes[at] as i32 + 256 * (bytes[at + 1] as i32) + 0x1_0000 * (bytes[at
            + 2] as i32);
        if u >= 0x80_0000 {
            u - 0x100_0000
        } else {
            u
        }
    }
}

/// Sample `i` of channel `c` lies inside the bytes.
proof fn lemma_sample_inside(len: nat, size: nat, channels: nat, c: int, i: int, n: nat)
    requires
        size > 0,
        0 <= c < channels,
        0 <= i < n,
        n == len / (channels * size),
        channels * size > 0,
    ensures
        0 <= i * (channels * size) + c * size,
        i * (channels * size) + c * size + size <= len,
{
    let block = channels * size;
    vstd::arithmetic::div_mod::lemma_fundamental_div_mod(len as int, block as int);
    vstd::arithmetic::div_mod::lemma_mod_bound(len as int, block as int);
    assert((i + 1) * block <= n * block) by (nonlinear_arith)
        requires
            i + 1 <= n,
            block > 0,
    ;
    assert((i + 1) * block == i * block + block) by (nonlinear_arith);
    assert((c + 1) * size <= channels * size) by (nonlinear_arith)
        requires
            c + 1 <= channels,
            size > 0,
    ;
    assert((c + 1) * size == c * size + size) by (nonlinear_arith);
    assert(n * block == block * n) by (nonlinear_arith);
    assert(i * block >= 0) by (nonlinear_arith)
        requires
            i >= 0,
            block > 0,
    ;
    assert(c * size >= 0) by (nonlinear_arith)
        requires
            c >= 0,
            size > 0,
    ;
}

/// Takes interleaved bytes apart into channels. They have to hold a whole
/// number of samples for every channel.
pub fn deinterleave_pcm_bytes(bytes: &[u8], bits_per_sample: u16, channels: u16) -> (r: Result<
    Vec<Vec<i32>>,
>)
    ensures
        match deinterleaved(bytes@, bits_per_sample, channels) {
            Ok(chs) => r is Ok && contents(r->Ok_0@) == chs,
            Err(e) => r == Err::<Vec<Vec<i32>>, Error>(e),
        },
{
    if bits_per_sample != 8 && bits_per_sample != 16 && bits_per_sample != 24 {
        return Err(Error::InvalidInput("bits per sample outside {8, 16, 24}"));
    }
    if channels == 0 {
        return Err(Error::InvalidInput("channel count must be non-zero"));
    }
    let size: usize = (bits_per_sample / 8) as usize;
    assert(0 < channels * size <= 0xFFFF * 3) by (nonlinear_arith)
        requires
            1 <= channels <= 0xFFFF,
            1 <= size <= 3,
    ;
    let block: usize = channels as usize * size;
    if bytes.len() % block != 0 {
        return Err(Error::InvalidInput("PCM bytes do not hold whole sample frames"));
    }
    let n: usize = bytes.len() / block;
    let ghost whole = deinterleaved(bytes@, bits_per_sample, channels)->Ok_0;
    let mut out: Vec<Vec<i32>> = Vec::new();
    let mut c: usize = 0;
    assert(whole.take(0) =~= Seq::<Seq<i32>>::empty());
    assert(contents(out@) =~= Seq::<Seq<i32>>::empty());
    while c < channels as usize
        invariant
            c <= channels,
            is_depth(bits_per_sample),
            size == sample_len(bits_per_sample),
            1 <= size <= 3,
            block == channels * size,
            0 < block,
            n == bytes@.len() as nat / block as nat,
            whole == Seq::new(
                channels as nat,
                |d: int| channel_from(bytes@, bits_per_sample, channels as nat, d, n as nat),
            ),
            contents(out@) == whole.take(c as int),
        decreases channels - c,
    {
        let ghost before = contents(out@);
        let ghost want = channel_from(bytes@, bits_per_sample, channels as nat, c as int, n as nat);
        let mut ch: Vec<i32> = Vec::new();
        let mut i: usize = 0;
        while i < n
            invariant
                i <= n,
                c < channels,
                is_depth(bits_per_sample),
                size == sample_len(bits_per_sample),
                1 <= size <= 3,
                block == channels * size,
                0 < block,
                n == bytes@.len() as nat / block as nat,
                want == channel_from(
                    bytes@,
                    bits_per_sample,
                    channels as nat,
                    c as int,
                    n as nat,
                ),
                ch@ == want.take(i as int),
            decreases n - i,
        {
            proof {
                lemma_sample_inside(
                    bytes@.len(),
                    size as nat,
                    channels as nat,
                    c as int,
                    i as int,
                    n as nat,
                );
                assert(i * block >= 0 && c * size >= 0) by (nonlinear_arith)
                    requires
                        i >= 0,
                        block >= 0,
                        c >= 0,
                        size >= 0,
                ;
                assert(bytes@.len() == bytes.len());
            }
            let at: usize = i * block + c * size;
            let v = read_sample(bytes, at, bits_per_sample);
            ch.push(v);
            assert(ch@ =~= want.take(i as int + 1));
            i = i + 1;
        }
        assert(want.take(n as int) =~= want);
        out.push(ch);
        assert(contents(out@) =~= before.push(want));
        assert(whole.take(c as int + 1) =~= before.push(want));
        c = c + 1;
    }
    assert(whole.take(c as int) =~= whole);
    Ok(out)
}

// ---------------------------------------------------------------------
// Laws of the byte layout
// ---------------------------------------------------------------------

/// The bytes of a sample that fits give it back.
proof fn lemma_sample_back(v: i32, bits: u16, s: Seq<u8>, at: int)
    requires
        is_depth(bits),
        fits_depth(v, bits),
        0 <= at,
        at + sample_len(bits) <= s.len(),
        s.subrange(at, at + sample_len(bits)) == sample_bytes(v, bits),
    ensures
        sample_at(s, at, bits) == v,
{
    let sub = s.subrange(at, at + sample_len(bits));
    assert(sub[0] == s[at]);
    if bits != 8 {
        assert(sub[1] == s[at + 1]);
        if bits == 24 {
            assert(sub[2] == s[at + 2]);
        }
    }
}

/// A sample gives its bytes back.
proof fn lemma_bytes_back(bits: u16, s: Seq<u8>, at: int)
    requires
        is_depth(bits),
        0 <= at,
        at + sample_len(bits) <= s.len(),
    ensures
        sample_bytes(sample_at(s, at, bits), bits) == s.subrange(at, at + sample_len(bits)),
        fits_depth(sample_at(s, at, bits), bits),
{
    let sub = s.subrange(at, at + sample_len(bits));
    let v = sample_at(s, at, bits);
    if bits == 8 {
        assert(sample_bytes(v, bits) =~= sub);
    } else if bits == 16 {
        let u = s[at] + 256 * s[at + 1];
        assert(v as int % 0x1_0000 == u);
        assert(sample_bytes(v, bits) =~= sub);
    } else {
        let u = s[at] + 256 * s[at + 1] + 0x1_0000 * s[at + 2];
        assert(v as int % 0x100_0000 == u);
        assert((u / 256) % 256 == s[at + 1]);
        assert(u / 0x1_0000 == s[at + 2]);
        assert(sample_bytes(v, bits) =~= sub);
    }
}

proof fn lemma_block_len(channels: Seq<Seq<i32>>, bits: u16, i: int, c: nat)
    requires
        is_depth(bits),
    ensures
        block_bytes(channels, bits, i, c).len() == c * sample_len(bits),
    decreases c,
{
    if c == 0 {
        assert(0 * sample_len(bits) == 0) by (nonlinear_arith);
    } else {
        lemma_block_len(channels, bits, i, (c - 1) as nat);
        assert(c * sample_len(bits) == (c - 1) * sample_len(bits) + sample_len(bits))
            by (nonlinear_arith);
    }
}

/// The length of interleaved samples.
pub proof fn lemma_interleaved_len(channels: Seq<Seq<i32>>, bits: u16, n: nat)
    requires
        is_depth(bits),
    ensures
        interleaved(channels, bits, n).len() == n * (channels.len() * sample_len(bits)),
    decreases n,
{
    if n == 0 {
        assert(0 * (channels.len() * sample_len(bits)) == 0) by (nonlinear_arith);
    } else {
        lemma_interleaved_len(channels, bits, (n - 1) as nat);
        lemma_block_len(channels, bits, n - 1, channels.len());
        let b = channels.len() * sample_len(bits);
        assert(n * b == (n - 1) * b + b) by (nonlinear_arith);
    }
}

/// Where the bytes of a sample are within a block.
proof fn lemma_block_part(channels: Seq<Seq<i32>>, bits: u16, i: int, c: int, count: nat)
    requires
        is_depth(bits),
        0 <= c < count,
    ensures
        ({
            let size = sample_len(bits);
            let b = block_bytes(channels, bits, i, count);
            &&& 0 <= c * size
            &&& c * size + size <= b.len()
            &&& b.subrange(c * size, c * size + size) == sample_bytes(channels[c][i], bits)
        }),
    decreases count,
{
    let size = sample_len(bits);
    let b = block_bytes(channels, bits, i, count);
    let head = block_bytes(channels, bits, i, (count - 1) as nat);
    let tail = sample_bytes(channels[count - 1][i], bits);
    lemma_block_len(channels, bits, i, (count - 1) as nat);
    lemma_block_len(channels, bits, i, count);
    assert(c * size >= 0) by (nonlinear_arith)
        requires
            c >= 0,
            size >= 0,
    ;
    assert(count * size == (count - 1) * size + size) by (nonlinear_arith);
    if c == count - 1 {
        assert(b.subrange(c * size, c * size + size) =~= tail);
    } else {
        lemma_block_part(channels, bits, i, c, (count - 1) as nat);
        assert(b.subrange(c * size, c * size + size) =~= head.subrange(
            c * size,
            c * size + size,
        ));
    }
}

/// Where the bytes of a sample are.
proof fn lemma_interleaved_part(channels: Seq<Seq<i32>>, bits: u16, i: int, c: int, n: nat)
    requires
        is_depth(bits),
        0 <= c < channels.len(),
        0 <= i < n,
    ensures
        ({
            let size = sample_len(bits);
            let at = i * (channels.len() * size) + c * size;
            let s = interleaved(channels, bits, n);
            &&& 0 <= at
            &&& at + size <= s.len()
            &&& s.subrange(at, at + size) == sample_bytes(channels[c][i], bits)
        }),
    decreases n,
{
    let size = sample_len(bits);
    let block = channels.len() * size;
    let at = i * block + c * size;
    let s = interleaved(channels, bits, n);
    let head = interleaved(channels, bits, (n - 1) as nat);
    let tail = block_bytes(channels, bits, n - 1, channels.len());
    lemma_interleaved_len(channels, bits, (n - 1) as nat);
    lemma_block_part(channels, bits, i, c, channels.len());
    if i == n - 1 {
        assert(i * block >= 0) by (nonlinear_arith)
            requires
                i >= 0,
                block >= 0,
        ;
        assert(s.subrange(at, at + size) =~= tail.subrange(c * size, c * size + size));
    } else {
        lemma_interleaved_part(channels, bits, i, c, (n - 1) as nat);
        assert(s.subrange(at, at + size) =~= head.subrange(at, at + size));
    }
}

/// Taking interleaved channels apart gives the channels back, if their
/// samples fit the bit depth.
pub proof fn law_deinterleave_interleaved(channels: Seq<Seq<i32>>, bits: u16)
    requires
        is_depth(bits),
        1 <= channels.len() <= u16::MAX,
        same_lengths(channels),
        all_fit(channels, bits),
    ensures
        deinterleaved(
            interleaved(channels, bits, channel_len(channels)),
            bits,
            channels.len() as u16,
        ) == Ok::<Seq<Seq<i32>>, Error>(channels),
{
    let n = channel_len(channels);
    let s = interleaved(channels, bits, n);
    let size = sample_len(bits);
    let block = channels.len() * size;
    lemma_interleaved_len(channels, bits, n);
    assert(block > 0) by (nonlinear_arith)
        requires
            block == channels.len() * size,
            channels.len() >= 1,
            size >= 1,
    ;
    vstd::arithmetic::div_mod::lemma_mod_multiples_basic(n as int, block as int);
    vstd::arithmetic::div_mod::lemma_div_multiples_vanish(n as int, block as int);
    assert(n * block == block * n) by (nonlinear_arith);
    let out = deinterleaved(s, bits, channels.len() as u16)->Ok_0;
    assert forall|c: int| 0 <= c < channels.len() implies #[trigger] out[c] == channels[c] by {
        let ch = channel_from(s, bits, channels.len(), c, n);
        assert(channels[c].len() == n);
        assert forall|i: int| 0 <= i < n implies ch[i] == channels[c][i] by {
            lemma_interleaved_part(channels, bits, i, c, n);
            assert(fits_depth(channels[c][i], bits));
            lemma_sample_back(channels[c][i], bits, s, i * block + c * size);
        }
        assert(ch =~= channels[c]);
    }
    assert(out =~= channels);
}

/// The first `c` samples of a block of bytes.
proof fn lemma_block_rebuilt(
    bytes: Seq<u8>,
    channels: Seq<Seq<i32>>,
    bits: u16,
    i: int,
    c: nat,
    n: nat,
)
    requires
        is_depth(bits),
        c <= channels.len(),
        0 <= i < n,
        n == bytes.len() / (channels.len() * sample_len(bits)),
        channels.len() > 0,
        forall|d: int|
            0 <= d < channels.len() ==> #[trigger] channels[d] == channel_from(
                bytes,
                bits,
                channels.len(),
                d,
                n,
            ),
    ensures
        ({
            let block = channels.len() * sample_len(bits);
            &&& 0 <= i * block
            &&& i * block + c * sample_len(bits) <= bytes.len()
            &&& block_bytes(channels, bits, i, c) == bytes.subrange(
                i * block,
                i * block + c * sample_len(bits),
            )
        }),
    decreases c,
{
    let size = sample_len(bits);
    let block = channels.len() * size;
    assert(block > 0) by (nonlinear_arith)
        requires
            block == channels.len() * size,
            channels.len() >= 1,
            size >= 1,
    ;
    lemma_sample_inside(bytes.len(), size, channels.len(), 0, i, n);
    if c == 0 {
        assert(block_bytes(channels, bits, i, 0) =~= bytes.subrange(i * block, i * block));
    } else {
        lemma_block_rebuilt(bytes, channels, bits, i, (c - 1) as nat, n);
        lemma_sample_inside(bytes.len(), size, channels.len(), c - 1, i, n);
        let at = i * block + (c - 1) * size;
        lemma_bytes_back(bits, bytes, at);
        assert(c * size == (c - 1) * size + size) by (nonlinear_arith);
        assert((c - 1) * size >= 0) by (nonlinear_arith)
            requires
                c >= 1,
                size >= 0,
        ;
        assert(channels[c - 1][i] == sample_at(bytes, at, bits));
        assert(bytes.subrange(i * block, at) + bytes.subrange(at, at + size) =~= bytes.subrange(
            i * block,
            i * block + c * size,
        ));
    }
}

proof fn lemma_rebuilt(bytes: Seq<u8>, channels: Seq<Seq<i32>>, bits: u16, k: nat, n: nat)
    requires
        is_depth(bits),
        k <= n,
        n == bytes.len() / (channels.len() * sample_len(bits)),
        channels.len() > 0,
        forall|d: int|
            0 <= d < channels.len() ==> #[trigger] channels[d] == channel_from(
                bytes,
                bits,
                channels.len(),
                d,
                n,
            ),
    ensures
        ({
            let block = channels.len() * sample_len(bits);
            &&& 0 <= k * block <= bytes.len()
            &&& interleaved(channels, bits, k) == bytes.take((k * block) as int)
        }),
    decreases k,
{
    let block = channels.len() * sample_len(bits);
    if k == 0 {
        assert(0 * block == 0) by (nonlinear_arith);
        assert(interleaved(channels, bits, 0) =~= bytes.take(0));
    } else {
        lemma_rebuilt(bytes, channels, bits, (k - 1) as nat, n);
        lemma_block_rebuilt(bytes, channels, bits, k - 1, channels.len(), n);
        assert(k * block == (k - 1) * block + block) by (nonlinear_arith);
        assert(bytes.take((k - 1) * block) + bytes.subrange(
            (k - 1) * block,
            (k - 1) * block + block,
        ) =~= bytes.take((k * block) as int));
    }
}

/// Interleaving the channels of interleaved bytes gives the bytes back.
pub proof fn law_interleave_deinterleaved(bytes: Seq<u8>, bits: u16, channels: u16)
    requires
        deinterleaved(bytes, bits, channels) is Ok,
    ensures
        ({
            let chs = deinterleaved(bytes, bits, channels)->Ok_0;
            &&& chs.len() == channels
            &&& same_lengths(chs)
            &&& all_fit(chs, bits)
            &&& interleaved(chs, bits, channel_len(chs)) == bytes
        }),
{
    let chs = deinterleaved(bytes, bits, channels)->Ok_0;
    let size = sample_len(bits);
    let block = channels as nat * size;
    assert(block > 0) by (nonlinear_arith)
        requires
            block == channels * size,
            channels >= 1,
            size >= 1,
    ;
    let n = bytes.len() / block;
    assert(chs[0].len() == n);
    assert forall|c: int, i: int| 0 <= c < chs.len() && 0 <= i < chs[c].len() implies fits_depth(
        #[trigger] chs[c][i],
        bits,
    ) by {
        lemma_sample_inside(bytes.len(), size, channels as nat, c, i, n);
        lemma_bytes_back(bits, bytes, i * block + c * size);
    }
    lemma_rebuilt(bytes, chs, bits, n, n);
    vstd::arithmetic::div_mod::lemma_fundamental_div_mod(bytes.len() as int, block as int);
    assert(n * block == block * n) by (nonlinear_arith);
    assert(bytes.take((n * block) as int) =~= bytes);
}

} // verus!
