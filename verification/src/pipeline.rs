//! The order in which a frame is taken apart and put together: unpack the
//! array of every channel, filter each array, and for stereo undo the
//! channel correlation; or the same backwards.
//!
//! Where the arrays come from and what filters them is up to the caller.

use vstd::prelude::*;

use crate::cascade::{zero_vec, zeros};
use crate::decorrelate::{
    decorrelate_pair, decorrelate_pair_arith_shift, decorrelated, decorrelated_shift,
    law_correlation_round_trip, length_mismatch, reconstruct_block, reconstruct_block_arith_shift,
    reconstructed, reconstructed_shift,
};
use crate::error::{Error, Result};

verus! {

/// Channels of a frame.
#[derive(Debug, Clone, Copy, PartialEq, Eq, Hash, Structural)]
pub enum FrameChannels {
    /// One array.
    Mono,
    /// Two arrays, correlated.
    Stereo,
}

impl FrameChannels {
    /// The number of arrays.
    pub open spec fn arrays(self) -> nat {
        match self {
            FrameChannels::Mono => 1,
            FrameChannels::Stereo => 2,
        }
    }

    /// The number of arrays.
    pub fn count(self) -> (r: usize)
        ensures
            r == self.arrays(),
    {
        match self {
            FrameChannels::Mono => 1,
            FrameChannels::Stereo => 2,
        }
    }
}

/// How an odd negative difference is halved.
#[derive(Debug, Clone, Copy, PartialEq, Eq, Hash, Structural)]
pub enum CorrelationRounding {
    /// Toward zero.
    TruncatingDiv,
    /// Downward.
    ArithShift,
}

impl Default for CorrelationRounding {
    /// Toward zero.
    fn default() -> (r: Self)
        ensures
            r == CorrelationRounding::TruncatingDiv,
    {
        CorrelationRounding::TruncatingDiv
    }
}

/// Where the arrays of a frame come from.
pub trait DeltaSource: Sized {
    /// A call of [`DeltaSource::unpack_deltas`] may turn the buffer
    /// `before` into `after` with this outcome and leave the source as
    /// `next`. A source that says nothing here may do anything.
    open spec fn unpacks(
        self,
        channel: usize,
        before: Seq<i32>,
        outcome: Result<()>,
        after: Seq<i32>,
        next: Self,
    ) -> bool {
        true
    }

    /// Fills `out` with the array of `channel`.
    fn unpack_deltas(&mut self, channel: usize, out: &mut [i32]) -> (r: Result<()>)
        ensures
            old(self).unpacks(channel, old(out)@, r, final(out)@, *final(self)),
    ;
}

/// Where the arrays of a frame go to.
pub trait DeltaSink: Sized {
    /// A call of [`DeltaSink::pack_deltas`] may have this outcome and
    /// leave the sink as `next`. A sink that says nothing here may do
    /// anything.
    open spec fn packs(
        self,
        channel: usize,
        deltas: Seq<i32>,
        outcome: Result<()>,
        next: Self,
    ) -> bool {
        true
    }

    /// Takes the array of `channel`.
    fn pack_deltas(&mut self, channel: usize, deltas: &[i32]) -> (r: Result<()>)
        ensures
            old(self).packs(channel, deltas@, r, *final(self)),
    ;
}

// ---------------------------------------------------------------------
// Correlation of whole arrays
// ---------------------------------------------------------------------

/// The contents of the vectors.
pub open spec fn contents(v: Seq<Vec<i32>>) -> Seq<Seq<i32>> {
    v.map_values(|a: Vec<i32>| a@)
}

/// `(left, right)` of a pair.
pub open spec fn pair_up(x: i32, y: i32, rounding: CorrelationRounding) -> (i32, i32) {
    match rounding {
        CorrelationRounding::TruncatingDiv => reconstructed(x, y),
        CorrelationRounding::ArithShift => reconstructed_shift(x, y),
    }
}

/// `(x, y)` of a pair of channels.
pub open spec fn pair_down(l: i32, r: i32, rounding: CorrelationRounding) -> (i32, i32) {
    match rounding {
        CorrelationRounding::TruncatingDiv => decorrelated(l, r),
        CorrelationRounding::ArithShift => decorrelated_shift(l, r),
    }
}

/// The channels that filtered arrays of `n` values stand for.
pub open spec fn correlated(
    arrays: Seq<Seq<i32>>,
    channels: FrameChannels,
    n: nat,
    rounding: CorrelationRounding,
) -> Result<Seq<Seq<i32>>> {
    match channels {
        FrameChannels::Mono => Ok(arrays),
        FrameChannels::Stereo => {
            let x = arrays[0];
            let y = arrays[1];
            if x.len() == n && y.len() == n {
                Ok(
                    seq![
                        Seq::new(n, |i: int| pair_up(x[i], y[i], rounding).0),
                        Seq::new(n, |i: int| pair_up(x[i], y[i], rounding).1),
                    ],
                )
            } else {
                Err(length_mismatch(x.len(), y.len(), n, n))
            }
        },
    }
}

/// The arrays that channels are coded as, before filtering.
pub open spec fn uncorrelated(
    input: Seq<Seq<i32>>,
    channels: FrameChannels,
    rounding: CorrelationRounding,
) -> Seq<Seq<i32>> {
    match channels {
        FrameChannels::Mono => seq![input[0]],
        FrameChannels::Stereo => {
            let l = input[0];
            let r = input[1];
            seq![
                Seq::new(l.len(), |i: int| pair_down(l[i], r[i], rounding).0),
                Seq::new(l.len(), |i: int| pair_down(l[i], r[i], rounding).1),
            ]
        },
    }
}

/// Undoing the correlation of correlated channels gives them back.
pub proof fn law_channels_round_trip(
    input: Seq<Seq<i32>>,
    channels: FrameChannels,
    rounding: CorrelationRounding,
)
    requires
        input.len() == channels.arrays(),
        channels == FrameChannels::Stereo ==> input[0].len() == input[1].len(),
    ensures
        correlated(
            uncorrelated(input, channels, rounding),
            channels,
            input[0].len(),
            rounding,
        ) == Ok::<Seq<Seq<i32>>, Error>(input),
{
    match channels {
        FrameChannels::Mono => {
            assert(seq![input[0]] =~= input);
        },
        FrameChannels::Stereo => {
            let l = input[0];
            let r = input[1];
            let x = uncorrelated(input, channels, rounding)[0];
            let y = uncorrelated(input, channels, rounding)[1];
            assert forall|i: int| 0 <= i < l.len() implies #[trigger] pair_up(x[i], y[i], rounding)
                == (l[i], r[i]) by {
                law_correlation_round_trip(l[i], r[i]);
            }
            let out = correlated(
                uncorrelated(input, channels, rounding),
                channels,
                l.len(),
                rounding,
            )->Ok_0;
            assert(out[0] =~= l);
            assert(out[1] =~= r);
            assert(out =~= input);
        },
    }
}

/// Undoes the channel correlation of filtered arrays of `frame_len`
/// values.
pub fn correlate_channels(
    arrays: Vec<Vec<i32>>,
    channels: FrameChannels,
    frame_len: usize,
    rounding: CorrelationRounding,
) -> (r: Result<Vec<Vec<i32>>>)
    requires
        arrays@.len() == channels.arrays(),
    ensures
        match correlated(contents(arrays@), channels, frame_len as nat, rounding) {
            Ok(out) => r is Ok && contents(r->Ok_0@) == out,
            Err(e) => r == Err::<Vec<Vec<i32>>, Error>(e),
        },
{
    match channels {
        FrameChannels::Mono => Ok(arrays),
        FrameChannels::Stereo => {
            let mut left = zero_vec(frame_len);
            let mut right = zero_vec(frame_len);
            let x = arrays[0].as_slice();
            let y = arrays[1].as_slice();
            let res = match rounding {
                CorrelationRounding::TruncatingDiv => reconstruct_block(
                    x,
                    y,
                    left.as_mut_slice(),
                    right.as_mut_slice(),
                ),
                CorrelationRounding::ArithShift => reconstruct_block_arith_shift(
                    x,
                    y,
                    left.as_mut_slice(),
                    right.as_mut_slice(),
                ),
            };
            match res {
                Err(e) => Err(e),
                Ok(_) => {
                    let ghost out = correlated(
                        contents(arrays@),
                        channels,
                        frame_len as nat,
                        rounding,
                    )->Ok_0;
                    proof {
                        assert forall|k: int| 0 <= k < frame_len implies left@[k] == out[0][k]
                            && right@[k] == out[1][k] by {
                            assert((left@[k], right@[k]) == pair_up(x@[k], y@[k], rounding));
                        }
                        assert(left@ =~= out[0]);
                        assert(right@ =~= out[1]);
                    }
                    let mut r: Vec<Vec<i32>> = Vec::new();
                    r.push(left);
                    r.push(right);
                    assert(contents(r@) =~= out);
                    Ok(r)
                },
            }
        },
    }
}

/// The arrays that channels are coded as, before filtering.
pub fn decorrelate_channels(
    input: &[Vec<i32>],
    channels: FrameChannels,
    rounding: CorrelationRounding,
) -> (r: Vec<Vec<i32>>)
    requires
        input@.len() == channels.arrays(),
        channels == FrameChannels::Stereo ==> input@[0]@.len() <= input@[1]@.len(),
    ensures
        contents(r@) == uncorrelated(contents(input@), channels, rounding),
{
    let mut r: Vec<Vec<i32>> = Vec::new();
    match channels {
        FrameChannels::Mono => {
            r.push(vstd::slice::slice_to_vec(input[0].as_slice()));
        },
        FrameChannels::Stereo => {
            let l = &input[0];
            let right = &input[1];
            let mut x: Vec<i32> = Vec::new();
            let mut y: Vec<i32> = Vec::new();
            let mut i: usize = 0;
            while i < l.len()
                invariant
                    i <= l@.len() <= right@.len(),
                    x@.len() == i,
                    y@.len() == i,
                    forall|k: int|
                        0 <= k < i ==> (#[trigger] x@[k], y@[k]) == pair_down(
                            l@[k],
                            right@[k],
                            rounding,
                        ),
                decreases l@.len() - i,
            {
                let (xi, yi) = match rounding {
                    CorrelationRounding::TruncatingDiv => decorrelate_pair(l[i], right[i]),
                    CorrelationRounding::ArithShift => decorrelate_pair_arith_shift(l[i], right[i]),
                };
                x.push(xi);
                y.push(yi);
                i = i + 1;
            }
            let ghost out = uncorrelated(contents(input@), channels, rounding);
            proof {
                assert forall|k: int| 0 <= k < l@.len() implies x@[k] == out[0][k] && y@[k]
                    == out[1][k] by {
                    assert((x@[k], y@[k]) == pair_down(l@[k], right@[k], rounding));
                }
                assert(x@ =~= out[0]);
                assert(y@ =~= out[1]);
            }
            r.push(x);
            r.push(y);
        },
    }
    assert(contents(r@) =~= uncorrelated(contents(input@), channels, rounding));
    r
}

// ---------------------------------------------------------------------
// Frames
// ---------------------------------------------------------------------

/// `filter` can be called on every array.
pub open spec fn filter_callable<F: FnMut(usize, &mut [i32]) -> Result<()>>(filter: F) -> bool {
    forall|ch: usize, o: &mut [i32]| call_requires(filter, (ch, o))
}

/// Unpacks the array of one channel into a buffer of `n` zeros.
fn unpack_array<S: DeltaSource>(source: &mut S, ch: usize, n: usize) -> (r: Result<Vec<i32>>)
    ensures
        match r {
            Ok(a) => old(source).unpacks(
                ch,
                zeros(n as nat),
                Ok::<(), Error>(()),
                a@,
                *final(source),
            ),
            Err(e) => exists|junk: Seq<i32>|
                old(source).unpacks(
                    ch,
                    zeros(n as nat),
                    Err::<(), Error>(e),
                    junk,
                    *final(source),
                ),
        },
{
    let mut buf = zero_vec(n);
    match source.unpack_deltas(ch, buf.as_mut_slice()) {
        Err(e) => Err(e),
        Ok(done) => {
            assert(done == ());
            Ok(buf)
        },
    }
}

/// Filters one array in place.
fn filter_array<F: FnMut(usize, &mut [i32]) -> Result<()>>(
    filter: &mut F,
    ch: usize,
    array: &mut Vec<i32>,
) -> (r: Result<()>)
    requires
        filter_callable(*old(filter)),
    ensures
        *final(filter) == *old(filter),
        exists|o: &mut [i32]|
            call_ensures(*old(filter), (ch, o), r) && o@ == old(array)@
                && final(o)@ == final(array)@,
{
    filter(ch, array.as_mut_slice())
}

/// Unpacking all arrays of a frame from a source that was `first` may
/// have this outcome and leave the source as `last`. Channel 0 comes
/// first, and an error ends it.
pub open spec fn unpacked<S: DeltaSource>(
    first: S,
    channels: FrameChannels,
    n: nat,
    outcome: Result<Seq<Seq<i32>>>,
    last: S,
) -> bool {
    let ok = Ok::<(), Error>(());
    match (channels, outcome) {
        (FrameChannels::Mono, Ok(arrays)) => arrays.len() == 1 && first.unpacks(
            0,
            zeros(n),
            ok,
            arrays[0],
            last,
        ),
        (FrameChannels::Mono, Err(e)) => exists|junk: Seq<i32>|
            first.unpacks(0, zeros(n), Err::<(), Error>(e), junk, last),
        (FrameChannels::Stereo, Ok(arrays)) => arrays.len() == 2 && exists|mid: S|
            #[trigger] first.unpacks(0, zeros(n), ok, arrays[0], mid) && mid.unpacks(
                1,
                zeros(n),
                ok,
                arrays[1],
                last,
            ),
        (FrameChannels::Stereo, Err(e)) => {
            ||| exists|junk: Seq<i32>|
                first.unpacks(0, zeros(n), Err::<(), Error>(e), junk, last)
            ||| exists|mid: S, x: Seq<i32>, junk: Seq<i32>|
                #[trigger] first.unpacks(0, zeros(n), ok, x, mid) && #[trigger] mid.unpacks(
                    1,
                    zeros(n),
                    Err::<(), Error>(e),
                    junk,
                    last,
                )
        },
    }
}

/// Unpacks all arrays of a frame.
fn unpack_all<S: DeltaSource>(source: &mut S, channels: FrameChannels, n: usize) -> (r: Result<
    Vec<Vec<i32>>,
>)
    ensures
        match r {
            Ok(arrays) => arrays@.len() == channels.arrays() && unpacked(
                *old(source),
                channels,
                n as nat,
                Ok::<Seq<Seq<i32>>, Error>(contents(arrays@)),
                *final(source),
            ),
            Err(e) => unpacked(
                *old(source),
                channels,
                n as nat,
                Err::<Seq<Seq<i32>>, Error>(e),
                *final(source),
            ),
        },
{
    let mut arrays: Vec<Vec<i32>> = Vec::new();
    let x = match unpack_array(source, 0, n) {
        Err(e) => {
            return Err(e);
        },
        Ok(a) => a,
    };
    let ghost mid = *source;
    let ghost first = x@;
    arrays.push(x);
    match channels {
        FrameChannels::Mono => {},
        FrameChannels::Stereo => {
            let y = match unpack_array(source, 1, n) {
                Err(e) => {
                    return Err(e);
                },
                Ok(a) => a,
            };
            let ghost second = y@;
            arrays.push(y);
            assert(contents(arrays@)[1] == second);
            assert(mid.unpacks(
                1,
                zeros(n as nat),
                Ok::<(), Error>(()),
                contents(arrays@)[1],
                *source,
            ));
        },
    }
    assert(contents(arrays@)[0] == first);
    assert(old(source).unpacks(0, zeros(n as nat), Ok::<(), Error>(()), contents(arrays@)[0], mid));
    Ok(arrays)
}

/// Decodes one frame of `frame_len` values per channel: unpacks all
/// arrays, channel 0 first, then filters each, then undoes the channel
/// correlation. The first error that occurs ends the frame.
pub fn decode_frame<S, F>(
    source: &mut S,
    channels: FrameChannels,
    frame_len: usize,
    filter: F,
    rounding: CorrelationRounding,
) -> (r: Result<Vec<Vec<i32>>>) where S: DeltaSource, F: FnMut(usize, &mut [i32]) -> Result<()>
    requires
        filter_callable(filter),
    ensures
        exists|arrays: Result<Seq<Seq<i32>>>|
            {
                &&& #[trigger] unpacked(
                    *old(source),
                    channels,
                    frame_len as nat,
                    arrays,
                    *final(source),
                )
                &&& match (arrays, channels) {
                    (Err(e), _) => r == Err::<Vec<Vec<i32>>, Error>(e),
                    (Ok(a), FrameChannels::Mono) => exists|o: &mut [i32], r0: Result<()>|
                        {
                            &&& #[trigger] call_ensures(filter, (0usize, o), r0)
                            &&& o@ == a[0]
                            &&& match r0 {
                                Err(e) => r == Err::<Vec<Vec<i32>>, Error>(e),
                                Ok(_) => r is Ok && contents(r->Ok_0@) == seq![final(o)@],
                            }
                        },
                    (Ok(a), FrameChannels::Stereo) => exists|o: &mut [i32], r0: Result<()>|
                        {
                            &&& #[trigger] call_ensures(filter, (0usize, o), r0)
                            &&& o@ == a[0]
                            &&& match r0 {
                                Err(e) => r == Err::<Vec<Vec<i32>>, Error>(e),
                                Ok(_) => exists|p: &mut [i32], r1: Result<()>|
                                    {
                                        &&& #[trigger] call_ensures(filter, (1usize, p), r1)
                                        &&& p@ == a[1]
                                        &&& match r1 {
                                            Err(e) => r == Err::<Vec<Vec<i32>>, Error>(e),
                                            Ok(_) => match correlated(
                                                seq![final(o)@, final(p)@],
                                                channels,
                                                frame_len as nat,
                                                rounding,
                                            ) {
                                                Err(e) => r == Err::<Vec<Vec<i32>>, Error>(e),
                                                Ok(out) => r is Ok && contents(r->Ok_0@) == out,
                                            },
                                        }
                                    },
                            }
                        },
                }
            },
{
    let mut walk = filter;
    let mut arrays = match unpack_all(source, channels, frame_len) {
        Err(e) => {
            return Err(e);
        },
        Ok(arrays) => arrays,
    };
    let ghost a = contents(arrays@);
    match filter_array(&mut walk, 0, &mut arrays[0]) {
        Err(e) => {
            return Err(e);
        },
        Ok(_) => {},
    }
    match channels {
        FrameChannels::Mono => {
            assert(contents(arrays@) =~= seq![arrays@[0]@]);
            Ok(arrays)
        },
        FrameChannels::Stereo => {
            assert(arrays@[1]@ == a[1]);
            match filter_array(&mut walk, 1, &mut arrays[1]) {
                Err(e) => {
                    return Err(e);
                },
                Ok(_) => {},
            }
            assert(contents(arrays@) =~= seq![arrays@[0]@, arrays@[1]@]);
            correlate_channels(arrays, channels, frame_len, rounding)
        },
    }
}

/// Packing `arrays` into a sink that was `first` may have this outcome
/// and leave the sink as `last`. Channel 0 goes first, and an error ends
/// it.
pub open spec fn packed<K: DeltaSink>(
    first: K,
    arrays: Seq<Seq<i32>>,
    outcome: Result<()>,
    last: K,
) -> bool {
    if arrays.len() == 1 {
        first.packs(0, arrays[0], outcome, last)
    } else {
        ||| outcome is Err && first.packs(0, arrays[0], outcome, last)
        ||| exists|mid: K|
            #[trigger] first.packs(0, arrays[0], Ok::<(), Error>(()), mid) && mid.packs(
                1,
                arrays[1],
                outcome,
                last,
            )
    }
}

/// Packs all arrays of a frame.
fn pack_all<K: DeltaSink>(sink: &mut K, arrays: &Vec<Vec<i32>>) -> (r: Result<()>)
    requires
        1 <= arrays@.len() <= 2,
    ensures
        packed(*old(sink), contents(arrays@), r, *final(sink)),
{
    match sink.pack_deltas(0, arrays[0].as_slice()) {
        Err(e) => {
            return Err(e);
        },
        Ok(done) => {
            assert(done == ());
        },
    }
    assert(old(sink).packs(0, contents(arrays@)[0], Ok::<(), Error>(()), *sink));
    if arrays.len() == 2 {
        return sink.pack_deltas(1, arrays[1].as_slice());
    }
    Ok(())
}

/// Encodes one frame; the mirror of [`decode_frame`]: for stereo applies
/// the channel correlation, then filters each array, then packs all
/// arrays, channel 0 first. The first error that occurs ends the frame.
pub fn encode_frame<K, F>(
    input: &[Vec<i32>],
    sink: &mut K,
    channels: FrameChannels,
    filter: F,
    rounding: CorrelationRounding,
) -> (r: Result<()>) where K: DeltaSink, F: FnMut(usize, &mut [i32]) -> Result<()>
    requires
        input@.len() == channels.arrays(),
        channels == FrameChannels::Stereo ==> input@[0]@.len() <= input@[1]@.len(),
        filter_callable(filter),
    ensures
        ({
            let a = uncorrelated(contents(input@), channels, rounding);
            exists|o: &mut [i32], r0: Result<()>|
                {
                    &&& #[trigger] call_ensures(filter, (0usize, o), r0)
                    &&& o@ == a[0]
                    &&& match (r0, channels) {
                        (Err(e), _) => r == r0 && *final(sink) == *old(sink),
                        (Ok(_), FrameChannels::Mono) => packed(
                            *old(sink),
                            seq![final(o)@],
                            r,
                            *final(sink),
                        ),
                        (Ok(_), FrameChannels::Stereo) => exists|p: &mut [i32], r1: Result<()>|
                            {
                                &&& #[trigger] call_ensures(filter, (1usize, p), r1)
                                &&& p@ == a[1]
                                &&& match r1 {
                                    Err(e) => r == r1 && *final(sink) == *old(sink),
                                    Ok(_) => packed(
                                        *old(sink),
                                        seq![final(o)@, final(p)@],
                                        r,
                                        *final(sink),
                                    ),
                                }
                            },
                    }
                }
        }),
{
    let mut walk = filter;
    let mut arrays = decorrelate_channels(input, channels, rounding);
    let ghost a = contents(arrays@);
    assert(arrays@.len() == a.len());
    match filter_array(&mut walk, 0, &mut arrays[0]) {
        Err(e) => {
            return Err(e);
        },
        Ok(_) => {},
    }
    match channels {
        FrameChannels::Mono => {
            assert(contents(arrays@) =~= seq![arrays@[0]@]);
        },
        FrameChannels::Stereo => {
            assert(arrays@[1]@ == a[1]);
            match filter_array(&mut walk, 1, &mut arrays[1]) {
                Err(e) => {
                    return Err(e);
                },
                Ok(_) => {},
            }
            assert(contents(arrays@) =~= seq![arrays@[0]@, arrays@[1]@]);
        },
    }
    pack_all(sink, &arrays)
}

} // verus!
