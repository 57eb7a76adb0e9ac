//! Channel correlation: a stereo pair as a mean-like value and a
//! difference.
//!
//! `X` and `Y` stand for the right channel plus half the difference, and
//! the difference. There are two ways to halve an odd negative
//! difference, toward zero and downward; each is undone exactly by its
//! own inverse. Arithmetic wraps, so that holds for every pair.

use vstd::arithmetic::power2::*;
use vstd::prelude::*;

use crate::arith::{
    div_toward_zero, floor_shift, lemma_wrap32, lemma_wrap32_sum, lemma_wrap32_undo, shift_down,
    trunc_div, wrap32, wrapping_difference, wrapping_sum,
};
use crate::error::{Error, Result};

verus! {

/// `(left, right)` of `(x, y)`, `half` being half of `y`.
pub open spec fn rejoined(x: i32, y: i32, half: int) -> (i32, i32) {
    let r = wrap32(x - half) as i32;
    (wrap32(r + y) as i32, r)
}

/// `(left, right)` of `(x, y)`, halving toward zero.
pub open spec fn reconstructed(x: i32, y: i32) -> (i32, i32) {
    rejoined(x, y, trunc_div(y as int, 2))
}

/// `(left, right)` of `(x, y)`, halving downward.
pub open spec fn reconstructed_shift(x: i32, y: i32) -> (i32, i32) {
    rejoined(x, y, floor_shift(y as int, 1))
}

/// `(x, y)` of `(left, right)`, halving toward zero.
pub open spec fn decorrelated(l: i32, r: i32) -> (i32, i32) {
    let y = wrap32(l - r) as i32;
    (wrap32(r + trunc_div(y as int, 2)) as i32, y)
}

/// `(x, y)` of `(left, right)`, halving downward.
pub open spec fn decorrelated_shift(l: i32, r: i32) -> (i32, i32) {
    let y = wrap32(l - r) as i32;
    (wrap32(r + floor_shift(y as int, 1)) as i32, y)
}

/// `(left, right)` of `(x, y)`, halving toward zero.
pub fn reconstruct_pair(x: i32, y: i32) -> (p: (i32, i32))
    ensures
        p == reconstructed(x, y),
{
    let r = wrapping_difference(x, div_toward_zero(y, 2));
    (wrapping_sum(r, y), r)
}

/// `(left, right)` of `(x, y)`, halving downward.
pub fn reconstruct_pair_arith_shift(x: i32, y: i32) -> (p: (i32, i32))
    ensures
        p == reconstructed_shift(x, y),
{
    let r = wrapping_difference(x, shift_down(y, 1));
    (wrapping_sum(r, y), r)
}

/// `(x, y)` of `(left, right)`, halving toward zero.
pub fn decorrelate_pair(l: i32, r: i32) -> (p: (i32, i32))
    ensures
        p == decorrelated(l, r),
{
    let y = wrapping_difference(l, r);
    (wrapping_sum(r, div_toward_zero(y, 2)), y)
}

/// `(x, y)` of `(left, right)`, halving downward.
pub fn decorrelate_pair_arith_shift(l: i32, r: i32) -> (p: (i32, i32))
    ensures
        p == decorrelated_shift(l, r),
{
    let y = wrapping_difference(l, r);
    (wrapping_sum(r, shift_down(y, 1)), y)
}

/// The outcome that a length disagreement has.
pub open spec fn length_mismatch(x: nat, y: nat, left: nat, right: nat) -> Error {
    Error::ChannelLengthMismatch {
        x: x as usize,
        y: y as usize,
        left: left as usize,
        right: right as usize,
    }
}

/// All four lengths agree.
pub open spec fn lengths_agree(x: nat, y: nat, left: nat, right: nat) -> bool {
    x == y && x == left && x == right
}

/// Reconstructs a block, halving toward zero. Slices of different lengths
/// are refused and left as they are.
pub fn reconstruct_block(x: &[i32], y: &[i32], left: &mut [i32], right: &mut [i32]) -> (res: Result<
    (),
>)
    ensures
        final(left)@.len() == old(left)@.len(),
        final(right)@.len() == old(right)@.len(),
        lengths_agree(x@.len(), y@.len(), old(left)@.len(), old(right)@.len()) ==> {
            &&& res == Ok::<(), Error>(())
            &&& forall|i: int|
                0 <= i < x@.len() ==> (#[trigger] final(left)@[i], final(right)@[i])
                    == reconstructed(x@[i], y@[i])
        },
        !lengths_agree(x@.len(), y@.len(), old(left)@.len(), old(right)@.len()) ==> {
            &&& res == Err::<(), Error>(
                length_mismatch(x@.len(), y@.len(), old(left)@.len(), old(right)@.len()),
            )
            &&& final(left)@ == old(left)@
            &&& final(right)@ == old(right)@
        },
{
    let n: usize = x.len();
    if n != y.len() || n != left.len() || n != right.len() {
        return Err(
            Error::ChannelLengthMismatch {
                x: n,
                y: y.len(),
                left: left.len(),
                right: right.len(),
            },
        );
    }
    let mut i: usize = 0;
    while i < n
        invariant
            i <= n,
            n == x@.len(),
            n == y@.len(),
            n == left@.len(),
            n == right@.len(),
            forall|k: int|
                0 <= k < i ==> (#[trigger] left@[k], right@[k]) == reconstructed(x@[k], y@[k]),
        decreases n - i,
    {
        let (l, r) = reconstruct_pair(x[i], y[i]);
        left[i] = l;
        right[i] = r;
        i = i + 1;
    }
    Ok(())
}

/// Reconstructs a block, halving downward. Slices of different lengths
/// are refused and left as they are.
pub fn reconstruct_block_arith_shift(
    x: &[i32],
    y: &[i32],
    left: &mut [i32],
    right: &mut [i32],
) -> (res: Result<()>)
    ensures
        final(left)@.len() == old(left)@.len(),
        final(right)@.len() == old(right)@.len(),
        lengths_agree(x@.len(), y@.len(), old(left)@.len(), old(right)@.len()) ==> {
            &&& res == Ok::<(), Error>(())
            &&& forall|i: int|
                0 <= i < x@.len() ==> (#[trigger] final(left)@[i], final(right)@[i])
                    == reconstructed_shift(x@[i], y@[i])
        },
        !lengths_agree(x@.len(), y@.len(), old(left)@.len(), old(right)@.len()) ==> {
            &&& res == Err::<(), Error>(
                length_mismatch(x@.len(), y@.len(), old(left)@.len(), old(right)@.len()),
            )
            &&& final(left)@ == old(left)@
            &&& final(right)@ == old(right)@
        },
{
    let n: usize = x.len();
    if n != y.len() || n != left.len() || n != right.len() {
        return Err(
            Error::ChannelLengthMismatch {
                x: n,
                y: y.len(),
                left: left.len(),
                right: right.len(),
            },
        );
    }
    let mut i: usize = 0;
    while i < n
        invariant
            i <= n,
            n == x@.len(),
            n == y@.len(),
            n == left@.len(),
            n == right@.len(),
            forall|k: int|
                0 <= k < i ==> (#[trigger] left@[k], right@[k]) == reconstructed_shift(
                    x@[k],
                    y@[k],
                ),
        decreases n - i,
    {
        let (l, r) = reconstruct_pair_arith_shift(x[i], y[i]);
        left[i] = l;
        right[i] = r;
        i = i + 1;
    }
    Ok(())
}

proof fn lemma_rejoin(l: i32, r: i32, half: int)
    ensures
        ({
            let y = wrap32(l - r) as i32;
            rejoined(wrap32(r + half) as i32, y, half) == (l, r)
        }),
{
    lemma_wrap32(l - r);
    lemma_wrap32(r + half);
    lemma_wrap32_undo(r as int, half);
    lemma_wrap32_undo(l as int, r as int);
}

proof fn lemma_unjoin(x: i32, y: i32, half: int)
    ensures
        ({
            let (l, r) = rejoined(x, y, half);
            &&& wrap32(l - r) == y
            &&& wrap32(r + half) == x
        }),
{
    let r = wrap32(x - half);
    lemma_wrap32(x - half);
    lemma_wrap32(r + y);
    lemma_wrap32_undo(y as int, r);
    lemma_wrap32_undo(x as int, half);
}

/// Reconstruction and decorrelation undo each other, both ways round, for
/// every pair and under either rounding.
pub proof fn law_correlation_round_trip(a: i32, b: i32)
    ensures
        ({
            let (x, y) = decorrelated(a, b);
            reconstructed(x, y) == (a, b)
        }),
        ({
            let (l, r) = reconstructed(a, b);
            decorrelated(l, r) == (a, b)
        }),
        ({
            let (x, y) = decorrelated_shift(a, b);
            reconstructed_shift(x, y) == (a, b)
        }),
        ({
            let (l, r) = reconstructed_shift(a, b);
            decorrelated_shift(l, r) == (a, b)
        }),
{
    let y = wrap32(a - b);
    lemma_rejoin(a, b, trunc_div(y, 2));
    lemma_rejoin(a, b, floor_shift(y, 1));
    lemma_wrap32(a - b);
    lemma_unjoin(a, b, trunc_div(b as int, 2));
    lemma_unjoin(a, b, floor_shift(b as int, 1));
}

/// The two roundings agree unless the difference is odd and negative, and
/// then both channels are larger by one when rounding down.
pub proof fn law_roundings_differ_on_odd_negative(x: i32, y: i32)
    ensures
        !(y < 0 && y % 2 != 0) ==> reconstructed(x, y) == reconstructed_shift(x, y),
        y < 0 && y % 2 != 0 ==> reconstructed_shift(x, y).0 == wrap32(reconstructed(x, y).0 + 1),
        y < 0 && y % 2 != 0 ==> reconstructed_shift(x, y).1 == wrap32(reconstructed(x, y).1 + 1),
{
    lemma2_to64();
    let half = trunc_div(y as int, 2);
    let r = wrap32(x - half);
    lemma_wrap32(x - half);
    lemma_wrap32_sum(x - half, 1);
    lemma_wrap32(r + y);
    lemma_wrap32_sum(r + y, 1);
    lemma_wrap32_sum(r + 1, y as int);
}

} // verus!
