//! One step of a sign-adaptive linear predictor over an explicit history
//! window.

use vstd::prelude::*;

use crate::arith::{
    lemma_wrap32, lemma_wrap32_sum, lemma_wrap32_undo, lemma_wrap64, narrow, wrap32, wrap64,
};
use crate::error::{Error, Result};

verus! {

/// The direction of an adaptation step: the sign of `value`.
pub open spec fn sign(value: int) -> int {
    if value < 0 {
        -1
    } else if value > 0 {
        1
    } else {
        0
    }
}

/// The direction of an adaptation step: the sign of `value`.
pub fn adapt_sign(value: i64) -> (r: i64)
    ensures
        r == sign(value as int),
{
    if value < 0 {
        -1
    } else if value > 0 {
        1
    } else {
        0
    }
}

/// The sum of `history[i] * par[i]` over the first `n` elements.
pub open spec fn weighted_sum(history: Seq<i32>, par: Seq<i32>, n: nat) -> int
    decreases n,
{
    if n == 0 {
        0
    } else {
        weighted_sum(history, par, (n - 1) as nat) + history[n - 1] * par[n - 1]
    }
}

/// The prediction of a history window.
pub open spec fn predicted(history: Seq<i32>, par: Seq<i32>) -> int {
    weighted_sum(history, par, history.len())
}

/// The coefficients after the input `input`: each moves by `reference[i]`
/// in the direction of its sign.
pub open spec fn adapted(par: Seq<i32>, reference: Seq<i32>, input: i32) -> Seq<i32> {
    Seq::new(
        par.len(),
        |i: int|
            if input > 0 {
                par[i].wrapping_add(reference[i])
            } else if input < 0 {
                par[i].wrapping_sub(reference[i])
            } else {
                par[i]
            },
    )
}

/// The error for windows of different orders.
pub open spec fn order_mismatch(history: nat, par: nat) -> Error {
    Error::PredictorOrderMismatch { history: history as usize, par: par as usize }
}

/// The dot product of a history window with the coefficients, in wrapping
/// 64-bit arithmetic.
pub fn predict_dot(history: &[i32], par: &[i32]) -> (r: Result<i64>)
    ensures
        history@.len() != par@.len() ==> r == Err::<i64, Error>(
            order_mismatch(history@.len(), par@.len()),
        ),
        history@.len() == par@.len() ==> r is Ok && r->Ok_0 == wrap64(predicted(history@, par@)),
{
    if history.len() != par.len() {
        return Err(Error::PredictorOrderMismatch { history: history.len(), par: par.len() });
    }
    let mut t: i64 = 0;
    let mut i: usize = 0;
    proof {
        lemma_wrap64(0, 0);
    }
    while i < history.len()
        invariant
            i <= history@.len(),
            history@.len() == par@.len(),
            t == wrap64(weighted_sum(history@, par@, i as nat)),
        decreases history@.len() - i,
    {
        let h: i64 = history[i] as i64;
        let w: i64 = par[i] as i64;
        proof {
            assert(-0x4000_0000_0000_0000 <= h * w <= 0x4000_0000_0000_0000) by (nonlinear_arith)
                requires
                    -0x8000_0000 <= h <= 0x7FFF_FFFF,
                    -0x8000_0000 <= w <= 0x7FFF_FFFF,
            ;
            lemma_wrap64(weighted_sum(history@, par@, i as nat), h * w);
        }
        t = t.wrapping_add(h * w);
        i = i + 1;
    }
    Ok(t)
}

/// Moves the coefficients in the direction of the sign of `input`.
fn adapt(par: &mut [i32], reference: &[i32], input: i32)
    requires
        old(par)@.len() == reference@.len(),
    ensures
        final(par)@ == adapted(old(par)@, reference@, input),
{
    let ghost before = par@;
    let direction = adapt_sign(input as i64);
    let n: usize = reference.len();
    let mut i: usize = 0;
    while i < n
        invariant
            i <= n,
            n == par@.len(),
            n == reference@.len(),
            before.len() == n,
            direction == sign(input as int),
            forall|k: int| 0 <= k < i ==> par@[k] == adapted(before, reference@, input)[k],
            forall|k: int| i <= k < n ==> par@[k] == before[k],
        decreases n - i,
    {
        let w: i32 = par[i];
        if direction > 0 {
            par[i] = w.wrapping_add(reference[i]);
        } else if direction < 0 {
            par[i] = w.wrapping_sub(reference[i]);
        }
        i = i + 1;
    }
    assert(par@ =~= adapted(before, reference@, input));
}

/// One predictor step: the output is the input plus the prediction, and
/// then the coefficients move by `adapt_ref` in the direction of the sign
/// of the input.
pub fn predict_step(input: i32, history: &[i32], adapt_ref: &[i32], par: &mut [i32]) -> (r: Result<
    i32,
>)
    ensures
        history@.len() != old(par)@.len() || adapt_ref@.len() != old(par)@.len() ==> {
            &&& r == Err::<i32, Error>(order_mismatch(history@.len(), old(par)@.len()))
            &&& final(par)@ == old(par)@
        },
        history@.len() == old(par)@.len() && adapt_ref@.len() == old(par)@.len() ==> {
            &&& r is Ok
            &&& (r->Ok_0, final(par)@) == stepped(input, history@, adapt_ref@, old(par)@)
        },
{
    if history.len() != par.len() || adapt_ref.len() != par.len() {
        return Err(Error::PredictorOrderMismatch { history: history.len(), par: par.len() });
    }
    let t: i64 = match predict_dot(history, par) {
        Err(e) => {
            return Err(e);
        },
        Ok(t) => t,
    };
    proof {
        lemma_wrap64(predicted(history@, par@), 0);
        lemma_wrap32_sum(t as int, input as int);
        lemma_wrap32_sum(predicted(history@, par@), input as int);
    }
    let out = narrow(t).wrapping_add(input);
    adapt(par, adapt_ref, input);
    Ok(out)
}

/// [`predict_step`] with the history window as the adaptation reference.
pub fn predict_step_self_ref(input: i32, history: &[i32], par: &mut [i32]) -> (r: Result<i32>)
    ensures
        history@.len() != old(par)@.len() ==> {
            &&& r == Err::<i32, Error>(order_mismatch(history@.len(), old(par)@.len()))
            &&& final(par)@ == old(par)@
        },
        history@.len() == old(par)@.len() ==> {
            &&& r is Ok
            &&& (r->Ok_0, final(par)@) == stepped(input, history@, history@, old(par)@)
        },
{
    predict_step(input, history, history, par)
}

/// The inverse of [`predict_step`]: the output gives the input that leads
/// to it, and the coefficients move as they do there.
pub fn residual_step(output: i32, history: &[i32], adapt_ref: &[i32], par: &mut [i32]) -> (r:
    Result<i32>)
    ensures
        history@.len() != old(par)@.len() || adapt_ref@.len() != old(par)@.len() ==> {
            &&& r == Err::<i32, Error>(order_mismatch(history@.len(), old(par)@.len()))
            &&& final(par)@ == old(par)@
        },
        history@.len() == old(par)@.len() && adapt_ref@.len() == old(par)@.len() ==> {
            &&& r is Ok
            &&& (r->Ok_0, final(par)@) == unstepped(output, history@, adapt_ref@, old(par)@)
        },
{
    if history.len() != par.len() || adapt_ref.len() != par.len() {
        return Err(Error::PredictorOrderMismatch { history: history.len(), par: par.len() });
    }
    let t: i64 = match predict_dot(history, par) {
        Err(e) => {
            return Err(e);
        },
        Ok(t) => t,
    };
    proof {
        lemma_wrap64(predicted(history@, par@), 0);
        lemma_wrap32_sum(t as int, output as int);
        lemma_wrap32_sum(predicted(history@, par@), output as int);
    }
    let input = output.wrapping_sub(narrow(t));
    adapt(par, adapt_ref, input);
    Ok(input)
}

/// [`residual_step`] with the history window as the adaptation reference.
pub fn residual_step_self_ref(output: i32, history: &[i32], par: &mut [i32]) -> (r: Result<i32>)
    ensures
        history@.len() != old(par)@.len() ==> {
            &&& r == Err::<i32, Error>(order_mismatch(history@.len(), old(par)@.len()))
            &&& final(par)@ == old(par)@
        },
        history@.len() == old(par)@.len() ==> {
            &&& r is Ok
            &&& (r->Ok_0, final(par)@) == unstepped(output, history@, history@, old(par)@)
        },
{
    residual_step(output, history, history, par)
}

/// The output of a step, and the coefficients after it.
pub open spec fn stepped(
    input: i32,
    history: Seq<i32>,
    reference: Seq<i32>,
    par: Seq<i32>,
) -> (i32, Seq<i32>) {
    (wrap32(input + predicted(history, par)) as i32, adapted(par, reference, input))
}

/// The input of a step with a given output, and the coefficients after
/// it.
pub open spec fn unstepped(
    output: i32,
    history: Seq<i32>,
    reference: Seq<i32>,
    par: Seq<i32>,
) -> (i32, Seq<i32>) {
    let input = wrap32(output - predicted(history, par)) as i32;
    (input, adapted(par, reference, input))
}

/// A step undoes the inverse step, and both move the coefficients alike.
pub proof fn law_step_round_trip(
    output: i32,
    history: Seq<i32>,
    reference: Seq<i32>,
    par: Seq<i32>,
)
    ensures
        ({
            let (input, next) = unstepped(output, history, reference, par);
            stepped(input, history, reference, par) == (output, next)
        }),
{
    let t = predicted(history, par);
    lemma_wrap32(output - t);
    lemma_wrap32_undo(output as int, t);
}

/// A step learns from its input: a coefficient moves by its reference, up
/// for a positive input and down for a negative one, as long as it has
/// room. With the history as reference the prediction moves toward what
/// was missing. The output follows the input one for one.
pub proof fn law_step_learns(
    input: i32,
    other: i32,
    history: Seq<i32>,
    reference: Seq<i32>,
    par: Seq<i32>,
    k: int,
)
    requires
        history.len() == par.len(),
        reference.len() == par.len(),
        0 <= k < par.len(),
        i32::MIN <= par[k] + reference[k] <= i32::MAX,
        i32::MIN <= par[k] - reference[k] <= i32::MAX,
    ensures
        ({
            let (out, next) = stepped(input, history, reference, par);
            let change = next[k] - par[k];
            &&& next.len() == par.len()
            &&& input > 0 ==> change == reference[k]
            &&& input < 0 ==> change == -reference[k]
            &&& input == 0 ==> change == 0
            &&& reference == history && input > 0 ==> history[k] * change >= 0
            &&& reference == history && input < 0 ==> history[k] * change <= 0
            &&& wrap32(out - stepped(other, history, reference, par).0) == wrap32(input - other)
        }),
{
    let p = predicted(history, par);
    let h = history[k] as int;
    assert(h * h >= 0) by (nonlinear_arith);
    assert(h * (-h) <= 0) by (nonlinear_arith);
    assert(h * 0 == 0);
    crate::arith::lemma_wrap32(input + p);
    crate::arith::lemma_wrap32(other + p);
    crate::arith::lemma_wrap32_sum(other + p, wrap32(input + p));
    crate::arith::lemma_wrap32_sum(input + p, -(other + p));
}

} // verus!
