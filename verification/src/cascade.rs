//! Runs of adaptive prediction stages over whole buffers.
//!
//! How the history window moves between values is up to the caller: a
//! policy is shown the residual and the filtered value and returns the
//! element that enters the window. Both directions show it the same
//! pairs, so decoding undoes encoding whatever the policy returns.

use vstd::prelude::*;
use vstd::slice::*;

use crate::error::{Error, Result};
use crate::filter_config::{level_stages, FilterCascade, FilterStage};
use crate::predictor::{
    law_step_round_trip, order_mismatch, predict_step_self_ref, residual_step_self_ref, stepped,
    unstepped,
};

verus! {

// ---------------------------------------------------------------------
// Model
// ---------------------------------------------------------------------

/// What a [`StageState`] stands for.
pub ghost struct StageModel {
    /// History window, the oldest element first.
    pub window: Seq<i32>,
    /// Coefficients.
    pub par: Seq<i32>,
}

impl StageModel {
    /// Number of taps.
    pub open spec fn order(self) -> nat {
        self.par.len()
    }

    /// The window with `novel` appended and its oldest element gone.
    pub open spec fn pushed(self, novel: i32) -> StageModel {
        StageModel {
            window: if self.window.len() == 0 {
                self.window
            } else {
                self.window.drop_first().push(novel)
            },
            ..self
        }
    }

    /// Decoding a residual: the stage before the window moves, and the
    /// filtered value.
    pub open spec fn decode(self, residual: i32) -> (StageModel, i32) {
        let (out, par) = stepped(residual, self.window, self.window, self.par);
        (StageModel { par, ..self }, out)
    }

    /// Encoding a value: the stage before the window moves, and the
    /// residual.
    pub open spec fn encode(self, value: i32) -> (StageModel, i32) {
        let (residual, par) = unstepped(value, self.window, self.window, self.par);
        (StageModel { par, ..self }, residual)
    }
}

/// Decoding a buffer, the window taking the elements `novels`. A stage of
/// order zero does nothing.
pub open spec fn stage_decoded(st: StageModel, values: Seq<i32>, novels: Seq<i32>) -> (
    StageModel,
    Seq<i32>,
)
    decreases values.len(),
{
    if st.order() == 0 || values.len() == 0 {
        (st, values)
    } else {
        let (mid, head) = stage_decoded(st, values.drop_last(), novels.drop_last());
        let (next, out) = mid.decode(values.last());
        (next.pushed(novels.last()), head.push(out))
    }
}

/// Encoding a buffer, the window taking the elements `novels`. A stage of
/// order zero does nothing.
pub open spec fn stage_encoded(st: StageModel, values: Seq<i32>, novels: Seq<i32>) -> (
    StageModel,
    Seq<i32>,
)
    decreases values.len(),
{
    if st.order() == 0 || values.len() == 0 {
        (st, values)
    } else {
        let (mid, head) = stage_encoded(st, values.drop_last(), novels.drop_last());
        let (next, residual) = mid.encode(values.last());
        (next.pushed(novels.last()), head.push(residual))
    }
}

proof fn lemma_stage_encoded_shape(st: StageModel, values: Seq<i32>, novels: Seq<i32>)
    ensures
        stage_encoded(st, values, novels).1.len() == values.len(),
        stage_encoded(st, values, novels).0.order() == st.order(),
        stage_encoded(st, values, novels).0.window.len() == st.window.len(),
    decreases values.len(),
{
    if st.order() > 0 && values.len() > 0 {
        lemma_stage_encoded_shape(st, values.drop_last(), novels.drop_last());
    }
}

/// Decoding an encoded buffer gives the buffer back and leaves the stage
/// in the same state, whatever entered the window.
pub proof fn law_stage_round_trip(st: StageModel, values: Seq<i32>, novels: Seq<i32>)
    ensures
        stage_decoded(st, stage_encoded(st, values, novels).1, novels) == (
            stage_encoded(st, values, novels).0,
            values,
        ),
    decreases values.len(),
{
    if st.order() > 0 && values.len() > 0 {
        let head = values.drop_last();
        let (mid, coded) = stage_encoded(st, head, novels.drop_last());
        law_stage_round_trip(st, head, novels.drop_last());
        lemma_stage_encoded_shape(st, head, novels.drop_last());
        let residual = mid.encode(values.last()).1;
        assert(coded.push(residual).drop_last() =~= coded);
        law_step_round_trip(values.last(), mid.window, mid.window, mid.par);
        assert(head.push(values.last()) =~= values);
    }
}

/// Decoding through several stages, the last one first.
pub open spec fn cascade_decoded(
    states: Seq<StageModel>,
    values: Seq<i32>,
    novels: Seq<Seq<i32>>,
) -> (Seq<StageModel>, Seq<i32>)
    decreases states.len(),
{
    if states.len() == 0 {
        (states, values)
    } else {
        let (last, mid) = stage_decoded(states.last(), values, novels.last());
        let (head, out) = cascade_decoded(states.drop_last(), mid, novels.drop_last());
        (head.push(last), out)
    }
}

/// Encoding through several stages, the first one first.
pub open spec fn cascade_encoded(
    states: Seq<StageModel>,
    values: Seq<i32>,
    novels: Seq<Seq<i32>>,
) -> (Seq<StageModel>, Seq<i32>)
    decreases states.len(),
{
    if states.len() == 0 {
        (states, values)
    } else {
        let (head, mid) = cascade_encoded(states.drop_last(), values, novels.drop_last());
        let (last, out) = stage_encoded(states.last(), mid, novels.last());
        (head.push(last), out)
    }
}

/// Decoding through a cascade undoes encoding through it and leaves every
/// stage in the same state, whatever entered the windows.
pub proof fn law_cascade_round_trip(
    states: Seq<StageModel>,
    values: Seq<i32>,
    novels: Seq<Seq<i32>>,
)
    ensures
        cascade_decoded(states, cascade_encoded(states, values, novels).1, novels) == (
            cascade_encoded(states, values, novels).0,
            values,
        ),
    decreases states.len(),
{
    if states.len() > 0 {
        let mid = cascade_encoded(states.drop_last(), values, novels.drop_last()).1;
        law_stage_round_trip(states.last(), mid, novels.last());
        law_cascade_round_trip(states.drop_last(), values, novels.drop_last());
    }
}

// ---------------------------------------------------------------------
// What a policy was asked
// ---------------------------------------------------------------------

/// `policy` can be called on every pair.
pub open spec fn callable<P: FnMut(i32, i32) -> i32>(policy: P) -> bool {
    forall|r: i32, f: i32| call_requires(policy, (r, f))
}

/// `policy` answered `novels` to the pairs of residual and filtered
/// value.
pub open spec fn answered<P: FnMut(i32, i32) -> i32>(
    policy: P,
    residuals: Seq<i32>,
    filtered: Seq<i32>,
    novels: Seq<i32>,
) -> bool {
    &&& novels.len() == residuals.len()
    &&& forall|i: int|
        0 <= i < novels.len() ==> call_ensures(
            policy,
            (residuals[i], filtered[i]),
            #[trigger] novels[i],
        )
}

/// `policy` can be called for every stage on every pair.
pub open spec fn callable_at<P: FnMut(usize, i32, i32) -> i32>(policy: P) -> bool {
    forall|k: usize, r: i32, f: i32| call_requires(policy, (k, r, f))
}

/// `policy` answered `novels` for stage `k`.
pub open spec fn answered_at<P: FnMut(usize, i32, i32) -> i32>(
    policy: P,
    k: usize,
    residuals: Seq<i32>,
    filtered: Seq<i32>,
    novels: Seq<i32>,
) -> bool {
    &&& novels.len() == residuals.len()
    &&& forall|i: int|
        0 <= i < novels.len() ==> call_ensures(
            policy,
            (k, residuals[i], filtered[i]),
            #[trigger] novels[i],
        )
}

/// `policy` answered `novels` throughout the decoding of `values`; a
/// stage of order zero does not ask.
pub open spec fn answered_decode<P: FnMut(usize, i32, i32) -> i32>(
    policy: P,
    states: Seq<StageModel>,
    values: Seq<i32>,
    novels: Seq<Seq<i32>>,
) -> bool
    decreases states.len(),
{
    if states.len() == 0 {
        novels.len() == 0
    } else {
        let mid = stage_decoded(states.last(), values, novels.last()).1;
        &&& novels.len() == states.len()
        &&& states.last().order() > 0 ==> answered_at(
            policy,
            (states.len() - 1) as usize,
            values,
            mid,
            novels.last(),
        )
        &&& answered_decode(policy, states.drop_last(), mid, novels.drop_last())
    }
}

/// `policy` answered `novels` throughout the encoding of `values`; a
/// stage of order zero does not ask.
pub open spec fn answered_encode<P: FnMut(usize, i32, i32) -> i32>(
    policy: P,
    states: Seq<StageModel>,
    values: Seq<i32>,
    novels: Seq<Seq<i32>>,
) -> bool
    decreases states.len(),
{
    if states.len() == 0 {
        novels.len() == 0
    } else {
        let mid = cascade_encoded(states.drop_last(), values, novels.drop_last()).1;
        &&& novels.len() == states.len()
        &&& answered_encode(policy, states.drop_last(), values, novels.drop_last())
        &&& states.last().order() > 0 ==> answered_at(
            policy,
            (states.len() - 1) as usize,
            stage_encoded(states.last(), mid, novels.last()).1,
            mid,
            novels.last(),
        )
    }
}

// ---------------------------------------------------------------------
// Policies that answer alike
// ---------------------------------------------------------------------

proof fn lemma_stage_decoded_len(st: StageModel, values: Seq<i32>, novels: Seq<i32>)
    ensures
        stage_decoded(st, values, novels).1.len() == values.len(),
    decreases values.len(),
{
    if st.order() > 0 && values.len() > 0 {
        lemma_stage_decoded_len(st, values.drop_last(), novels.drop_last());
    }
}

/// Decoding a prefix gives a prefix.
proof fn lemma_decoded_prefix(st: StageModel, values: Seq<i32>, novels: Seq<i32>, i: int)
    requires
        novels.len() == values.len(),
        0 <= i <= values.len(),
    ensures
        stage_decoded(st, values.take(i), novels.take(i)).1 == stage_decoded(
            st,
            values,
            novels,
        ).1.take(i),
    decreases values.len(),
{
    let all = stage_decoded(st, values, novels).1;
    lemma_stage_decoded_len(st, values, novels);
    if i == values.len() {
        assert(values.take(i) =~= values);
        assert(novels.take(i) =~= novels);
        assert(all.take(i) =~= all);
    } else {
        let head = values.drop_last();
        lemma_decoded_prefix(st, head, novels.drop_last(), i);
        lemma_stage_decoded_len(st, head, novels.drop_last());
        assert(head.take(i) =~= values.take(i));
        assert(novels.drop_last().take(i) =~= novels.take(i));
        assert(stage_decoded(st, head, novels.drop_last()).1.take(i) =~= all.take(i));
    }
}

/// Answers that depend on the pair alone are the same in both directions.
proof fn lemma_same_answers(
    answers: spec_fn(i32, i32, i32) -> bool,
    st: StageModel,
    values: Seq<i32>,
    encoding: Seq<i32>,
    decoding: Seq<i32>,
    n: int,
)
    requires
        st.order() > 0,
        encoding.len() == values.len(),
        decoding.len() == values.len(),
        0 <= n <= values.len(),
        forall|r: i32, f: i32, a: i32, b: i32|
            #[trigger] answers(r, f, a) && #[trigger] answers(r, f, b) ==> a == b,
        ({
            let coded = stage_encoded(st, values, encoding).1;
            let out = stage_decoded(st, coded, decoding).1;
            &&& forall|i: int|
                0 <= i < values.len() ==> answers(coded[i], values[i], #[trigger] encoding[i])
            &&& forall|i: int|
                0 <= i < values.len() ==> answers(coded[i], out[i], #[trigger] decoding[i])
        }),
    ensures
        decoding.take(n) == encoding.take(n),
    decreases n,
{
    let coded = stage_encoded(st, values, encoding).1;
    let out = stage_decoded(st, coded, decoding).1;
    if n == 0 {
        assert(decoding.take(0) =~= encoding.take(0));
    } else {
        let i = n - 1;
        lemma_same_answers(answers, st, values, encoding, decoding, i);
        lemma_stage_encoded_shape(st, values, encoding);
        lemma_stage_decoded_len(st, coded, decoding);
        law_stage_round_trip(st, values, encoding);
        lemma_decoded_prefix(st, coded, decoding, n);
        lemma_decoded_prefix(st, coded, encoding, n);
        let lead = coded.take(n);
        assert(lead.drop_last() =~= coded.take(i));
        assert(decoding.take(n).drop_last() =~= decoding.take(i));
        assert(encoding.take(n).drop_last() =~= encoding.take(i));
        assert(out.take(n) == values.take(n));
        assert(out.take(n)[i] == out[i] && values.take(n)[i] == values[i]);
        assert(answers(coded[i], values[i], encoding[i]));
        assert(answers(coded[i], out[i], decoding[i]));
        assert(decoding.take(n) =~= encoding.take(i).push(encoding[i]));
        assert(encoding.take(n) =~= encoding.take(i).push(encoding[i]));
    }
}

/// `policy` has at most one answer to a pair.
pub open spec fn consistent<P: FnMut(i32, i32) -> i32>(policy: P) -> bool {
    forall|r: i32, f: i32, a: i32, b: i32| #[trigger]
        call_ensures(policy, (r, f), a) && #[trigger] call_ensures(policy, (r, f), b) ==> a == b
}

/// `policy` has at most one answer to a stage and a pair.
pub open spec fn consistent_at<P: FnMut(usize, i32, i32) -> i32>(policy: P) -> bool {
    forall|k: usize, r: i32, f: i32, a: i32, b: i32| #[trigger]
        call_ensures(policy, (k, r, f), a) && #[trigger] call_ensures(policy, (k, r, f), b) ==> a
            == b
}

/// Running [`filter_stage_encode`] and then [`filter_stage_decode`] from
/// the same state gives the buffer back and ends in the same state, under
/// any policy whose answers depend on the pair alone.
pub proof fn law_stage_undone<P: FnMut(i32, i32) -> i32>(
    policy: P,
    st: StageModel,
    values: Seq<i32>,
    encoding: Seq<i32>,
    decoding: Seq<i32>,
)
    requires
        consistent(policy),
        st.order() > 0,
        ({
            let coded = stage_encoded(st, values, encoding).1;
            let out = stage_decoded(st, coded, decoding).1;
            &&& answered(policy, coded, values, encoding)
            &&& answered(policy, coded, out, decoding)
        }),
    ensures
        stage_decoded(st, stage_encoded(st, values, encoding).1, decoding) == (
            stage_encoded(st, values, encoding).0,
            values,
        ),
{
    let answers = |r: i32, f: i32, n: i32| call_ensures(policy, (r, f), n);
    lemma_stage_encoded_shape(st, values, encoding);
    lemma_same_answers(answers, st, values, encoding, decoding, values.len() as int);
    assert(decoding.take(values.len() as int) =~= decoding);
    assert(encoding.take(values.len() as int) =~= encoding);
    law_stage_round_trip(st, values, encoding);
}

/// Running [`cascade_encode`] and then [`cascade_decode`] from the same
/// states gives the buffer back and ends in the same states, under any
/// policy whose answers depend on the stage and the pair alone.
pub proof fn law_cascade_undone<P: FnMut(usize, i32, i32) -> i32>(
    policy: P,
    states: Seq<StageModel>,
    values: Seq<i32>,
    encoding: Seq<Seq<i32>>,
    decoding: Seq<Seq<i32>>,
)
    requires
        consistent_at(policy),
        answered_encode(policy, states, values, encoding),
        answered_decode(policy, states, cascade_encoded(states, values, encoding).1, decoding),
    ensures
        cascade_decoded(states, cascade_encoded(states, values, encoding).1, decoding) == (
            cascade_encoded(states, values, encoding).0,
            values,
        ),
    decreases states.len(),
{
    if states.len() > 0 {
        let k = (states.len() - 1) as usize;
        let st = states.last();
        let mid = cascade_encoded(states.drop_last(), values, encoding.drop_last()).1;
        if st.order() > 0 {
            let answers = |r: i32, f: i32, n: i32| call_ensures(policy, (k, r, f), n);
            let n = mid.len() as int;
            lemma_stage_encoded_shape(st, mid, encoding.last());
            lemma_same_answers(answers, st, mid, encoding.last(), decoding.last(), n);
            assert(decoding.last().take(n) =~= decoding.last());
            assert(encoding.last().take(n) =~= encoding.last());
            law_stage_round_trip(st, mid, encoding.last());
        }
        law_cascade_undone(
            policy,
            states.drop_last(),
            values,
            encoding.drop_last(),
            decoding.drop_last(),
        );
    }
}

// ---------------------------------------------------------------------
// Stages
// ---------------------------------------------------------------------

/// State of one stage: a history window and as many coefficients.
#[derive(Debug, Clone, PartialEq, Eq)]
pub struct StageState {
    pub window: Vec<i32>,
    pub par: Vec<i32>,
}

impl View for StageState {
    type V = StageModel;

    open spec fn view(&self) -> StageModel {
        StageModel { window: self.window@, par: self.par@ }
    }
}

/// `n` zeros.
pub open spec fn zeros(n: nat) -> Seq<i32> {
    Seq::new(n, |k: int| 0i32)
}

/// A vector of `n` zeros.
pub(crate) fn zero_vec(n: usize) -> (r: Vec<i32>)
    ensures
        r@ == zeros(n as nat),
{
    let mut r: Vec<i32> = Vec::new();
    let mut i: usize = 0;
    while i < n
        invariant
            i <= n,
            r@ == zeros(i as nat),
        decreases n - i,
    {
        r.push(0);
        i = i + 1;
        assert(r@ =~= zeros(i as nat));
    }
    r
}

impl StageState {
    /// As many window elements as coefficients.
    pub open spec fn wf(&self) -> bool {
        self.window@.len() == self.par@.len()
    }

    /// A stage of the given order, all zeros.
    pub fn zeroed(order: usize) -> (r: Self)
        ensures
            r.wf(),
            r@ == (StageModel { window: zeros(order as nat), par: zeros(order as nat) }),
    {
        StageState { window: zero_vec(order), par: zero_vec(order) }
    }

    /// A zeroed stage for a row of the cascade table.
    pub fn for_stage(stage: FilterStage) -> (r: Self)
        ensures
            r.wf(),
            r@ == (StageModel {
                window: zeros(stage.order as nat),
                par: zeros(stage.order as nat),
            }),
    {
        Self::zeroed(stage.order as usize)
    }

    /// Zeroed stages for a cascade, in its order.
    pub fn for_cascade(cascade: &FilterCascade) -> (r: Vec<Self>)
        requires
            cascade.wf(),
        ensures
            r@.len() == level_stages(cascade.level).len(),
            forall|k: int|
                0 <= k < r@.len() ==> {
                    let order = level_stages(cascade.level)[k].order as nat;
                    (#[trigger] r@[k]).wf() && r@[k]@ == (StageModel {
                        window: zeros(order),
                        par: zeros(order),
                    })
                },
    {
        let stages = cascade.stages();
        let mut out: Vec<StageState> = Vec::new();
        let mut i: usize = 0;
        while i < stages.len()
            invariant
                i <= stages@.len(),
                out@.len() == i,
                stages@ == level_stages(cascade.level),
                forall|k: int|
                    0 <= k < i ==> {
                        let order = stages@[k].order as nat;
                        (#[trigger] out@[k]).wf() && out@[k]@ == (StageModel {
                            window: zeros(order),
                            par: zeros(order),
                        })
                    },
            decreases stages@.len() - i,
        {
            out.push(Self::for_stage(stages[i]));
            i = i + 1;
        }
        out
    }

    /// A stage with the given window and coefficients, which have to
    /// agree on the order.
    pub fn with_initial(window: &[i32], par: &[i32]) -> (r: Result<Self>)
        ensures
            window@.len() != par@.len() ==> r == Err::<StageState, Error>(
                order_mismatch(window@.len(), par@.len()),
            ),
            window@.len() == par@.len() ==> r is Ok && r->Ok_0.wf() && r->Ok_0@ == (StageModel {
                window: window@,
                par: par@,
            }),
    {
        if window.len() != par.len() {
            return Err(Error::PredictorOrderMismatch { history: window.len(), par: par.len() });
        }
        Ok(StageState { window: slice_to_vec(window), par: slice_to_vec(par) })
    }

    /// Number of taps.
    pub fn order(&self) -> (r: usize)
        ensures
            r == self@.order(),
    {
        self.par.len()
    }

    /// The history window, the oldest element first.
    pub fn window(&self) -> (r: &[i32])
        ensures
            r@ == self@.window,
    {
        self.window.as_slice()
    }

    /// The coefficients.
    pub fn par(&self) -> (r: &[i32])
        ensures
            r@ == self@.par,
    {
        self.par.as_slice()
    }

    /// Appends `novel` to the window; the oldest element leaves.
    fn push(&mut self, novel: i32)
        requires
            old(self).wf(),
        ensures
            final(self).wf(),
            final(self)@ == old(self)@.pushed(novel),
    {
        if self.window.len() > 0 {
            self.window.remove(0);
            self.window.push(novel);
            assert(self.window@ =~= old(self).window@.drop_first().push(novel));
        }
    }

    /// Decodes one residual.
    fn decode_value(&mut self, residual: i32) -> (r: i32)
        requires
            old(self).wf(),
        ensures
            final(self).wf(),
            (final(self)@, r) == old(self)@.decode(residual),
    {
        match predict_step_self_ref(residual, self.window.as_slice(), self.par.as_mut_slice()) {
            Ok(v) => v,
            Err(_) => 0,
        }
    }

    /// Encodes one value.
    fn encode_value(&mut self, value: i32) -> (r: i32)
        requires
            old(self).wf(),
        ensures
            final(self).wf(),
            (final(self)@, r) == old(self)@.encode(value),
    {
        match residual_step_self_ref(value, self.window.as_slice(), self.par.as_mut_slice()) {
            Ok(v) => v,
            Err(_) => 0,
        }
    }
}

/// The walk of a stage over the first `i` values of a buffer.
proof fn lemma_decoded_step(st: StageModel, values: Seq<i32>, novels: Seq<i32>, i: int, novel: i32)
    requires
        st.order() > 0,
        0 <= i < values.len(),
        novels.len() == i,
    ensures
        ({
            let (mid, head) = stage_decoded(st, values.take(i), novels);
            let (next, out) = mid.decode(values[i]);
            stage_decoded(st, values.take(i + 1), novels.push(novel)) == (
                next.pushed(novel),
                head.push(out),
            )
        }),
{
    assert(values.take(i + 1).drop_last() =~= values.take(i));
    assert(novels.push(novel).drop_last() =~= novels);
}

proof fn lemma_encoded_step(st: StageModel, values: Seq<i32>, novels: Seq<i32>, i: int, novel: i32)
    requires
        st.order() > 0,
        0 <= i < values.len(),
        novels.len() == i,
    ensures
        ({
            let (mid, head) = stage_encoded(st, values.take(i), novels);
            let (next, out) = mid.encode(values[i]);
            stage_encoded(st, values.take(i + 1), novels.push(novel)) == (
                next.pushed(novel),
                head.push(out),
            )
        }),
{
    assert(values.take(i + 1).drop_last() =~= values.take(i));
    assert(novels.push(novel).drop_last() =~= novels);
}

/// Decodes a buffer of residuals in place. After each value
/// `policy(residual, filtered)` names the element that enters the window.
/// A stage of order zero leaves everything as it is and asks nothing.
pub fn filter_stage_decode<P>(values: &mut [i32], state: &mut StageState, policy: P) -> (res:
    Result<()>) where P: FnMut(i32, i32) -> i32
    requires
        old(state).wf(),
        callable(policy),
    ensures
        res == Ok::<(), Error>(()),
        final(state).wf(),
        old(state)@.order() == 0 ==> final(state)@ == old(state)@ && final(values)@ == old(
            values,
        )@,
        old(state)@.order() > 0 ==> exists|novels: Seq<i32>|
            {
                &&& (final(state)@, final(values)@) == #[trigger] stage_decoded(
                    old(state)@,
                    old(values)@,
                    novels,
                )
                &&& answered(policy, old(values)@, final(values)@, novels)
            },
{
    if state.order() == 0 {
        return Ok(());
    }
    let mut ask = policy;
    let ghost start = state@;
    let ghost input = values@;
    let ghost mut novels = Seq::<i32>::empty();
    let n: usize = values.len();
    let mut i: usize = 0;
    proof {
        assert(input.take(0) =~= Seq::<i32>::empty());
        assert(values@.take(0) =~= Seq::<i32>::empty());
    }
    while i < n
        invariant
            i <= n,
            n == values@.len(),
            n == input.len(),
            ask == policy,
            callable(policy),
            state.wf(),
            start.order() > 0,
            novels.len() == i,
            (state@, values@.take(i as int)) == stage_decoded(start, input.take(i as int), novels),
            forall|k: int| i <= k < n ==> values@[k] == input[k],
            forall|k: int|
                0 <= k < i ==> call_ensures(
                    policy,
                    (input[k], values@[k]),
                    #[trigger] novels[k],
                ),
        decreases n - i,
    {
        let ghost before = values@;
        let residual: i32 = values[i];
        let filtered = state.decode_value(residual);
        values[i] = filtered;
        let novel = ask(residual, filtered);
        state.push(novel);
        proof {
            lemma_decoded_step(start, input, novels, i as int, novel);
            novels = novels.push(novel);
            assert(values@.take(i as int + 1) =~= before.take(i as int).push(filtered));
        }
        i = i + 1;
    }
    proof {
        assert(values@.take(n as int) =~= values@);
        assert(input.take(n as int) =~= input);
        assert(answered(policy, input, values@, novels));
    }
    Ok(())
}

/// Encodes a buffer of values in place; the mirror of
/// [`filter_stage_decode`]. The policy is shown the same pairs.
pub fn filter_stage_encode<P>(values: &mut [i32], state: &mut StageState, policy: P) -> (res:
    Result<()>) where P: FnMut(i32, i32) -> i32
    requires
        old(state).wf(),
        callable(policy),
    ensures
        res == Ok::<(), Error>(()),
        final(state).wf(),
        old(state)@.order() == 0 ==> final(state)@ == old(state)@ && final(values)@ == old(
            values,
        )@,
        old(state)@.order() > 0 ==> exists|novels: Seq<i32>|
            {
                &&& (final(state)@, final(values)@) == #[trigger] stage_encoded(
                    old(state)@,
                    old(values)@,
                    novels,
                )
                &&& answered(policy, final(values)@, old(values)@, novels)
            },
{
    if state.order() == 0 {
        return Ok(());
    }
    let mut ask = policy;
    let ghost start = state@;
    let ghost input = values@;
    let ghost mut novels = Seq::<i32>::empty();
    let n: usize = values.len();
    let mut i: usize = 0;
    proof {
        assert(input.take(0) =~= Seq::<i32>::empty());
        assert(values@.take(0) =~= Seq::<i32>::empty());
    }
    while i < n
        invariant
            i <= n,
            n == values@.len(),
            n == input.len(),
            ask == policy,
            callable(policy),
            state.wf(),
            start.order() > 0,
            novels.len() == i,
            (state@, values@.take(i as int)) == stage_encoded(start, input.take(i as int), novels),
            forall|k: int| i <= k < n ==> values@[k] == input[k],
            forall|k: int|
                0 <= k < i ==> call_ensures(
                    policy,
                    (values@[k], input[k]),
                    #[trigger] novels[k],
                ),
        decreases n - i,
    {
        let ghost before = values@;
        let filtered: i32 = values[i];
        let residual = state.encode_value(filtered);
        values[i] = residual;
        let novel = ask(residual, filtered);
        state.push(novel);
        proof {
            lemma_encoded_step(start, input, novels, i as int, novel);
            novels = novels.push(novel);
            assert(values@.take(i as int + 1) =~= before.take(i as int).push(residual));
        }
        i = i + 1;
    }
    proof {
        assert(values@.take(n as int) =~= values@);
        assert(input.take(n as int) =~= input);
        assert(answered(policy, values@, input, novels));
    }
    Ok(())
}

/// The models of several stages.
pub open spec fn models(states: Seq<StageState>) -> Seq<StageModel> {
    states.map_values(|s: StageState| s@)
}

/// All stages are in order.
pub open spec fn all_wf(states: Seq<StageState>) -> bool {
    forall|k: int| 0 <= k < states.len() ==> (#[trigger] states[k]).wf()
}

/// Decodes a buffer through stage `k`.
fn decode_at<P>(values: &mut [i32], state: &mut StageState, k: usize, policy: &mut P) -> (novels:
    Ghost<Seq<i32>>) where P: FnMut(usize, i32, i32) -> i32
    requires
        old(state).wf(),
        callable_at(*old(policy)),
    ensures
        final(state).wf(),
        *final(policy) == *old(policy),
        (final(state)@, final(values)@) == stage_decoded(old(state)@, old(values)@, novels@),
        old(state)@.order() > 0 ==> answered_at(
            *old(policy),
            k,
            old(values)@,
            final(values)@,
            novels@,
        ),
{
    let ghost start = state@;
    let ghost input = values@;
    let ghost mut novels = Seq::<i32>::empty();
    if state.order() == 0 {
        return Ghost(novels);
    }
    let ghost asked = *policy;
    let n: usize = values.len();
    let mut i: usize = 0;
    proof {
        assert(input.take(0) =~= Seq::<i32>::empty());
        assert(values@.take(0) =~= Seq::<i32>::empty());
    }
    while i < n
        invariant
            i <= n,
            n == values@.len(),
            n == input.len(),
            *policy == asked,
            callable_at(asked),
            state.wf(),
            start.order() > 0,
            novels.len() == i,
            (state@, values@.take(i as int)) == stage_decoded(start, input.take(i as int), novels),
            forall|t: int| i <= t < n ==> values@[t] == input[t],
            forall|t: int|
                0 <= t < i ==> call_ensures(
                    asked,
                    (k, input[t], values@[t]),
                    #[trigger] novels[t],
                ),
        decreases n - i,
    {
        let ghost before = values@;
        let residual: i32 = values[i];
        let filtered = state.decode_value(residual);
        values[i] = filtered;
        let novel = policy(k, residual, filtered);
        state.push(novel);
        proof {
            lemma_decoded_step(start, input, novels, i as int, novel);
            novels = novels.push(novel);
            assert(values@.take(i as int + 1) =~= before.take(i as int).push(filtered));
        }
        i = i + 1;
    }
    proof {
        assert(values@.take(n as int) =~= values@);
        assert(input.take(n as int) =~= input);
    }
    Ghost(novels)
}

/// Encodes a buffer through stage `k`.
fn encode_at<P>(values: &mut [i32], state: &mut StageState, k: usize, policy: &mut P) -> (novels:
    Ghost<Seq<i32>>) where P: FnMut(usize, i32, i32) -> i32
    requires
        old(state).wf(),
        callable_at(*old(policy)),
    ensures
        final(state).wf(),
        *final(policy) == *old(policy),
        (final(state)@, final(values)@) == stage_encoded(old(state)@, old(values)@, novels@),
        old(state)@.order() > 0 ==> answered_at(
            *old(policy),
            k,
            final(values)@,
            old(values)@,
            novels@,
        ),
{
    let ghost start = state@;
    let ghost input = values@;
    let ghost mut novels = Seq::<i32>::empty();
    if state.order() == 0 {
        return Ghost(novels);
    }
    let ghost asked = *policy;
    let n: usize = values.len();
    let mut i: usize = 0;
    proof {
        assert(input.take(0) =~= Seq::<i32>::empty());
        assert(values@.take(0) =~= Seq::<i32>::empty());
    }
    while i < n
        invariant
            i <= n,
            n == values@.len(),
            n == input.len(),
            *policy == asked,
            callable_at(asked),
            state.wf(),
            start.order() > 0,
            novels.len() == i,
            (state@, values@.take(i as int)) == stage_encoded(start, input.take(i as int), novels),
            forall|t: int| i <= t < n ==> values@[t] == input[t],
            forall|t: int|
                0 <= t < i ==> call_ensures(
                    asked,
                    (k, values@[t], input[t]),
                    #[trigger] novels[t],
                ),
        decreases n - i,
    {
        let ghost before = values@;
        let filtered: i32 = values[i];
        let residual = state.encode_value(filtered);
        values[i] = residual;
        let novel = policy(k, residual, filtered);
        state.push(novel);
        proof {
            lemma_encoded_step(start, input, novels, i as int, novel);
            novels = novels.push(novel);
            assert(values@.take(i as int + 1) =~= before.take(i as int).push(residual));
        }
        i = i + 1;
    }
    proof {
        assert(values@.take(n as int) =~= values@);
        assert(input.take(n as int) =~= input);
    }
    Ghost(novels)
}

/// Decodes through the first `n` stages.
fn decode_through<P>(
    values: &mut [i32],
    states: &mut [StageState],
    n: usize,
    policy: &mut P,
) -> (novels: Ghost<Seq<Seq<i32>>>) where P: FnMut(usize, i32, i32) -> i32
    requires
        n <= old(states)@.len(),
        all_wf(old(states)@),
        callable_at(*old(policy)),
    ensures
        *final(policy) == *old(policy),
        final(states)@.len() == old(states)@.len(),
        all_wf(final(states)@),
        forall|k: int| n <= k < old(states)@.len() ==> final(states)@[k] == old(states)@[k],
        (models(final(states)@.take(n as int)), final(values)@) == cascade_decoded(
            models(old(states)@.take(n as int)),
            old(values)@,
            novels@,
        ),
        answered_decode(
            *old(policy),
            models(old(states)@.take(n as int)),
            old(values)@,
            novels@,
        ),
    decreases n,
{
    if n == 0 {
        assert(models(states@.take(0)) =~= Seq::<StageModel>::empty());
        return Ghost(Seq::empty());
    }
    let k: usize = n - 1;
    let ghost start = states@;
    let ghost input = values@;
    let Ghost(last) = decode_at(values, &mut states[k], k, policy);
    let ghost middle = states@;
    proof {
        assert forall|j: int| 0 <= j < middle.len() implies (#[trigger] middle[j]).wf() by {
            if j != k {
                assert(middle[j] == start[j]);
            }
        }
    }
    let Ghost(head) = decode_through(values, states, k, policy);
    let ghost novels = head.push(last);
    proof {
        let ms = models(start.take(n as int));
        assert(ms.drop_last() =~= models(middle.take(k as int)));
        assert(ms.last() == start[k as int]@);
        assert(novels.drop_last() =~= head);
        assert(novels.last() == last);
        assert(models(states@.take(n as int)) =~= models(states@.take(k as int)).push(
            middle[k as int]@,
        ));
        lemma_answered_len(*policy, ms.drop_last(), stage_decoded(ms.last(), input, last).1, head);
    }
    Ghost(novels)
}

proof fn lemma_answered_len<P: FnMut(usize, i32, i32) -> i32>(
    policy: P,
    states: Seq<StageModel>,
    values: Seq<i32>,
    novels: Seq<Seq<i32>>,
)
    requires
        answered_decode(policy, states, values, novels),
    ensures
        novels.len() == states.len(),
{
}

/// Encodes through the first `n` stages.
fn encode_through<P>(
    values: &mut [i32],
    states: &mut [StageState],
    n: usize,
    policy: &mut P,
) -> (novels: Ghost<Seq<Seq<i32>>>) where P: FnMut(usize, i32, i32) -> i32
    requires
        n <= old(states)@.len(),
        all_wf(old(states)@),
        callable_at(*old(policy)),
    ensures
        *final(policy) == *old(policy),
        final(states)@.len() == old(states)@.len(),
        all_wf(final(states)@),
        forall|k: int| n <= k < old(states)@.len() ==> final(states)@[k] == old(states)@[k],
        (models(final(states)@.take(n as int)), final(values)@) == cascade_encoded(
            models(old(states)@.take(n as int)),
            old(values)@,
            novels@,
        ),
        answered_encode(
            *old(policy),
            models(old(states)@.take(n as int)),
            old(values)@,
            novels@,
        ),
        novels@.len() == n,
    decreases n,
{
    if n == 0 {
        assert(models(states@.take(0)) =~= Seq::<StageModel>::empty());
        return Ghost(Seq::empty());
    }
    let k: usize = n - 1;
    let ghost start = states@;
    let Ghost(head) = encode_through(values, states, k, policy);
    let ghost middle = states@;
    let Ghost(last) = encode_at(values, &mut states[k], k, policy);
    let ghost novels = head.push(last);
    proof {
        let ms = models(start.take(n as int));
        assert(ms.drop_last() =~= models(start.take(k as int)));
        assert(ms.last() == start[k as int]@);
        assert(novels.drop_last() =~= head);
        assert(novels.last() == last);
        assert(models(states@.take(n as int)) =~= models(middle.take(k as int)).push(
            states@[k as int]@,
        ));
        assert forall|j: int| 0 <= j < states@.len() implies (#[trigger] states@[j]).wf() by {
            if j != k {
                assert(states@[j] == middle[j]);
            }
        }
    }
    Ghost(novels)
}

/// Decodes a buffer through all stages, the last one first.
/// `policy(stage, residual, filtered)` names the element that enters the
/// window of a stage.
pub fn cascade_decode<P>(values: &mut [i32], states: &mut [StageState], policy: P) -> (res: Result<
    (),
>) where P: FnMut(usize, i32, i32) -> i32
    requires
        all_wf(old(states)@),
        callable_at(policy),
    ensures
        res == Ok::<(), Error>(()),
        final(states)@.len() == old(states)@.len(),
        all_wf(final(states)@),
        exists|novels: Seq<Seq<i32>>|
            {
                &&& (models(final(states)@), final(values)@) == #[trigger] cascade_decoded(
                    models(old(states)@),
                    old(values)@,
                    novels,
                )
                &&& answered_decode(policy, models(old(states)@), old(values)@, novels)
            },
{
    let mut ask = policy;
    let n: usize = states.len();
    let ghost start = states@;
    let Ghost(novels) = decode_through(values, states, n, &mut ask);
    proof {
        assert(start.take(n as int) =~= start);
        assert(states@.take(n as int) =~= states@);
        assert((models(states@), values@) == cascade_decoded(models(start), old(values)@, novels));
    }
    Ok(())
}

/// Encodes a buffer through all stages, the first one first; the inverse
/// of [`cascade_decode`].
pub fn cascade_encode<P>(values: &mut [i32], states: &mut [StageState], policy: P) -> (res: Result<
    (),
>) where P: FnMut(usize, i32, i32) -> i32
    requires
        all_wf(old(states)@),
        callable_at(policy),
    ensures
        res == Ok::<(), Error>(()),
        final(states)@.len() == old(states)@.len(),
        all_wf(final(states)@),
        exists|novels: Seq<Seq<i32>>|
            {
                &&& (models(final(states)@), final(values)@) == #[trigger] cascade_encoded(
                    models(old(states)@),
                    old(values)@,
                    novels,
                )
                &&& answered_encode(policy, models(old(states)@), old(values)@, novels)
            },
{
    let mut ask = policy;
    let n: usize = states.len();
    let ghost start = states@;
    let Ghost(novels) = encode_through(values, states, n, &mut ask);
    proof {
        assert(start.take(n as int) =~= start);
        assert(states@.take(n as int) =~= states@);
        assert((models(states@), values@) == cascade_encoded(models(start), old(values)@, novels));
    }
    Ok(())
}

} // verus!
