//! Adaptive FIR filter stage.
//!
//! A stage predicts the next value from the last `order` values with an
//! integer dot product, rounds the prediction by a half before the
//! fractional shift, and then moves every weight by the sign of the
//! residual times a per-tap step. The step that a new value contributes
//! depends on its sign and, in the newer of two eras, on its size
//! relative to a running average; steps decay by halves at fixed lags.
//!
//! The histories live in rolling buffers of [`NN_WINDOW`] elements behind
//! the `order` elements that the stage looks at.

use vstd::arithmetic::power2::*;
use vstd::bits::*;
use vstd::prelude::*;

use crate::arith::{
    div_toward_zero, floor_shift, lemma_wrap32, lemma_wrap32_sum, lemma_wrap32_undo, shift_down,
    trunc_div, wrap32, wrapping_difference, wrapping_product, wrapping_sum,
};
use crate::error::{Error, Result};
use crate::filter_config::FilterStage;
use crate::header::CompressionLevel;

verus! {

/// Length of the rolling part of the history buffers.
pub const NN_WINDOW: usize = 512;

/// First file version that uses era A.
pub const DELTA_ERA_SPLIT_VERSION: u16 = 3980;

/// Which rule maintains the adaptation steps.
#[derive(Debug, Clone, Copy, PartialEq, Eq, Hash, Structural)]
pub enum DeltaEra {
    /// From version 3980 on: three step sizes, chosen by a running
    /// average of the magnitude; decays at lags 1, 2 and 8.
    A,
    /// Before version 3980: one step size; decays at lags 4 and 8.
    B,
}

/// The era of a file version.
pub open spec fn era_of_version(version: u16) -> DeltaEra {
    if version >= DELTA_ERA_SPLIT_VERSION {
        DeltaEra::A
    } else {
        DeltaEra::B
    }
}

/// The era of a cascade stage: level 5000 always uses era A.
pub open spec fn era_of_stage(version: u16, level: CompressionLevel) -> DeltaEra {
    if level == CompressionLevel::Insane {
        DeltaEra::A
    } else {
        era_of_version(version)
    }
}

impl DeltaEra {
    /// The era of a file version.
    pub fn for_version(version: u16) -> (r: Self)
        ensures
            r == era_of_version(version),
    {
        if version >= DELTA_ERA_SPLIT_VERSION {
            DeltaEra::A
        } else {
            DeltaEra::B
        }
    }

    /// The era of a cascade stage.
    pub fn for_stage(version: u16, level: CompressionLevel) -> (r: Self)
        ensures
            r == era_of_stage(version, level),
    {
        if level == CompressionLevel::Insane {
            DeltaEra::A
        } else {
            Self::for_version(version)
        }
    }
}

// ---------------------------------------------------------------------
// Model
// ---------------------------------------------------------------------

/// A step of size `magnitude` against the sign of `w`.
pub open spec fn signed_step(w: int, magnitude: i16) -> i16 {
    if w < 0 {
        magnitude
    } else {
        (-magnitude) as i16
    }
}

/// `v`, saturated to the range of `i16`.
pub open spec fn saturated(v: int) -> i16 {
    if v > i16::MAX {
        i16::MAX
    } else if v < i16::MIN {
        i16::MIN
    } else {
        v as i16
    }
}

/// Half of `x`, rounded down.
pub open spec fn halved(x: i16) -> i16 {
    (x as int / 2) as i16
}

/// Halving keeps the sign of a step: zero and positive steps reach zero,
/// negative ones end at -1 and stay there.
pub proof fn law_decay(x: i16)
    ensures
        x >= 0 ==> 0 <= halved(x) <= x,
        x > 0 ==> halved(x) < x,
        x < 0 ==> x <= halved(x) <= -1,
        x < -1 ==> x < halved(x),
        x == -1 ==> halved(x) == -1,
{
}

/// The wrapped magnitude of `v`: that of `i32::MIN` is itself.
pub open spec fn wrapped_magnitude(v: i32) -> int {
    wrap32(if v < 0 {
        -(v as int)
    } else {
        v as int
    })
}

/// The sum of `a[k] * b[k]` over the first `n` elements.
pub open spec fn dot_sum(a: Seq<i16>, b: Seq<i16>, n: nat) -> int
    decreases n,
{
    if n == 0 {
        0
    } else {
        dot_sum(a, b, (n - 1) as nat) + a[n - 1] * b[n - 1]
    }
}

/// What a [`NnFilter`] stands for. The histories hold the last `order`
/// elements, the oldest first.
#[verifier::ext_equal]
pub ghost struct NnModel {
    pub order: nat,
    pub shift: nat,
    pub era: DeltaEra,
    pub m: Seq<i16>,
    pub input: Seq<i16>,
    pub delta: Seq<i16>,
    pub avg: i32,
}

/// A stage without history.
pub open spec fn fresh_nn(order: nat, shift: nat, era: DeltaEra) -> NnModel {
    NnModel {
        order,
        shift,
        era,
        m: Seq::new(order, |k: int| 0i16),
        input: Seq::new(order, |k: int| 0i16),
        delta: Seq::new(order, |k: int| 0i16),
        avg: 0,
    }
}

impl NnModel {
    /// The shape that [`NnFilter::new`] accepts.
    pub open spec fn wf(self) -> bool {
        &&& self.order >= 16
        &&& 1 <= self.shift <= 31
        &&& self.m.len() == self.order
        &&& self.input.len() == self.order
        &&& self.delta.len() == self.order
    }

    /// The dot product of the history with the weights, wrapped.
    pub open spec fn dot(self) -> int {
        wrap32(dot_sum(self.input, self.m, self.order))
    }

    /// The prediction: the dot product plus a half, shifted down.
    pub open spec fn prediction(self) -> int {
        floor_shift(wrap32(self.dot() + pow2((self.shift - 1) as nat)), self.shift)
    }

    /// The weights after a residual.
    pub open spec fn adapted(self, residual: i32) -> Seq<i16> {
        Seq::new(
            self.order,
            |k: int|
                if residual < 0 {
                    self.m[k].wrapping_add(self.delta[k])
                } else if residual > 0 {
                    self.m[k].wrapping_sub(self.delta[k])
                } else {
                    self.m[k]
                },
        )
    }

    /// The step that the value `signal` contributes.
    pub open spec fn new_step(self, signal: i32) -> i16 {
        match self.era {
            DeltaEra::A => {
                let a = wrapped_magnitude(signal);
                if a > wrap32(self.avg * 3) {
                    signed_step(signal as int, 32)
                } else if a > trunc_div(wrap32(self.avg * 4), 3) {
                    signed_step(signal as int, 16)
                } else if a > 0 {
                    signed_step(signal as int, 8)
                } else {
                    0
                }
            },
            DeltaEra::B => if signal == 0 {
                0
            } else {
                signed_step(signal as int, 4)
            },
        }
    }

    /// The element `lag` places back is halved after a new value.
    pub open spec fn decays(self, lag: int) -> bool {
        match self.era {
            DeltaEra::A => lag == 1 || lag == 2 || lag == 8,
            DeltaEra::B => lag == 4 || lag == 8,
        }
    }

    /// The steps after the value `signal`.
    pub open spec fn pushed_delta(self, signal: i32) -> Seq<i16> {
        Seq::new(
            self.order,
            |k: int|
                if k == self.order - 1 {
                    self.new_step(signal)
                } else if self.decays(self.order - 1 - k) {
                    halved(self.delta[k + 1])
                } else {
                    self.delta[k + 1]
                },
        )
    }

    /// The history after the value `signal`.
    pub open spec fn pushed_input(self, signal: i32) -> Seq<i16> {
        Seq::new(
            self.order,
            |k: int|
                if k == self.order - 1 {
                    saturated(signal as int)
                } else {
                    self.input[k + 1]
                },
        )
    }

    /// The running average after the value `signal`.
    pub open spec fn pushed_avg(self, signal: i32) -> i32 {
        match self.era {
            DeltaEra::A => wrap32(
                self.avg + trunc_div(wrap32(wrapped_magnitude(signal) - self.avg), 16),
            ) as i32,
            DeltaEra::B => self.avg,
        }
    }

    /// The stage after the value `signal`, whose residual was `residual`.
    #[verifier::opaque]
    pub open spec fn advanced(self, residual: i32, signal: i32) -> NnModel {
        NnModel {
            m: self.adapted(residual),
            input: self.pushed_input(signal),
            delta: self.pushed_delta(signal),
            avg: self.pushed_avg(signal),
            ..self
        }
    }

    /// Decoding a residual: the stage after it, and the value.
    pub open spec fn decode(self, residual: i32) -> (NnModel, i32) {
        let signal = wrap32(residual + self.prediction()) as i32;
        (self.advanced(residual, signal), signal)
    }

    /// Encoding a value: the stage after it, and the residual.
    pub open spec fn encode(self, signal: i32) -> (NnModel, i32) {
        let residual = wrap32(signal - self.prediction()) as i32;
        (self.advanced(residual, signal), residual)
    }
}

/// Decoding the residual of a value gives the value back and leaves the
/// decoding stage in the same state as the encoding one.
pub proof fn law_nn_round_trip(stage: NnModel, signal: i32)
    ensures
        stage.decode(stage.encode(signal).1) == (stage.encode(signal).0, signal),
{
    lemma_wrap32(signal - stage.prediction());
    lemma_wrap32_undo(signal as int, stage.prediction());
}

// ---------------------------------------------------------------------
// Stage
// ---------------------------------------------------------------------

/// One adaptive FIR stage.
#[derive(Debug, Clone)]
pub struct NnFilter {
    pub order: usize,
    pub shift: u32,
    pub era: DeltaEra,
    /// Weights.
    pub m: Vec<i16>,
    /// Rolling history of values.
    pub input: Vec<i16>,
    /// Rolling history of adaptation steps.
    pub delta: Vec<i16>,
    /// Write position in both histories.
    pub cursor: usize,
    /// Running average of the magnitude, used in era A.
    pub avg: i32,
}

impl View for NnFilter {
    type V = NnModel;

    open spec fn view(&self) -> NnModel {
        NnModel {
            order: self.order as nat,
            shift: self.shift as nat,
            era: self.era,
            m: self.m@,
            input: self.input@.subrange(self.cursor - self.order, self.cursor as int),
            delta: self.delta@.subrange(self.cursor - self.order, self.cursor as int),
            avg: self.avg,
        }
    }
}

/// A vector of `n` zeros.
fn zeros(n: usize) -> (r: Vec<i16>)
    ensures
        r@ == Seq::new(n as nat, |k: int| 0i16),
{
    let mut r: Vec<i16> = Vec::new();
    let mut i: usize = 0;
    while i < n
        invariant
            i <= n,
            r@ == Seq::new(i as nat, |k: int| 0i16),
        decreases n - i,
    {
        r.push(0);
        i = i + 1;
        assert(r@ =~= Seq::new(i as nat, |k: int| 0i16));
    }
    r
}

/// A step of size `magnitude` against the sign of `w`.
fn sign_step(w: i32, magnitude: i16) -> (r: i16)
    requires
        0 <= magnitude <= 32,
    ensures
        r == signed_step(w as int, magnitude),
{
    if w < 0 {
        magnitude
    } else {
        -magnitude
    }
}

/// `v`, saturated to the range of `i16`.
fn saturate_i16(v: i32) -> (r: i16)
    ensures
        r == saturated(v as int),
{
    if v > 32767 {
        32767
    } else if v < -32768 {
        -32768
    } else {
        v as i16
    }
}

/// Half of `x`, rounded down.
fn halve(x: i16) -> (r: i16)
    ensures
        r == halved(x),
{
    proof {
        lemma2_to64();
    }
    shift_down(x as i32, 1) as i16
}

/// The wrapped magnitude of `v`.
fn magnitude(v: i32) -> (r: i32)
    ensures
        r == wrapped_magnitude(v),
{
    if v < 0 {
        wrapping_difference(0, v)
    } else {
        v
    }
}

impl NnFilter {
    /// The buffers have their lengths and the cursor is behind `order`
    /// elements.
    pub open spec fn wf(&self) -> bool {
        &&& self.order >= 16
        &&& 1 <= self.shift <= 31
        &&& self.order + NN_WINDOW <= usize::MAX
        &&& self.m@.len() == self.order
        &&& self.input@.len() == NN_WINDOW + self.order
        &&& self.delta@.len() == NN_WINDOW + self.order
        &&& self.order <= self.cursor < NN_WINDOW + self.order
    }

    /// A stage of `order` taps, a positive multiple of 16, with a
    /// fractional shift from 1 to 31.
    pub fn new(order: usize, shift: u32, era: DeltaEra) -> (r: Result<Self>)
        requires
            order % 16 == 0 && 1 <= shift <= 31 ==> order <= usize::MAX - NN_WINDOW,
        ensures
            r matches Ok(f) ==> f.wf() && f@ == fresh_nn(order as nat, shift as nat, era),
            r is Ok <==> order != 0 && order % 16 == 0 && 1 <= shift <= 31,
            (order == 0 || order % 16 != 0) ==> r == Err::<NnFilter, Error>(
                Error::Malformed("adaptive-filter order must be a positive multiple of 16"),
            ),
            order != 0 && order % 16 == 0 && !(1 <= shift <= 31) ==> r == Err::<NnFilter, Error>(
                Error::Malformed("adaptive-filter shift outside the representable range"),
            ),
    {
        if order == 0 || order % 16 != 0 {
            return Err(Error::Malformed("adaptive-filter order must be a positive multiple of 16"));
        }
        if shift == 0 || shift > 31 {
            return Err(Error::Malformed("adaptive-filter shift outside the representable range"));
        }
        let f = NnFilter {
            order,
            shift,
            era,
            m: zeros(order),
            input: zeros(NN_WINDOW + order),
            delta: zeros(NN_WINDOW + order),
            cursor: order,
            avg: 0,
        };
        assert(f@ =~= fresh_nn(order as nat, shift as nat, era));
        Ok(f)
    }

    /// The stage for a row of the cascade table.
    pub fn for_stage(stage: FilterStage, version: u16, level: CompressionLevel) -> (r: Result<Self>)
        ensures
            r matches Ok(f) ==> f.wf() && f@ == fresh_nn(
                stage.order as nat,
                stage.shift as nat,
                era_of_stage(version, level),
            ),
            r is Ok <==> stage.order != 0 && stage.order % 16 == 0 && 1 <= stage.shift <= 31,
            (stage.order == 0 || stage.order % 16 != 0) ==> r == Err::<NnFilter, Error>(
                Error::Malformed("adaptive-filter order must be a positive multiple of 16"),
            ),
            stage.order != 0 && stage.order % 16 == 0 && !(1 <= stage.shift <= 31) ==> r == Err::<
                NnFilter,
                Error,
            >(Error::Malformed("adaptive-filter shift outside the representable range")),
    {
        Self::new(stage.order as usize, stage.shift as u32, DeltaEra::for_stage(version, level))
    }

    /// Number of taps.
    pub fn order(&self) -> (r: usize)
        ensures
            r == self@.order,
    {
        self.order
    }

    /// Fractional shift.
    pub fn shift(&self) -> (r: u32)
        ensures
            r == self@.shift,
    {
        self.shift
    }

    /// The era of the adaptation steps.
    pub fn era(&self) -> (r: DeltaEra)
        ensures
            r == self@.era,
    {
        self.era
    }

    /// Forgets all history.
    pub fn reset(&mut self)
        requires
            old(self).wf(),
        ensures
            final(self).wf(),
            final(self)@ == fresh_nn(old(self)@.order, old(self)@.shift, old(self)@.era),
    {
        self.m = zeros(self.order);
        self.input = zeros(NN_WINDOW + self.order);
        self.delta = zeros(NN_WINDOW + self.order);
        self.cursor = self.order;
        self.avg = 0;
        assert(self@ =~= fresh_nn(old(self)@.order, old(self)@.shift, old(self)@.era));
    }

    /// The dot product of the last `order` values with the weights,
    /// wrapped.
    pub fn dot(&self) -> (r: i32)
        requires
            self.wf(),
        ensures
            r == self@.dot(),
    {
        let base: usize = self.cursor - self.order;
        let mut acc: i32 = 0;
        let mut j: usize = 0;
        proof {
            lemma_wrap32(0);
        }
        while j < self.order
            invariant
                self.wf(),
                j <= self.order,
                base == self.cursor - self.order,
                acc == wrap32(dot_sum(self@.input, self.m@, j as nat)),
            decreases self.order - j,
        {
            let x: i32 = self.input[base + j] as i32;
            let w: i32 = self.m[j] as i32;
            proof {
                assert(self@.input[j as int] == self.input@[base + j]);
                assert(-0x4000_0000 <= x * w <= 0x4000_0000) by (nonlinear_arith)
                    requires
                        -0x8000 <= x <= 0x7FFF,
                        -0x8000 <= w <= 0x7FFF,
                ;
                lemma_wrap32(x * w);
                lemma_wrap32_sum(dot_sum(self@.input, self.m@, j as nat), x * w);
            }
            acc = wrapping_sum(acc, wrapping_product(x, w));
            j = j + 1;
        }
        acc
    }

    /// Moves every weight by its step against the sign of `incoming`.
    fn adapt_weights(&mut self, incoming: i32)
        requires
            old(self).wf(),
        ensures
            final(self).wf(),
            final(self).m@ == old(self)@.adapted(incoming),
            final(self)@ == (NnModel { m: old(self)@.adapted(incoming), ..old(self)@ }),
    {
        let base: usize = self.cursor - self.order;
        let mut j: usize = 0;
        let ghost before = *self;
        while j < self.order
            invariant
                self.wf(),
                before == *old(self),
                j <= self.order,
                base == self.cursor - self.order,
                self.order == before.order,
                self.shift == before.shift,
                self.era == before.era,
                self.input == before.input,
                self.delta == before.delta,
                self.cursor == before.cursor,
                self.avg == before.avg,
                forall|k: int| 0 <= k < j ==> self.m@[k] == before@.adapted(incoming)[k],
                forall|k: int| j <= k < self.order ==> self.m@[k] == before.m@[k],
            decreases self.order - j,
        {
            let step: i16 = self.delta[base + j];
            assert(before@.delta[j as int] == step);
            let w: i16 = self.m[j];
            let next: i16 = if incoming < 0 {
                w.wrapping_add(step)
            } else if incoming > 0 {
                w.wrapping_sub(step)
            } else {
                w
            };
            self.m[j] = next;
            j = j + 1;
        }
        assert(self.m@ =~= before@.adapted(incoming));
    }

    /// The step that the value `signal` contributes.
    fn step_for(&self, signal: i32) -> (r: i16)
        ensures
            r == self@.new_step(signal),
    {
        match self.era {
            DeltaEra::A => {
                let a = magnitude(signal);
                if a > wrapping_product(self.avg, 3) {
                    sign_step(signal, 32)
                } else if a > div_toward_zero(wrapping_product(self.avg, 4), 3) {
                    sign_step(signal, 16)
                } else if a > 0 {
                    sign_step(signal, 8)
                } else {
                    0
                }
            },
            DeltaEra::B => {
                if signal == 0 {
                    0
                } else {
                    sign_step(signal, 4)
                }
            },
        }
    }

    /// Stores the value `signal`, its step and the decays, and advances
    /// the rolling buffers.
    fn push_and_advance(&mut self, signal: i32)
        requires
            old(self).wf(),
        ensures
            final(self).wf(),
            final(self)@ == (NnModel {
                input: old(self)@.pushed_input(signal),
                delta: old(self)@.pushed_delta(signal),
                avg: old(self)@.pushed_avg(signal),
                ..old(self)@
            }),
    {
        let ghost before = *self;
        let c: usize = self.cursor;
        let step = self.step_for(signal);
        self.input[c] = saturate_i16(signal);
        self.delta[c] = step;
        match self.era {
            DeltaEra::A => {
                let gap = wrapping_difference(magnitude(signal), self.avg);
                self.avg = wrapping_sum(self.avg, div_toward_zero(gap, 16));
                let d1: i16 = halve(self.delta[c - 1]);
                self.delta[c - 1] = d1;
                let d2: i16 = halve(self.delta[c - 2]);
                self.delta[c - 2] = d2;
                let d8: i16 = halve(self.delta[c - 8]);
                self.delta[c - 8] = d8;
            },
            DeltaEra::B => {
                let d4: i16 = halve(self.delta[c - 4]);
                self.delta[c - 4] = d4;
                let d8: i16 = halve(self.delta[c - 8]);
                self.delta[c - 8] = d8;
            },
        }
        let ghost lo = c - self.order + 1;
        proof {
            let window_in = self.input@.subrange(lo, c as int + 1);
            let window_delta = self.delta@.subrange(lo, c as int + 1);
            assert(window_in =~= before@.pushed_input(signal));
            assert(window_delta =~= before@.pushed_delta(signal));
            assert(self.avg == before@.pushed_avg(signal));
        }
        self.cursor = c + 1;
        if self.cursor == NN_WINDOW + self.order {
            let ghost full = *self;
            let mut k: usize = 0;
            while k < self.order
                invariant
                    k <= self.order,
                    self.order == full.order,
                    self.order + NN_WINDOW <= usize::MAX,
                    self.input@.len() == NN_WINDOW + self.order,
                    self.delta@.len() == NN_WINDOW + self.order,
                    self.m == full.m,
                    self.shift == full.shift,
                    self.era == full.era,
                    self.avg == full.avg,
                    full.input@.len() == NN_WINDOW + self.order,
                    full.delta@.len() == NN_WINDOW + self.order,
                    forall|t: int| 0 <= t < k ==> self.input@[t] == full.input@[NN_WINDOW + t],
                    forall|t: int| 0 <= t < k ==> self.delta@[t] == full.delta@[NN_WINDOW + t],
                    forall|t: int|
                        k <= t < NN_WINDOW + self.order ==> self.input@[t] == full.input@[t],
                    forall|t: int|
                        k <= t < NN_WINDOW + self.order ==> self.delta@[t] == full.delta@[t],
                decreases self.order - k,
            {
                let x: i16 = self.input[NN_WINDOW + k];
                let d: i16 = self.delta[NN_WINDOW + k];
                self.input[k] = x;
                self.delta[k] = d;
                k = k + 1;
            }
            self.cursor = self.order;
            proof {
                assert(self.input@.subrange(0, self.order as int) =~= full.input@.subrange(
                    lo,
                    c as int + 1,
                ));
                assert(self.delta@.subrange(0, self.order as int) =~= full.delta@.subrange(
                    lo,
                    c as int + 1,
                ));
            }
        }
    }

    /// The prediction for the next value.
    fn predict(&self) -> (r: i32)
        requires
            self.wf(),
        ensures
            r == self@.prediction(),
    {
        let s: u32 = self.shift;
        proof {
            lemma2_to64();
            lemma_pow2_strictly_increases((s - 1) as nat, 31);
            lemma_u32_shl_is_mul(1, (s - 1) as u32);
        }
        let half: u32 = 1u32 << (s - 1);
        shift_down(wrapping_sum(self.dot(), half as i32), s)
    }

    /// Decodes a residual to a value.
    pub fn decode(&mut self, residual: i32) -> (r: i32)
        requires
            old(self).wf(),
        ensures
            final(self).wf(),
            (final(self)@, r) == old(self)@.decode(residual),
    {
        proof {
            reveal(NnModel::advanced);
        }
        let p = self.predict();
        self.adapt_weights(residual);
        let signal = wrapping_sum(residual, p);
        self.push_and_advance(signal);
        assert(self@ == old(self)@.advanced(residual, signal));
        signal
    }

    /// Encodes a value to a residual; the mirror of
    /// [`NnFilter::decode`].
    pub fn encode(&mut self, signal: i32) -> (r: i32)
        requires
            old(self).wf(),
        ensures
            final(self).wf(),
            (final(self)@, r) == old(self)@.encode(signal),
    {
        proof {
            reveal(NnModel::advanced);
        }
        let p = self.predict();
        let residual = wrapping_difference(signal, p);
        self.adapt_weights(residual);
        self.push_and_advance(signal);
        assert(self@ == old(self)@.advanced(residual, signal));
        residual
    }
}

} // verus!
