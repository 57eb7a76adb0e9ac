//! The predictor chain of one coded array: adaptive filter stages, an
//! integer offset predictor and a scaled first-order filter.
//!
//! From file version 3950 on the offset predictor has two arms, one over
//! the signal's own history and one over the other channel; before that
//! it has one arm, and the first-order stage is folded into it.
//!
//! Both directions of every part share one state transition, keyed on the
//! same residual and the same signal, so the two sides of the codec stay
//! in the same state.

use vstd::arithmetic::power2::*;
use vstd::prelude::*;

use crate::arith::{
    floor_shift, lemma_wrap32, lemma_wrap32_sum, lemma_wrap32_undo, shift_down, wrap32,
    wrapping_difference, wrapping_product, wrapping_sum,
};
use crate::cascade::zero_vec;
use crate::error::{Error, Result};
use crate::filter_config::{law_level_stages, level_stages, FilterCascade};
use crate::header::CompressionLevel;
use crate::nn_filter::{era_of_stage, fresh_nn, law_nn_round_trip, NnFilter, NnModel};

verus! {

/// Lowest file version with a known predictor.
pub const PREDICTOR_MIN_VERSION: u16 = 3930;

/// First file version with the two-arm offset predictor.
pub const CROSS_TERM_VERSION: u16 = 3950;

/// Length of the rolling part of the offset-predictor buffers.
pub const OFFSET_WINDOW: usize = 512;

/// Number of history elements that the offset predictors keep.
pub const OFFSET_HISTORY: usize = 8;

/// Initial weights of the own-history arm; the others start at zero.
pub const OFFSET_WEIGHT_SEEDS: [i32; 4] = [360, 317, -109, 98];

// ---------------------------------------------------------------------
// First-order filter
// ---------------------------------------------------------------------

/// `31/32` of `state`, in wrapped arithmetic, rounded down.
pub open spec fn leaked(state: i32) -> int {
    floor_shift(wrap32(state * 31), 5)
}

/// The value that a difference `v` against `state` stands for.
pub open spec fn first_order_up(state: i32, v: i32) -> i32 {
    wrap32(v + leaked(state)) as i32
}

/// The difference of `v` against `state`.
pub open spec fn first_order_down(state: i32, v: i32) -> i32 {
    wrap32(v - leaked(state)) as i32
}

/// Scaled first-order filter: one word of state.
#[derive(Debug, Clone, Copy, Default, PartialEq, Eq)]
pub struct FirstOrderFilter {
    pub state: i32,
}

fn leak(state: i32) -> (r: i32)
    ensures
        r == leaked(state),
{
    shift_down(wrapping_product(state, 31), 5)
}

impl FirstOrderFilter {
    /// A filter with zero state.
    pub fn new() -> (r: Self)
        ensures
            r.state == 0,
    {
        FirstOrderFilter { state: 0 }
    }

    /// Turns a difference into a value, which becomes the state.
    pub fn decompress(&mut self, v: i32) -> (r: i32)
        ensures
            r == first_order_up(old(self).state, v),
            final(self).state == r,
    {
        self.state = wrapping_sum(v, leak(self.state));
        self.state
    }

    /// Turns a value, which becomes the state, into a difference.
    pub fn compress(&mut self, v: i32) -> (r: i32)
        ensures
            r == first_order_down(old(self).state, v),
            final(self).state == v,
    {
        let out = wrapping_difference(v, leak(self.state));
        self.state = v;
        out
    }
}

/// Decompressing a compressed value gives the value back, and both
/// directions move to the same state.
pub proof fn law_first_order_round_trip(state: i32, v: i32)
    ensures
        first_order_up(state, first_order_down(state, v)) == v,
{
    lemma_wrap32(v - leaked(state));
    lemma_wrap32_undo(v as int, leaked(state));
}

// ---------------------------------------------------------------------
// Taps and weights
// ---------------------------------------------------------------------

/// The direction in which a weight moves for the tap `p`.
pub open spec fn sign_of(p: i32) -> i32 {
    if p == 0 {
        0
    } else if p < 0 {
        1
    } else {
        -1i32
    }
}

/// The direction in which a weight moves for the tap `p`.
fn sign_flag(p: i32) -> (r: i32)
    ensures
        r == sign_of(p),
{
    if p == 0 {
        0
    } else if p < 0 {
        1
    } else {
        -1
    }
}

/// The sum of `taps[k] * weights[k]` over the first `n` taps.
pub open spec fn tap_sum(taps: Seq<i32>, weights: Seq<i32>, n: nat) -> int
    decreases n,
{
    if n == 0 {
        0
    } else {
        tap_sum(taps, weights, (n - 1) as nat) + taps[n - 1] * weights[n - 1]
    }
}

/// The weight `w` of the tap `p` after the input `v`.
pub open spec fn moved_weight(w: i32, p: i32, v: i32) -> i32 {
    if v > 0 {
        wrap32(w - sign_of(p)) as i32
    } else if v < 0 {
        wrap32(w + sign_of(p)) as i32
    } else {
        w
    }
}

/// The weights after the input `v`: one unit per tap.
pub open spec fn moved_weights(weights: Seq<i32>, taps: Seq<i32>, v: i32) -> Seq<i32> {
    Seq::new(
        weights.len(),
        |k: int|
            if k < taps.len() {
                moved_weight(weights[k], taps[k], v)
            } else {
                weights[k]
            },
    )
}

/// The initial weights of the own-history arm.
pub open spec fn seed_weights() -> Seq<i32> {
    seq![360i32, 317, -109i32, 98, 0, 0, 0, 0]
}

/// Eight zeros.
pub open spec fn zero_window() -> Seq<i32> {
    seq![0i32, 0, 0, 0, 0, 0, 0, 0]
}

/// Adds one product to a wrapped sum.
fn accumulate(acc: i32, x: i32, w: i32, Ghost(sum): Ghost<int>) -> (r: i32)
    requires
        acc == wrap32(sum),
    ensures
        r == wrap32(sum + x * w),
{
    proof {
        lemma_wrap32_sum(x * w, acc as int);
        lemma_wrap32_sum(sum, x * w);
    }
    wrapping_sum(acc, wrapping_product(x, w))
}

/// The weight `w` after the input `v`, `step` being its direction.
fn move_weight(w: i32, step: i32, v: i32) -> (r: i32)
    ensures
        r == (if v > 0 {
            wrap32(w - step)
        } else if v < 0 {
            wrap32(w + step)
        } else {
            w as int
        }),
{
    if v > 0 {
        wrapping_difference(w, step)
    } else if v < 0 {
        wrapping_sum(w, step)
    } else {
        w
    }
}

// ---------------------------------------------------------------------
// One arm
// ---------------------------------------------------------------------

/// The window of an arm after `x`: the newest element becomes a first
/// difference, then `x` is appended and the oldest element leaves.
pub open spec fn pushed_window(w: Seq<i32>, x: i32) -> Seq<i32> {
    seq![w[1], w[2], w[3], w[4], w[5], w[6], wrap32(x - w[7]) as i32, x]
}

/// The taps of an arm for the new element `x`, the newest first.
pub open spec fn arm_taps(w: Seq<i32>, x: i32, n: nat) -> Seq<i32> {
    Seq::new(n, |k: int| pushed_window(w, x)[7 - k])
}

/// One arm of the two-arm predictor: a rolling history and, for every
/// element, the direction in which its weight moves.
#[derive(Debug, Clone)]
pub struct OffsetArm {
    pub pred: Vec<i32>,
    pub adapt: Vec<i32>,
}

impl OffsetArm {
    /// The last eight elements before `cursor`.
    pub open spec fn window(&self, cursor: int) -> Seq<i32> {
        self.pred@.subrange(cursor - 8, cursor)
    }

    /// The buffers have their lengths, and the directions of the last
    /// eight elements before `cursor` are up to date.
    pub open spec fn wf(&self, cursor: int) -> bool {
        &&& self.pred@.len() == 520
        &&& self.adapt@.len() == 520
        &&& 8 <= cursor <= 520
        &&& forall|k: int|
            cursor - 8 <= k < cursor ==> #[trigger] self.adapt@[k] == sign_of(self.pred@[k])
    }

    fn new() -> (r: Self)
        ensures
            r.wf(8),
            r.window(8) == zero_window(),
    {
        let r = OffsetArm {
            pred: zero_vec(OFFSET_WINDOW + OFFSET_HISTORY),
            adapt: zero_vec(OFFSET_WINDOW + OFFSET_HISTORY),
        };
        assert(r.window(8) =~= zero_window());
        r
    }

    /// Stores `x` at the cursor.
    fn push(&mut self, c: usize, x: i32)
        requires
            old(self).wf(c as int),
            c < 520,
        ensures
            final(self).wf(c as int + 1),
            final(self).window(c as int + 1) == pushed_window(old(self).window(c as int), x),
    {
        let ghost before = *self;
        self.pred[c] = x;
        let diff: i32 = wrapping_difference(x, self.pred[c - 1]);
        self.pred[c - 1] = diff;
        self.adapt[c] = sign_flag(x);
        self.adapt[c - 1] = sign_flag(diff);
        proof {
            assert forall|k: int| c - 7 <= k < c + 1 implies #[trigger] self.adapt@[k] == sign_of(
                self.pred@[k],
            ) by {
                if k < c - 1 {
                    assert(before.adapt@[k] == sign_of(before.pred@[k]));
                }
            }
            assert(self.window(c as int + 1) =~= pushed_window(before.window(c as int), x));
        }
    }

    /// The wrapped sum of the first `n` taps against `weights`.
    fn predict(&self, c: usize, weights: &[i32; 8], n: usize) -> (r: i32)
        requires
            self.wf(c as int + 1),
            n <= 8,
        ensures
            r == wrap32(
                tap_sum(
                    Seq::new(n as nat, |k: int| self.window(c as int + 1)[7 - k]),
                    weights@,
                    n as nat,
                ),
            ),
    {
        let ghost taps = Seq::new(n as nat, |k: int| self.window(c as int + 1)[7 - k]);
        let mut acc: i32 = 0;
        let mut i: usize = 0;
        proof {
            lemma_wrap32(0);
        }
        while i < n
            invariant
                i <= n <= 8,
                self.wf(c as int + 1),
                taps == Seq::new(n as nat, |k: int| self.window(c as int + 1)[7 - k]),
                acc == wrap32(tap_sum(taps, weights@, i as nat)),
            decreases n - i,
        {
            assert(taps[i as int] == self.pred@[c - i]);
            acc = accumulate(
                acc,
                self.pred[c - i],
                weights[i],
                Ghost(tap_sum(taps, weights@, i as nat)),
            );
            i = i + 1;
        }
        acc
    }

    /// Moves the first `n` weights for the input `v`.
    fn adapt_weights(&self, c: usize, weights: &mut [i32; 8], n: usize, v: i32)
        requires
            self.wf(c as int + 1),
            n <= 8,
        ensures
            final(weights)@ == moved_weights(
                old(weights)@,
                Seq::new(n as nat, |k: int| self.window(c as int + 1)[7 - k]),
                v,
            ),
    {
        let ghost taps = Seq::new(n as nat, |k: int| self.window(c as int + 1)[7 - k]);
        let ghost before = weights@;
        let mut i: usize = 0;
        while i < n
            invariant
                i <= n <= 8,
                self.wf(c as int + 1),
                weights@.len() == 8,
                before == old(weights)@,
                before.len() == 8,
                taps == Seq::new(n as nat, |k: int| self.window(c as int + 1)[7 - k]),
                forall|k: int| 0 <= k < i ==> weights@[k] == moved_weight(before[k], taps[k], v),
                forall|k: int| i <= k < 8 ==> weights@[k] == before[k],
            decreases n - i,
        {
            assert(taps[i as int] == self.pred@[c - i]);
            assert(self.adapt@[c - i] == sign_of(self.pred@[c - i]));
            let w: i32 = weights[i];
            let step: i32 = self.adapt[c - i];
            weights[i] = move_weight(w, step, v);
            i = i + 1;
        }
        assert(weights@ =~= moved_weights(before, taps, v));
    }

    /// Moves the last eight elements to the front.
    fn wrap(&mut self)
        requires
            old(self).wf(520),
        ensures
            final(self).wf(8),
            final(self).window(8) == old(self).window(520),
    {
        let ghost before = *self;
        let mut k: usize = 0;
        while k < OFFSET_HISTORY
            invariant
                k <= 8,
                self.pred@.len() == 520,
                self.adapt@.len() == 520,
                before.wf(520),
                forall|t: int| 0 <= t < k ==> self.pred@[t] == before.pred@[512 + t],
                forall|t: int| 0 <= t < k ==> self.adapt@[t] == before.adapt@[512 + t],
                forall|t: int| k <= t < 520 ==> self.pred@[t] == before.pred@[t],
                forall|t: int| k <= t < 520 ==> self.adapt@[t] == before.adapt@[t],
            decreases 8 - k,
        {
            let p: i32 = self.pred[OFFSET_WINDOW + k];
            let a: i32 = self.adapt[OFFSET_WINDOW + k];
            self.pred[k] = p;
            self.adapt[k] = a;
            k = k + 1;
        }
        proof {
            assert(self.window(8) =~= before.window(520));
            assert forall|t: int| 0 <= t < 8 implies #[trigger] self.adapt@[t] == sign_of(
                self.pred@[t],
            ) by {
                assert(before.adapt@[512 + t] == sign_of(before.pred@[512 + t]));
            }
        }
    }
}

// ---------------------------------------------------------------------
// Two-arm offset predictor
// ---------------------------------------------------------------------

/// What an [`OffsetPredictor3950`] stands for.
#[verifier::ext_equal]
pub ghost struct OffsetModel3950 {
    /// Last eight elements of the own-history arm, the oldest first.
    pub a: Seq<i32>,
    /// Last eight elements of the cross arm.
    pub b: Seq<i32>,
    pub m_a: Seq<i32>,
    pub m_b: Seq<i32>,
    /// The last predicted signal.
    pub last_a: i32,
    /// State of the first-order filter on the cross term.
    pub cross: i32,
}

/// The two-arm predictor without history.
pub open spec fn fresh_offset_3950() -> OffsetModel3950 {
    OffsetModel3950 {
        a: zero_window(),
        b: zero_window(),
        m_a: seed_weights(),
        m_b: zero_window(),
        last_a: 0,
        cross: 0,
    }
}

impl OffsetModel3950 {
    /// The taps of the own-history arm.
    pub open spec fn taps_a(self) -> Seq<i32> {
        arm_taps(self.a, self.last_a, 4)
    }

    /// The taps of the cross arm for the cross term `cross`.
    pub open spec fn taps_b(self, cross: i32) -> Seq<i32> {
        arm_taps(self.b, first_order_down(self.cross, cross), 5)
    }

    /// The prediction: the cross arm enters at half weight, and the sum
    /// is shifted down by ten.
    pub open spec fn prediction(self, cross: i32) -> int {
        let own = wrap32(tap_sum(self.taps_a(), self.m_a, 4));
        let other = wrap32(tap_sum(self.taps_b(cross), self.m_b, 5));
        floor_shift(wrap32(own + floor_shift(other, 1)), 10)
    }

    /// The predictor after the signal `current`, reached from the input
    /// `v`.
    #[verifier::opaque]
    pub open spec fn advanced(self, v: i32, current: i32, cross: i32) -> OffsetModel3950 {
        OffsetModel3950 {
            a: pushed_window(self.a, self.last_a),
            b: pushed_window(self.b, first_order_down(self.cross, cross)),
            m_a: moved_weights(self.m_a, self.taps_a(), v),
            m_b: moved_weights(self.m_b, self.taps_b(cross), v),
            last_a: current,
            cross,
        }
    }

    /// Decoding the input `v`.
    pub open spec fn decode(self, v: i32, cross: i32) -> (OffsetModel3950, i32) {
        let current = wrap32(v + self.prediction(cross)) as i32;
        (self.advanced(v, current, cross), current)
    }

    /// Encoding the signal `current`.
    pub open spec fn encode(self, current: i32, cross: i32) -> (OffsetModel3950, i32) {
        let v = wrap32(current - self.prediction(cross)) as i32;
        (self.advanced(v, current, cross), v)
    }
}

/// Decoding an encoded signal gives it back, with the same state on both
/// sides.
pub proof fn law_offset_3950_round_trip(p: OffsetModel3950, current: i32, cross: i32)
    ensures
        p.decode(p.encode(current, cross).1, cross) == (p.encode(current, cross).0, current),
{
    lemma_wrap32(current - p.prediction(cross));
    lemma_wrap32_undo(current as int, p.prediction(cross));
}

/// The two-arm integer offset predictor, used from file version 3950 on.
#[derive(Debug, Clone)]
pub struct OffsetPredictor3950 {
    /// Own-history arm.
    pub arm_a: OffsetArm,
    /// Cross arm.
    pub arm_b: OffsetArm,
    /// Write position in both arms.
    pub cursor: usize,
    pub m_a: [i32; 8],
    pub m_b: [i32; 8],
    pub last_a: i32,
    /// First-order filter on the cross term.
    pub cross_filter: FirstOrderFilter,
}

impl View for OffsetPredictor3950 {
    type V = OffsetModel3950;

    open spec fn view(&self) -> OffsetModel3950 {
        OffsetModel3950 {
            a: self.arm_a.window(self.cursor as int),
            b: self.arm_b.window(self.cursor as int),
            m_a: self.m_a@,
            m_b: self.m_b@,
            last_a: self.last_a,
            cross: self.cross_filter.state,
        }
    }
}

impl Default for OffsetPredictor3950 {
    fn default() -> (r: Self)
        ensures
            r.wf(),
            r@ == fresh_offset_3950(),
    {
        Self::new()
    }
}

impl OffsetPredictor3950 {
    /// The arms are up to date at the cursor.
    pub open spec fn wf(&self) -> bool {
        &&& self.arm_a.wf(self.cursor as int)
        &&& self.arm_b.wf(self.cursor as int)
        &&& self.cursor < 520
    }

    /// A predictor without history.
    pub fn new() -> (r: Self)
        ensures
            r.wf(),
            r@ == fresh_offset_3950(),
    {
        let r = OffsetPredictor3950 {
            arm_a: OffsetArm::new(),
            arm_b: OffsetArm::new(),
            cursor: OFFSET_HISTORY,
            m_a: [360, 317, -109, 98, 0, 0, 0, 0],
            m_b: [0, 0, 0, 0, 0, 0, 0, 0],
            last_a: 0,
            cross_filter: FirstOrderFilter::new(),
        };
        assert(r@ =~= fresh_offset_3950());
        r
    }

    /// Stores the history elements of this block and returns the
    /// prediction.
    fn open_block(&mut self, cross: i32) -> (r: i32)
        requires
            old(self).wf(),
        ensures
            final(self).arm_a.wf(old(self).cursor + 1),
            final(self).arm_b.wf(old(self).cursor + 1),
            final(self).arm_a.window(old(self).cursor + 1) == pushed_window(
                old(self)@.a,
                old(self).last_a,
            ),
            final(self).arm_b.window(old(self).cursor + 1) == pushed_window(
                old(self)@.b,
                first_order_down(old(self)@.cross, cross),
            ),
            final(self).cursor == old(self).cursor,
            final(self).m_a == old(self).m_a,
            final(self).m_b == old(self).m_b,
            final(self).cross_filter.state == cross,
            r == old(self)@.prediction(cross),
    {
        let ghost before = self@;
        let c: usize = self.cursor;
        let x = self.cross_filter.compress(cross);
        self.arm_a.push(c, self.last_a);
        self.arm_b.push(c, x);
        let own = self.arm_a.predict(c, &self.m_a, 4);
        let other = self.arm_b.predict(c, &self.m_b, 5);
        proof {
            assert(Seq::new(4, |k: int| self.arm_a.window(c as int + 1)[7 - k])
                =~= before.taps_a());
            assert(Seq::new(5, |k: int| self.arm_b.window(c as int + 1)[7 - k]) =~= before.taps_b(
                cross,
            ));
        }
        shift_down(wrapping_sum(own, shift_down(other, 1)), 10)
    }

    /// Moves the weights for the input `v` and advances.
    fn close_block(&mut self, v: i32, current: i32)
        requires
            old(self).arm_a.wf(old(self).cursor + 1),
            old(self).arm_b.wf(old(self).cursor + 1),
            old(self).cursor < 520,
        ensures
            final(self).wf(),
            final(self)@.a == old(self).arm_a.window(old(self).cursor + 1),
            final(self)@.b == old(self).arm_b.window(old(self).cursor + 1),
            final(self)@.m_a == moved_weights(
                old(self).m_a@,
                Seq::new(4, |k: int| old(self).arm_a.window(old(self).cursor + 1)[7 - k]),
                v,
            ),
            final(self)@.m_b == moved_weights(
                old(self).m_b@,
                Seq::new(5, |k: int| old(self).arm_b.window(old(self).cursor + 1)[7 - k]),
                v,
            ),
            final(self)@.last_a == current,
            final(self)@.cross == old(self)@.cross,
    {
        let c: usize = self.cursor;
        self.arm_a.adapt_weights(c, &mut self.m_a, 4, v);
        self.arm_b.adapt_weights(c, &mut self.m_b, 5, v);
        self.last_a = current;
        self.cursor = c + 1;
        if self.cursor == OFFSET_WINDOW + OFFSET_HISTORY {
            self.arm_a.wrap();
            self.arm_b.wrap();
            self.cursor = OFFSET_HISTORY;
        }
    }

    /// One block: the input `v` and the cross term give the signal.
    pub fn step(&mut self, v: i32, cross: i32) -> (current: i32)
        requires
            old(self).wf(),
        ensures
            final(self).wf(),
            (final(self)@, current) == old(self)@.decode(v, cross),
    {
        let ghost before = self@;
        let p = self.open_block(cross);
        let ghost c = self.cursor as int;
        let ghost opened = *self;
        let current = wrapping_sum(v, p);
        self.close_block(v, current);
        proof {
            reveal(OffsetModel3950::advanced);
            assert(Seq::new(4, |k: int| opened.arm_a.window(c + 1)[7 - k]) =~= before.taps_a());
            assert(Seq::new(5, |k: int| opened.arm_b.window(c + 1)[7 - k]) =~= before.taps_b(
                cross,
            ));
            assert(self@ =~= before.advanced(v, current, cross));
        }
        current
    }

    /// The mirror of [`OffsetPredictor3950::step`]: the signal gives the
    /// input that leads to it.
    pub fn step_encode(&mut self, current: i32, cross: i32) -> (v: i32)
        requires
            old(self).wf(),
        ensures
            final(self).wf(),
            (final(self)@, v) == old(self)@.encode(current, cross),
    {
        let ghost before = self@;
        let p = self.open_block(cross);
        let ghost c = self.cursor as int;
        let ghost opened = *self;
        let v = wrapping_difference(current, p);
        self.close_block(v, current);
        proof {
            reveal(OffsetModel3950::advanced);
            assert(Seq::new(4, |k: int| opened.arm_a.window(c + 1)[7 - k]) =~= before.taps_a());
            assert(Seq::new(5, |k: int| opened.arm_b.window(c + 1)[7 - k]) =~= before.taps_b(
                cross,
            ));
            assert(self@ =~= before.advanced(v, current, cross));
        }
        v
    }
}

// ---------------------------------------------------------------------
// One-arm offset predictor
// ---------------------------------------------------------------------

/// What an [`OffsetPredictor3930`] stands for.
#[verifier::ext_equal]
pub ghost struct OffsetModel3930 {
    /// Last eight elements, the oldest first.
    pub hist: Seq<i32>,
    pub m: Seq<i32>,
    /// The last signal.
    pub last_out: i32,
}

/// The one-arm predictor without history.
pub open spec fn fresh_offset_3930() -> OffsetModel3930 {
    OffsetModel3930 { hist: zero_window(), m: seed_weights(), last_out: 0 }
}

impl OffsetModel3930 {
    /// The last element and three first differences.
    pub open spec fn taps(self) -> Seq<i32> {
        let h = self.hist;
        seq![
            h[7],
            wrap32(h[7] - h[6]) as i32,
            wrap32(h[6] - h[5]) as i32,
            wrap32(h[5] - h[4]) as i32,
        ]
    }

    /// The prediction, shifted down by nine.
    pub open spec fn prediction(self) -> int {
        floor_shift(wrap32(tap_sum(self.taps(), self.m, 4)), 9)
    }

    /// The predictor after the signal `out`, whose history element is
    /// `x` and whose input was `v`.
    #[verifier::opaque]
    pub open spec fn advanced(self, v: i32, x: i32, out: i32) -> OffsetModel3930 {
        let h = self.hist;
        OffsetModel3930 {
            hist: seq![h[1], h[2], h[3], h[4], h[5], h[6], h[7], x],
            m: moved_weights(self.m, self.taps(), v),
            last_out: out,
        }
    }

    /// Decoding the input `v`.
    pub open spec fn decode(self, v: i32) -> (OffsetModel3930, i32) {
        let x = wrap32(v + self.prediction()) as i32;
        let out = first_order_up(self.last_out, x);
        (self.advanced(v, x, out), out)
    }

    /// Encoding the signal `out`.
    pub open spec fn encode(self, out: i32) -> (OffsetModel3930, i32) {
        let x = first_order_down(self.last_out, out);
        let v = wrap32(x - self.prediction()) as i32;
        (self.advanced(v, x, out), v)
    }
}

/// Decoding an encoded signal gives it back, with the same state on both
/// sides.
pub proof fn law_offset_3930_round_trip(p: OffsetModel3930, out: i32)
    ensures
        p.decode(p.encode(out).1) == (p.encode(out).0, out),
{
    let x = first_order_down(p.last_out, out);
    law_first_order_round_trip(p.last_out, out);
    lemma_wrap32(x - p.prediction());
    lemma_wrap32_undo(x as int, p.prediction());
}

/// The one-arm integer offset predictor of file versions 3930 to 3949,
/// with the first-order stage folded in.
#[derive(Debug, Clone)]
pub struct OffsetPredictor3930 {
    pub hist: Vec<i32>,
    /// Write position.
    pub cursor: usize,
    pub m: [i32; 8],
    pub last_out: i32,
}

impl View for OffsetPredictor3930 {
    type V = OffsetModel3930;

    open spec fn view(&self) -> OffsetModel3930 {
        OffsetModel3930 {
            hist: self.hist@.subrange(self.cursor - 8, self.cursor as int),
            m: self.m@,
            last_out: self.last_out,
        }
    }
}

impl Default for OffsetPredictor3930 {
    fn default() -> (r: Self)
        ensures
            r.wf(),
            r@ == fresh_offset_3930(),
    {
        Self::new()
    }
}

impl OffsetPredictor3930 {
    /// The buffer has its length and the cursor is behind eight elements.
    pub open spec fn wf(&self) -> bool {
        &&& self.hist@.len() == 520
        &&& 8 <= self.cursor < 520
    }

    /// A predictor without history.
    pub fn new() -> (r: Self)
        ensures
            r.wf(),
            r@ == fresh_offset_3930(),
    {
        let r = OffsetPredictor3930 {
            hist: zero_vec(OFFSET_WINDOW + OFFSET_HISTORY),
            cursor: OFFSET_HISTORY,
            m: [360, 317, -109, 98, 0, 0, 0, 0],
            last_out: 0,
        };
        assert(r@ =~= fresh_offset_3930());
        r
    }

    /// The taps of this block.
    fn taps(&self) -> (r: [i32; 4])
        requires
            self.wf(),
        ensures
            r@ == self@.taps(),
    {
        let c: usize = self.cursor;
        let h1: i32 = self.hist[c - 1];
        let h2: i32 = self.hist[c - 2];
        let h3: i32 = self.hist[c - 3];
        let h4: i32 = self.hist[c - 4];
        let r: [i32; 4] = [
            h1,
            wrapping_difference(h1, h2),
            wrapping_difference(h2, h3),
            wrapping_difference(h3, h4),
        ];
        assert(r@ =~= self@.taps());
        r
    }

    /// The prediction of this block.
    fn predict(&self, taps: &[i32; 4]) -> (r: i32)
        requires
            taps@ == self@.taps(),
        ensures
            r == self@.prediction(),
    {
        let mut acc: i32 = 0;
        let mut i: usize = 0;
        proof {
            lemma_wrap32(0);
        }
        while i < 4
            invariant
                i <= 4,
                taps@ == self@.taps(),
                acc == wrap32(tap_sum(taps@, self.m@, i as nat)),
            decreases 4 - i,
        {
            acc = accumulate(acc, taps[i], self.m[i], Ghost(tap_sum(taps@, self.m@, i as nat)));
            i = i + 1;
        }
        shift_down(acc, 9)
    }

    /// Stores the history element `x`, moves the weights for the input
    /// `v` and advances.
    fn close_block(&mut self, taps: &[i32; 4], v: i32, x: i32, out: i32)
        requires
            old(self).wf(),
            taps@ == old(self)@.taps(),
        ensures
            final(self).wf(),
            final(self)@ == old(self)@.advanced(v, x, out),
    {
        let ghost before = *self;
        let c: usize = self.cursor;
        self.hist[c] = x;
        let mut i: usize = 0;
        while i < 4
            invariant
                i <= 4,
                before == *old(self),
                before.wf(),
                self.hist@ == before.hist@.update(c as int, x),
                self.cursor == c,
                c == before.cursor,
                taps@ == before@.taps(),
                self.m@.len() == 8,
                forall|k: int|
                    0 <= k < i ==> self.m@[k] == moved_weight(before.m@[k], taps@[k], v),
                forall|k: int| i <= k < 8 ==> self.m@[k] == before.m@[k],
            decreases 4 - i,
        {
            let w: i32 = self.m[i];
            self.m[i] = move_weight(w, sign_flag(taps[i]), v);
            i = i + 1;
        }
        self.last_out = out;
        self.cursor = c + 1;
        if self.cursor == OFFSET_WINDOW + OFFSET_HISTORY {
            let ghost full = self.hist@;
            let mut k: usize = 0;
            while k < OFFSET_HISTORY
                invariant
                    k <= 8,
                    self.hist@.len() == 520,
                    full.len() == 520,
                    forall|t: int| 0 <= t < k ==> self.hist@[t] == full[512 + t],
                    forall|t: int| k <= t < 520 ==> self.hist@[t] == full[t],
                    self.last_out == out,
                    self.m@.len() == 8,
                    forall|t: int|
                        0 <= t < 4 ==> self.m@[t] == moved_weight(before.m@[t], taps@[t], v),
                    forall|t: int| 4 <= t < 8 ==> self.m@[t] == before.m@[t],
                decreases 8 - k,
            {
                let h: i32 = self.hist[OFFSET_WINDOW + k];
                self.hist[k] = h;
                k = k + 1;
            }
            self.cursor = OFFSET_HISTORY;
        }
        proof {
            reveal(OffsetModel3930::advanced);
            assert(self.m@ =~= moved_weights(before.m@, taps@, v));
            assert(self@ =~= before@.advanced(v, x, out));
        }
    }

    /// One block: the input `v` gives the finished signal.
    pub fn step(&mut self, v: i32) -> (out: i32)
        requires
            old(self).wf(),
        ensures
            final(self).wf(),
            (final(self)@, out) == old(self)@.decode(v),
    {
        let taps = self.taps();
        let x = wrapping_sum(v, self.predict(&taps));
        let out = wrapping_sum(x, leak(self.last_out));
        self.close_block(&taps, v, x, out);
        out
    }

    /// The mirror of [`OffsetPredictor3930::step`]: the signal gives the
    /// input that leads to it.
    pub fn step_encode(&mut self, out: i32) -> (v: i32)
        requires
            old(self).wf(),
        ensures
            final(self).wf(),
            (final(self)@, v) == old(self)@.encode(out),
    {
        let taps = self.taps();
        let x = wrapping_difference(out, leak(self.last_out));
        let v = wrapping_difference(x, self.predict(&taps));
        self.close_block(&taps, v, x, out);
        v
    }
}

// ---------------------------------------------------------------------
// The chain of one coded array
// ---------------------------------------------------------------------

/// Decoding through a run of stages, the first one first.
pub open spec fn nn_decode(nn: Seq<NnModel>, v: i32) -> (Seq<NnModel>, i32)
    decreases nn.len(),
{
    if nn.len() == 0 {
        (nn, v)
    } else {
        let (head, u) = nn_decode(nn.drop_last(), v);
        let (last, w) = nn.last().decode(u);
        (head.push(last), w)
    }
}

/// Encoding through a run of stages, the last one first.
pub open spec fn nn_encode(nn: Seq<NnModel>, v: i32) -> (Seq<NnModel>, i32)
    decreases nn.len(),
{
    if nn.len() == 0 {
        (nn, v)
    } else {
        let (last, u) = nn.last().encode(v);
        let (head, w) = nn_encode(nn.drop_last(), u);
        (head.push(last), w)
    }
}

/// A run of stages gives back what it encoded, with the same states.
pub proof fn law_nn_run_round_trip(nn: Seq<NnModel>, v: i32)
    ensures
        nn_decode(nn, nn_encode(nn, v).1) == (nn_encode(nn, v).0, v),
    decreases nn.len(),
{
    if nn.len() > 0 {
        law_nn_round_trip(nn.last(), v);
        law_nn_run_round_trip(nn.drop_last(), nn.last().encode(v).1);
    }
}

/// What an [`ArrayPredictor`] stands for.
pub ghost struct ArrayModel {
    /// Filter stages, in the order of decoding.
    pub nn: Seq<NnModel>,
    pub form: FormModel,
}

/// The offset predictor of an array, with the first-order state where it
/// stands apart.
pub ghost enum FormModel {
    V3950 { offset: OffsetModel3950, output: i32 },
    V3930 { offset: OffsetModel3930 },
}

/// The filter stages of a level without history, in the order of
/// decoding, the reverse of the table's.
pub open spec fn fresh_stages(version: u16, level: CompressionLevel) -> Seq<NnModel> {
    if level == CompressionLevel::Fast {
        Seq::empty()
    } else {
        let stages = level_stages(level);
        Seq::new(
            stages.len(),
            |k: int|
                {
                    let s = stages[stages.len() - 1 - k];
                    fresh_nn(s.order as nat, s.shift as nat, era_of_stage(version, level))
                },
        )
    }
}

/// The chain without history.
pub open spec fn fresh_array(version: u16, level: CompressionLevel) -> ArrayModel {
    ArrayModel {
        nn: fresh_stages(version, level),
        form: if version >= CROSS_TERM_VERSION {
            FormModel::V3950 { offset: fresh_offset_3950(), output: 0 }
        } else {
            FormModel::V3930 { offset: fresh_offset_3930() }
        },
    }
}

/// Why no chain exists for a version and a level, if none does.
pub open spec fn array_error(version: u16, level: CompressionLevel) -> Option<Error> {
    if version < PREDICTOR_MIN_VERSION {
        Some(Error::NotImplemented)
    } else if version < CROSS_TERM_VERSION && level == CompressionLevel::Insane {
        Some(Error::Malformed("level 5000 requires the >= 3950 predictor form"))
    } else {
        None
    }
}

impl ArrayModel {
    /// Decoding a residual with the cross term `cross`, which the older
    /// form ignores.
    pub open spec fn decode(self, residual: i32, cross: i32) -> (ArrayModel, i32) {
        let (nn, v) = nn_decode(self.nn, residual);
        match self.form {
            FormModel::V3950 { offset, output } => {
                let (next, current) = offset.decode(v, cross);
                let signal = first_order_up(output, current);
                (
                    ArrayModel {
                        nn,
                        form: FormModel::V3950 { offset: next, output: signal },
                    },
                    signal,
                )
            },
            FormModel::V3930 { offset } => {
                let (next, signal) = offset.decode(v);
                (ArrayModel { nn, form: FormModel::V3930 { offset: next } }, signal)
            },
        }
    }

    /// Encoding a signal with the cross term `cross`.
    pub open spec fn encode(self, signal: i32, cross: i32) -> (ArrayModel, i32) {
        match self.form {
            FormModel::V3950 { offset, output } => {
                let (next, v) = offset.encode(first_order_down(output, signal), cross);
                let (nn, residual) = nn_encode(self.nn, v);
                (
                    ArrayModel {
                        nn,
                        form: FormModel::V3950 { offset: next, output: signal },
                    },
                    residual,
                )
            },
            FormModel::V3930 { offset } => {
                let (next, v) = offset.encode(signal);
                let (nn, residual) = nn_encode(self.nn, v);
                (ArrayModel { nn, form: FormModel::V3930 { offset: next } }, residual)
            },
        }
    }
}

/// Decoding the residual of a signal gives the signal back, with the same
/// state on both sides.
pub proof fn law_array_round_trip(p: ArrayModel, signal: i32, cross: i32)
    ensures
        p.decode(p.encode(signal, cross).1, cross) == (p.encode(signal, cross).0, signal),
{
    match p.form {
        FormModel::V3950 { offset, output } => {
            let current = first_order_down(output, signal);
            law_first_order_round_trip(output, signal);
            law_offset_3950_round_trip(offset, current, cross);
            law_nn_run_round_trip(p.nn, offset.encode(current, cross).1);
        },
        FormModel::V3930 { offset } => {
            law_offset_3930_round_trip(offset, signal);
            law_nn_run_round_trip(p.nn, offset.encode(signal).1);
        },
    }
}

/// The predictor chain of one coded array.
#[derive(Debug, Clone)]
pub struct ArrayPredictor {
    /// Filter stages, in the order of decoding.
    pub nn: Vec<NnFilter>,
    pub form: PredictorForm,
}

/// The offset predictor of an array.
#[derive(Debug, Clone)]
pub enum PredictorForm {
    /// From version 3950 on: two arms and a separate first-order stage.
    V3950 { offset: OffsetPredictor3950, output: FirstOrderFilter },
    /// Versions 3930 to 3949: one arm with the first-order stage folded
    /// in.
    V3930 { offset: OffsetPredictor3930 },
}

impl PredictorForm {
    pub open spec fn wf(&self) -> bool {
        match self {
            PredictorForm::V3950 { offset, output } => offset.wf(),
            PredictorForm::V3930 { offset } => offset.wf(),
        }
    }
}

impl View for PredictorForm {
    type V = FormModel;

    open spec fn view(&self) -> FormModel {
        match self {
            PredictorForm::V3950 { offset, output } => FormModel::V3950 {
                offset: offset@,
                output: output.state,
            },
            PredictorForm::V3930 { offset } => FormModel::V3930 { offset: offset@ },
        }
    }
}

/// The models of a run of stages.
pub open spec fn stage_models(nn: Seq<NnFilter>) -> Seq<NnModel> {
    nn.map_values(|f: NnFilter| f@)
}

impl View for ArrayPredictor {
    type V = ArrayModel;

    open spec fn view(&self) -> ArrayModel {
        ArrayModel { nn: stage_models(self.nn@), form: self.form@ }
    }
}

impl ArrayPredictor {
    /// All parts are in order.
    pub open spec fn wf(&self) -> bool {
        &&& forall|k: int| 0 <= k < self.nn@.len() ==> (#[trigger] self.nn@[k]).wf()
        &&& self.form.wf()
    }

    /// The chain for one coded array.
    pub fn new(version: u16, level: CompressionLevel) -> (r: Result<Self>)
        ensures
            r matches Ok(p) ==> p.wf() && p@ == fresh_array(version, level),
            match array_error(version, level) {
                Some(e) => r == Err::<ArrayPredictor, Error>(e),
                None => r is Ok,
            },
    {
        if version < PREDICTOR_MIN_VERSION {
            return Err(Error::NotImplemented);
        }
        if version < CROSS_TERM_VERSION && level == CompressionLevel::Insane {
            return Err(Error::Malformed("level 5000 requires the >= 3950 predictor form"));
        }
        let cascade = FilterCascade::for_level(level);
        let stages = cascade.stages();
        let mut nn: Vec<NnFilter> = Vec::new();
        let mut i: usize = stages.len();
        proof {
            law_level_stages(level);
        }
        let ghost n = stages@.len();
        while i > 0
            invariant
                i <= n,
                n == stages@.len(),
                stages@ == level_stages(level),
                level != CompressionLevel::Fast ==> nn@.len() == n - i,
                level == CompressionLevel::Fast ==> nn@.len() == 0 && n == 1,
                forall|k: int| 0 <= k < nn@.len() ==> (#[trigger] nn@[k]).wf(),
                forall|k: int|
                    0 <= k < nn@.len() ==> (#[trigger] nn@[k])@ == fresh_stages(version, level)[k],
                forall|k: int|
                    0 <= k < n ==> {
                        let s = #[trigger] stages@[k];
                        s.order == 0 || (s.order % 16 == 0 && 10 <= s.shift <= 15)
                    },
            decreases i,
        {
            i = i - 1;
            let stage = stages[i];
            proof {
                assert(stage == level_stages(level)[i as int]);
                assert((stage.order == 0) == (level == CompressionLevel::Fast));
            }
            if stage.order != 0 {
                match NnFilter::for_stage(stage, version, level) {
                    Err(e) => {
                        return Err(e);
                    },
                    Ok(f) => {
                        nn.push(f);
                    },
                }
            }
        }
        let form = if version >= CROSS_TERM_VERSION {
            PredictorForm::V3950 {
                offset: OffsetPredictor3950::new(),
                output: FirstOrderFilter::new(),
            }
        } else {
            PredictorForm::V3930 { offset: OffsetPredictor3930::new() }
        };
        assert(stage_models(nn@) =~= fresh_stages(version, level));
        Ok(ArrayPredictor { nn, form })
    }

    /// Whether the chain uses a cross term.
    pub fn uses_cross_term(&self) -> (r: bool)
        ensures
            r == (self@.form is V3950),
    {
        match self.form {
            PredictorForm::V3950 { .. } => true,
            PredictorForm::V3930 { .. } => false,
        }
    }

    /// Decodes a residual to the channel signal.
    pub fn decode(&mut self, residual: i32, cross: i32) -> (signal: i32)
        requires
            old(self).wf(),
        ensures
            final(self).wf(),
            (final(self)@, signal) == old(self)@.decode(residual, cross),
    {
        let ghost start = stage_models(self.nn@);
        let mut v: i32 = residual;
        let mut i: usize = 0;
        assert(start.take(0) =~= Seq::<NnModel>::empty());
        while i < self.nn.len()
            invariant
                i <= self.nn@.len(),
                self.nn@.len() == start.len(),
                self.wf(),
                self.form == old(self).form,
                (stage_models(self.nn@).take(i as int), v) == nn_decode(
                    start.take(i as int),
                    residual,
                ),
                forall|k: int| i <= k < start.len() ==> (#[trigger] self.nn@[k])@ == start[k],
            decreases self.nn@.len() - i,
        {
            let ghost before = self.nn@;
            v = self.nn[i].decode(v);
            proof {
                assert(start.take(i as int + 1).drop_last() =~= start.take(i as int));
                assert(stage_models(self.nn@).take(i as int + 1) =~= stage_models(before).take(
                    i as int,
                ).push(self.nn@[i as int]@));
            }
            i = i + 1;
        }
        assert(start.take(i as int) =~= start);
        assert(stage_models(self.nn@).take(i as int) =~= stage_models(self.nn@));
        match &mut self.form {
            PredictorForm::V3950 { offset, output } => {
                let current = offset.step(v, cross);
                output.decompress(current)
            },
            PredictorForm::V3930 { offset } => offset.step(v),
        }
    }

    /// Encodes a channel signal to a residual; the mirror of
    /// [`ArrayPredictor::decode`].
    pub fn encode(&mut self, signal: i32, cross: i32) -> (residual: i32)
        requires
            old(self).wf(),
        ensures
            final(self).wf(),
            (final(self)@, residual) == old(self)@.encode(signal, cross),
    {
        let ghost start = stage_models(self.nn@);
        let mut v: i32 = match &mut self.form {
            PredictorForm::V3950 { offset, output } => {
                let current = output.compress(signal);
                offset.step_encode(current, cross)
            },
            PredictorForm::V3930 { offset } => offset.step_encode(signal),
        };
        let ghost input = v;
        let ghost form = self.form;
        let mut i: usize = self.nn.len();
        proof {
            assert(start.take(i as int) =~= start);
            assert(nn_encode(start, input).0 + Seq::<NnModel>::empty() =~= nn_encode(
                start,
                input,
            ).0);
            assert(stage_models(self.nn@).skip(i as int) =~= Seq::<NnModel>::empty());
        }
        while i > 0
            invariant
                i <= self.nn@.len(),
                self.nn@.len() == start.len(),
                self.wf(),
                self.form == form,
                nn_encode(start, input).0 == nn_encode(start.take(i as int), v).0
                    + stage_models(self.nn@).skip(i as int),
                nn_encode(start, input).1 == nn_encode(start.take(i as int), v).1,
                forall|k: int| 0 <= k < i ==> (#[trigger] self.nn@[k])@ == start[k],
            decreases i,
        {
            let ghost before = self.nn@;
            let ghost v0 = v;
            i = i - 1;
            v = self.nn[i].encode(v);
            proof {
                let run = start.take(i as int + 1);
                assert(run.drop_last() =~= start.take(i as int));
                assert(run.last() == start[i as int]);
                assert(nn_encode(start.take(i as int), v).0.push(self.nn@[i as int]@)
                    + stage_models(before).skip(i as int + 1) =~= nn_encode(
                    start.take(i as int),
                    v,
                ).0 + stage_models(self.nn@).skip(i as int));
            }
        }
        proof {
            assert(start.take(0) =~= Seq::<NnModel>::empty());
            assert(Seq::<NnModel>::empty() + stage_models(self.nn@).skip(0) =~= stage_models(
                self.nn@,
            ));
        }
        v
    }
}

} // verus!
