//! The predictors, told by the signals alone: what a block is predicted
//! from, and how the weights got to where they are.

use vstd::arithmetic::power2::*;
use vstd::prelude::*;

use crate::arith::{lemma_wrap32, wrap32};
use crate::error::Error;
use crate::header::CompressionLevel;
use crate::predict::{
    array_error, first_order_down, first_order_up, fresh_array, fresh_offset_3930, fresh_offset_3950, leaked,
    moved_weights, nn_decode, sign_of, tap_sum, ArrayModel, FormModel, OffsetModel3930,
    OffsetModel3950,
};

verus! {

/// The sign of `x`.
pub open spec fn sign(x: int) -> int {
    if x > 0 {
        1
    } else if x < 0 {
        -1
    } else {
        0
    }
}

/// Element `n` of a signal, zero before its start.
pub open spec fn past(s: Seq<i32>, n: int) -> int {
    if n < 0 {
        0
    } else {
        s[n] as int
    }
}

/// What is kept of `x` after one block: 31 of 32 parts, rounded down.
pub open spec fn kept(x: int) -> int {
    wrap32(31 * x) / 32
}

// ---------------------------------------------------------------------
// Weights
// ---------------------------------------------------------------------

/// A weight that went from `before` to `after` over the tap `p` and the
/// input `v` has moved by one unit, in the direction that makes the
/// prediction larger when the input was positive and smaller when it was
/// negative; without a tap or an input it has stayed.
pub open spec fn reduces_the_error(p: i32, v: i32, before: i32, after: i32) -> bool {
    &&& p == 0 || v == 0 ==> after == before
    &&& p != 0 && v != 0 && i32::MIN < before < i32::MAX ==> {
        &&& after - before == 1 || after - before == -1
        &&& sign(p * (after - before)) == sign(v as int)
    }
}

proof fn lemma_moved(weights: Seq<i32>, taps: Seq<i32>, v: i32, k: int)
    requires
        0 <= k < weights.len(),
    ensures
        k < taps.len() ==> reduces_the_error(
            taps[k],
            v,
            weights[k],
            moved_weights(weights, taps, v)[k],
        ),
        k < taps.len() && i32::MIN < weights[k] < i32::MAX ==> moved_weights(weights, taps, v)[k]
            == weights[k] + sign(v as int) * sign(taps[k] as int),
        k >= taps.len() ==> moved_weights(weights, taps, v)[k] == weights[k],
{
    if k < taps.len() {
        let p = taps[k];
        lemma_wrap32(weights[k] - 1);
        lemma_wrap32(weights[k] + 1);
        lemma_wrap32(weights[k] as int);
        assert(p * 1 == p && p * -1 == -p);
        let s = sign(p as int);
        assert(1 * s == s && -1 * s == -s && 0 * s == 0);
        assert(s == -sign_of(p));
    }
}

/// The two-arm predictor corrects itself: after a block every weight has
/// moved so as to reduce the error that its input shows, over the tap that
/// it weighed. Taps are what the windows hold after the block, the newest
/// first, four of the own arm and five of the cross arm; other weights
/// stay.
pub proof fn law_two_arms_reduce_the_error(p: OffsetModel3950, v: i32, cross: i32, k: int)
    requires
        p.a.len() == 8,
        p.b.len() == 8,
        p.m_a.len() == 8,
        p.m_b.len() == 8,
        0 <= k < 8,
    ensures
        ({
            let next = p.decode(v, cross).0;
            &&& k < 4 ==> reduces_the_error(next.a[7 - k], v, p.m_a[k], next.m_a[k])
            &&& k >= 4 ==> next.m_a[k] == p.m_a[k]
            &&& k < 5 ==> reduces_the_error(next.b[7 - k], v, p.m_b[k], next.m_b[k])
            &&& k >= 5 ==> next.m_b[k] == p.m_b[k]
        }),
{
    reveal(OffsetModel3950::advanced);
    lemma_moved(p.m_a, p.taps_a(), v, k);
    lemma_moved(p.m_b, p.taps_b(cross), v, k);
}

/// The one-arm predictor corrects itself in the same way. Its taps are
/// the last history element and the three differences before it.
pub proof fn law_one_arm_reduces_the_error(p: OffsetModel3930, v: i32, k: int)
    requires
        p.hist.len() == 8,
        p.m.len() == 8,
        0 <= k < 8,
    ensures
        ({
            let next = p.decode(v).0;
            &&& k == 0 ==> reduces_the_error(p.hist[7], v, p.m[0], next.m[0])
            &&& 1 <= k < 4 ==> reduces_the_error(
                wrap32(p.hist[8 - k] - p.hist[7 - k]) as i32,
                v,
                p.m[k],
                next.m[k],
            )
            &&& k >= 4 ==> next.m[k] == p.m[k]
        }),
{
    reveal(OffsetModel3930::advanced);
    lemma_moved(p.m, p.taps(), v, k);
}

// ---------------------------------------------------------------------
// Two arms
// ---------------------------------------------------------------------

/// The two-arm predictor over the first `n` blocks, from no history on:
/// the predictor afterwards, and the signal.
pub open spec fn two_arm_run(v: Seq<i32>, x: Seq<i32>, n: nat) -> (OffsetModel3950, Seq<i32>)
    decreases n,
{
    if n == 0 {
        (fresh_offset_3950(), Seq::empty())
    } else {
        let (p, head) = two_arm_run(v, x, (n - 1) as nat);
        let (next, c) = p.decode(v[n - 1], x[n - 1]);
        (next, head.push(c))
    }
}

/// Tap `k` of the own arm in block `n`: the last signal, and the
/// differences of the signals before it.
pub open spec fn own_tap(c: Seq<i32>, n: int, k: int) -> int {
    if k == 0 {
        past(c, n - 1)
    } else {
        wrap32(past(c, n - k) - past(c, n - k - 1))
    }
}

/// The cross term of block `n`, less what is kept of the one before it.
pub open spec fn cross_step(x: Seq<i32>, n: int) -> int {
    wrap32(past(x, n) - kept(past(x, n - 1)))
}

/// Tap `k` of the cross arm in block `n`: the cross step of this block,
/// and the differences of the steps up to it.
pub open spec fn cross_tap(x: Seq<i32>, n: int, k: int) -> int {
    if k == 0 {
        cross_step(x, n)
    } else {
        wrap32(cross_step(x, n - k + 1) - cross_step(x, n - k))
    }
}

/// Weight `k` of the own arm in block `n`: a seed, and one unit for every
/// block before it, up where input and tap had the same sign.
pub open spec fn own_weight(v: Seq<i32>, c: Seq<i32>, n: nat, k: int) -> int
    decreases n,
{
    if n == 0 {
        if k == 0 {
            360
        } else if k == 1 {
            317
        } else if k == 2 {
            -109
        } else {
            98
        }
    } else {
        own_weight(v, c, (n - 1) as nat, k) + sign(v[n - 1] as int) * sign(own_tap(c, n - 1, k))
    }
}

/// Weight `k` of the cross arm in block `n`, from zero on.
pub open spec fn cross_weight(v: Seq<i32>, x: Seq<i32>, n: nat, k: int) -> int
    decreases n,
{
    if n == 0 {
        0
    } else {
        cross_weight(v, x, (n - 1) as nat, k) + sign(v[n - 1] as int) * sign(
            cross_tap(x, n - 1, k),
        )
    }
}

/// The prediction of block `n`: four own taps, and half of five cross
/// taps, in units of 1024.
#[verifier::opaque]
pub open spec fn two_arm_prediction(v: Seq<i32>, x: Seq<i32>, c: Seq<i32>, n: nat) -> int {
    let i = n as int;
    let own = own_weight(v, c, n, 0) * own_tap(c, i, 0) + own_weight(v, c, n, 1) * own_tap(c, i, 1)
        + own_weight(v, c, n, 2) * own_tap(c, i, 2) + own_weight(v, c, n, 3) * own_tap(c, i, 3);
    let other = cross_weight(v, x, n, 0) * cross_tap(x, i, 0) + cross_weight(v, x, n, 1)
        * cross_tap(x, i, 1) + cross_weight(v, x, n, 2) * cross_tap(x, i, 2) + cross_weight(
        v,
        x,
        n,
        3,
    ) * cross_tap(x, i, 3) + cross_weight(v, x, n, 4) * cross_tap(x, i, 4);
    wrap32(wrap32(own) + wrap32(other) / 2) / 1024
}

proof fn lemma_sign_product(a: int, b: int)
    ensures
        -1 <= sign(a) * sign(b) <= 1,
{
    let s = sign(b);
    assert(1 * s == s && -1 * s == -s && 0 * s == 0);
}

proof fn lemma_weight_bounds(v: Seq<i32>, x: Seq<i32>, c: Seq<i32>, n: nat, k: int)
    ensures
        -109 - n <= own_weight(v, c, n, k) <= 360 + n,
        -n <= cross_weight(v, x, n, k) <= n,
    decreases n,
{
    if n > 0 {
        lemma_weight_bounds(v, x, c, (n - 1) as nat, k);
        lemma_sign_product(v[n - 1] as int, own_tap(c, n - 1, k));
        lemma_sign_product(v[n - 1] as int, cross_tap(x, n - 1, k));
    }
}

/// Weights depend on the signal before their block only.
proof fn lemma_own_prefix(v: Seq<i32>, c: Seq<i32>, more: i32, n: nat, k: int)
    requires
        n <= c.len(),
        k >= 0,
    ensures
        own_weight(v, c.push(more), n, k) == own_weight(v, c, n, k),
        own_tap(c.push(more), n as int, k) == own_tap(c, n as int, k),
    decreases n,
{
    if n > 0 {
        lemma_own_prefix(v, c, more, (n - 1) as nat, k);
    }
}

proof fn lemma_kept(x: i32)
    ensures
        leaked(x) == kept(x as int),
        -0x400_0000 <= kept(x as int) < 0x400_0000,
        first_order_up(x, 0) == kept(x as int),
{
    lemma2_to64();
    lemma_wrap32(31 * x);
    lemma_wrap32(kept(x as int));
    assert(x * 31 == 31 * x);
}

/// Where a run stands.
spec fn two_arm_state(p: OffsetModel3950, v: Seq<i32>, x: Seq<i32>, c: Seq<i32>, n: nat) -> bool {
    let i = n as int;
    &&& c.len() == n
    &&& p.a.len() == 8
    &&& p.b.len() == 8
    &&& p.m_a.len() == 8
    &&& p.m_b.len() == 8
    &&& p.last_a == past(c, i - 1)
    &&& p.cross == past(x, i - 1)
    &&& forall|k: int| 0 <= k < 8 ==> #[trigger] p.a[7 - k] == own_tap(c, i - 1, k)
    &&& forall|k: int| 0 <= k < 8 ==> #[trigger] p.b[7 - k] == cross_tap(x, i - 1, k)
    &&& forall|k: int| 0 <= k < 4 ==> #[trigger] p.m_a[k] == own_weight(v, c, n, k)
    &&& forall|k: int| 0 <= k < 5 ==> #[trigger] p.m_b[k] == cross_weight(v, x, n, k)
}

proof fn lemma_two_arm_fresh(v: Seq<i32>, x: Seq<i32>)
    ensures
        two_arm_state(fresh_offset_3950(), v, x, Seq::empty(), 0),
{
    let p = fresh_offset_3950();
    let c = Seq::<i32>::empty();
    lemma_wrap32(0);
    assert(kept(0) == 0);
    assert forall|k: int| 0 <= k < 8 implies #[trigger] p.a[7 - k] == own_tap(c, -1, k) by {}
    assert forall|k: int| 0 <= k < 8 implies #[trigger] p.b[7 - k] == cross_tap(x, -1, k) by {}
}

/// The taps of the next block.
proof fn lemma_two_arm_taps(p: OffsetModel3950, v: Seq<i32>, x: Seq<i32>, c: Seq<i32>, n: nat)
    requires
        two_arm_state(p, v, x, c, n),
        n < x.len(),
    ensures
        forall|k: int| 0 <= k < 4 ==> #[trigger] p.taps_a()[k] == own_tap(c, n as int, k),
        forall|k: int|
            0 <= k < 5 ==> #[trigger] p.taps_b(x[n as int])[k] == cross_tap(x, n as int, k),
        forall|k: int|
            0 <= k < 8 ==> #[trigger] crate::predict::pushed_window(p.a, p.last_a)[7 - k]
                == own_tap(c, n as int, k),
        forall|k: int|
            0 <= k < 8 ==> #[trigger] crate::predict::pushed_window(
                p.b,
                first_order_down(p.cross, x[n as int]),
            )[7 - k] == cross_tap(x, n as int, k),
{
    let i = n as int;
    let step = first_order_down(p.cross, x[i]);
    lemma_kept(p.cross);
    lemma_wrap32(x[i] - kept(p.cross as int));
    assert(step == cross_step(x, i));
    let wa = crate::predict::pushed_window(p.a, p.last_a);
    let wb = crate::predict::pushed_window(p.b, step);
    lemma_wrap32(p.last_a - p.a[7]);
    lemma_wrap32(step - p.b[7]);
    assert(p.a[7 - 0] == own_tap(c, i - 1, 0));
    assert(p.b[7 - 0] == cross_tap(x, i - 1, 0));
    assert forall|k: int| 0 <= k < 8 implies #[trigger] wa[7 - k] == own_tap(c, i, k) by {
        if k >= 2 {
            assert(p.a[7 - (k - 1)] == own_tap(c, i - 1, k - 1));
        }
    }
    assert forall|k: int| 0 <= k < 8 implies #[trigger] wb[7 - k] == cross_tap(x, i, k) by {
        if k >= 2 {
            assert(p.b[7 - (k - 1)] == cross_tap(x, i - 1, k - 1));
        }
    }
    assert forall|k: int| 0 <= k < 4 implies #[trigger] p.taps_a()[k] == own_tap(c, i, k) by {
        assert(p.taps_a()[k] == wa[7 - k]);
    }
    assert forall|k: int| 0 <= k < 5 implies #[trigger] p.taps_b(x[i])[k] == cross_tap(
        x,
        i,
        k,
    ) by {
        assert(p.taps_b(x[i])[k] == wb[7 - k]);
    }
}

/// The prediction of the next block.
proof fn lemma_two_arm_prediction(
    p: OffsetModel3950,
    v: Seq<i32>,
    x: Seq<i32>,
    c: Seq<i32>,
    n: nat,
)
    requires
        two_arm_state(p, v, x, c, n),
        n < x.len(),
    ensures
        p.prediction(x[n as int]) == two_arm_prediction(v, x, c, n),
{
    reveal(two_arm_prediction);
    let i = n as int;
    lemma_two_arm_taps(p, v, x, c, n);
    lemma2_to64();
    let ta = p.taps_a();
    let tb = p.taps_b(x[i]);
    reveal_with_fuel(tap_sum, 6);
    assert(ta[0] == own_tap(c, i, 0) && ta[1] == own_tap(c, i, 1) && ta[2] == own_tap(c, i, 2)
        && ta[3] == own_tap(c, i, 3));
    assert(tb[0] == cross_tap(x, i, 0) && tb[1] == cross_tap(x, i, 1) && tb[2] == cross_tap(
        x,
        i,
        2,
    ) && tb[3] == cross_tap(x, i, 3) && tb[4] == cross_tap(x, i, 4));
    assert(p.m_a[0] == own_weight(v, c, n, 0) && p.m_a[1] == own_weight(v, c, n, 1) && p.m_a[2]
        == own_weight(v, c, n, 2) && p.m_a[3] == own_weight(v, c, n, 3));
    assert(p.m_b[0] == cross_weight(v, x, n, 0) && p.m_b[1] == cross_weight(v, x, n, 1)
        && p.m_b[2] == cross_weight(v, x, n, 2) && p.m_b[3] == cross_weight(v, x, n, 3)
        && p.m_b[4] == cross_weight(v, x, n, 4));
    lemma_four_products(ta, p.m_a);
    lemma_five_products(tb, p.m_b);
}

proof fn lemma_four_products(t: Seq<i32>, w: Seq<i32>)
    ensures
        tap_sum(t, w, 4) == w[0] * t[0] + w[1] * t[1] + w[2] * t[2] + w[3] * t[3],
{
    reveal_with_fuel(tap_sum, 5);
    assert(t[0] * w[0] == w[0] * t[0]) by (nonlinear_arith);
    assert(t[1] * w[1] == w[1] * t[1]) by (nonlinear_arith);
    assert(t[2] * w[2] == w[2] * t[2]) by (nonlinear_arith);
    assert(t[3] * w[3] == w[3] * t[3]) by (nonlinear_arith);
}

proof fn lemma_five_products(t: Seq<i32>, w: Seq<i32>)
    ensures
        tap_sum(t, w, 5) == w[0] * t[0] + w[1] * t[1] + w[2] * t[2] + w[3] * t[3] + w[4] * t[4],
{
    reveal_with_fuel(tap_sum, 2);
    lemma_four_products(t, w);
    assert(t[4] * w[4] == w[4] * t[4]) by (nonlinear_arith);
}

/// The weights one block further.
proof fn lemma_two_arm_weights(
    p: OffsetModel3950,
    v: Seq<i32>,
    x: Seq<i32>,
    c: Seq<i32>,
    n: nat,
    more: i32,
)
    requires
        two_arm_state(p, v, x, c, n),
        n < x.len(),
        n < v.len(),
        n < 0x4000_0000,
    ensures
        forall|k: int|
            0 <= k < 4 ==> #[trigger] moved_weights(p.m_a, p.taps_a(), v[n as int])[k]
                == own_weight(v, c.push(more), n + 1, k),
        forall|k: int|
            0 <= k < 5 ==> #[trigger] moved_weights(p.m_b, p.taps_b(x[n as int]), v[n as int])[k]
                == cross_weight(v, x, n + 1, k),
{
    let i = n as int;
    let d = c.push(more);
    lemma_two_arm_taps(p, v, x, c, n);
    assert forall|k: int| 0 <= k < 4 implies #[trigger] moved_weights(
        p.m_a,
        p.taps_a(),
        v[i],
    )[k] == own_weight(v, d, n + 1, k) by {
        lemma_moved(p.m_a, p.taps_a(), v[i], k);
        lemma_weight_bounds(v, x, c, n, k);
        lemma_own_prefix(v, c, more, n, k);
        assert(p.m_a[k] == own_weight(v, c, n, k));
        assert(p.taps_a()[k] == own_tap(c, i, k));
        assert((n + 1 - 1) as nat == n);
    }
    assert forall|k: int| 0 <= k < 5 implies #[trigger] moved_weights(
        p.m_b,
        p.taps_b(x[i]),
        v[i],
    )[k] == cross_weight(v, x, n + 1, k) by {
        lemma_moved(p.m_b, p.taps_b(x[i]), v[i], k);
        lemma_weight_bounds(v, x, c, n, k);
        assert(p.m_b[k] == cross_weight(v, x, n, k));
        assert(p.taps_b(x[i])[k] == cross_tap(x, i, k));
        assert((n + 1 - 1) as nat == n);
    }
}

/// One block further.
proof fn lemma_two_arm_step(p: OffsetModel3950, v: Seq<i32>, x: Seq<i32>, c: Seq<i32>, n: nat)
    requires
        two_arm_state(p, v, x, c, n),
        n < x.len(),
        n < v.len(),
        n < 0x4000_0000,
    ensures
        ({
            let (next, cur) = p.decode(v[n as int], x[n as int]);
            &&& cur == wrap32(v[n as int] + two_arm_prediction(v, x, c, n))
            &&& two_arm_state(next, v, x, c.push(cur), n + 1)
        }),
{
    let i = n as int;
    let (next, cur) = p.decode(v[i], x[i]);
    let d = c.push(cur);
    lemma_two_arm_prediction(p, v, x, c, n);
    lemma_two_arm_taps(p, v, x, c, n);
    lemma_two_arm_weights(p, v, x, c, n, cur);
    lemma_wrap32(v[i] + p.prediction(x[i]));
    reveal(OffsetModel3950::advanced);
    assert forall|k: int| 0 <= k < 8 implies #[trigger] next.a[7 - k] == own_tap(d, i, k) by {
        lemma_own_prefix(v, c, cur, n, k);
        assert(crate::predict::pushed_window(p.a, p.last_a)[7 - k] == own_tap(c, i, k));
    }
    assert forall|k: int| 0 <= k < 8 implies #[trigger] next.b[7 - k] == cross_tap(x, i, k) by {
        assert(crate::predict::pushed_window(p.b, first_order_down(p.cross, x[i]))[7 - k]
            == cross_tap(x, i, k));
    }
    assert forall|k: int| 0 <= k < 4 implies #[trigger] next.m_a[k] == own_weight(
        v,
        d,
        n + 1,
        k,
    ) by {
        assert(moved_weights(p.m_a, p.taps_a(), v[i])[k] == own_weight(v, d, n + 1, k));
    }
    assert forall|k: int| 0 <= k < 5 implies #[trigger] next.m_b[k] == cross_weight(
        v,
        x,
        n + 1,
        k,
    ) by {
        assert(moved_weights(p.m_b, p.taps_b(x[i]), v[i])[k] == cross_weight(v, x, n + 1, k));
    }
}

proof fn lemma_two_arm_run(v: Seq<i32>, x: Seq<i32>, n: nat)
    requires
        n <= v.len(),
        n <= x.len(),
        n <= 0x4000_0000,
    ensures
        two_arm_state(two_arm_run(v, x, n).0, v, x, two_arm_run(v, x, n).1, n),
        forall|i: int|
            0 <= i < n ==> #[trigger] two_arm_run(v, x, n).1[i] == wrap32(
                v[i] + two_arm_prediction(v, x, two_arm_run(v, x, n).1, i as nat),
            ),
    decreases n,
{
    if n == 0 {
        lemma_two_arm_fresh(v, x);
    } else {
        let m = (n - 1) as nat;
        lemma_two_arm_run(v, x, m);
        let (p, c) = two_arm_run(v, x, m);
        lemma_two_arm_step(p, v, x, c, m);
        let cur = p.decode(v[m as int], x[m as int]).1;
        let d = two_arm_run(v, x, n).1;
        assert forall|i: int| 0 <= i < n implies #[trigger] d[i] == wrap32(
            v[i] + two_arm_prediction(v, x, d, i as nat),
        ) by {
            lemma_prediction_prefix(v, x, c, cur, i as nat);
            if i < m {
                assert(c[i] == wrap32(v[i] + two_arm_prediction(v, x, c, i as nat)));
            }
        }
    }
}

proof fn lemma_prediction_prefix(v: Seq<i32>, x: Seq<i32>, c: Seq<i32>, more: i32, n: nat)
    requires
        n <= c.len(),
    ensures
        two_arm_prediction(v, x, c.push(more), n) == two_arm_prediction(v, x, c, n),
{
    reveal(two_arm_prediction);
    lemma_own_prefix(v, c, more, n, 0);
    lemma_own_prefix(v, c, more, n, 1);
    lemma_own_prefix(v, c, more, n, 2);
    lemma_own_prefix(v, c, more, n, 3);
}

/// The two-arm predictor in terms of its inputs, its cross terms and its
/// signal alone. From no history on, the signal of a block is its input
/// plus the prediction: the last signal and three differences, weighed
/// from the seeds 360, 317, -109 and 98 on, and half of the five cross
/// taps, weighed from zero on, in units of 1024. A weight has moved by one
/// for every block before, up where the input and the tap had the same
/// sign.
pub proof fn law_two_arm_signal(v: Seq<i32>, x: Seq<i32>, n: nat, i: int)
    requires
        n <= v.len(),
        n <= x.len(),
        n <= 0x4000_0000,
        0 <= i < n,
    ensures
        two_arm_run(v, x, n).1.len() == n,
        two_arm_run(v, x, n).1[i] == wrap32(
            v[i] + two_arm_prediction(v, x, two_arm_run(v, x, n).1, i as nat),
        ),
{
    lemma_two_arm_run(v, x, n);
}

// ---------------------------------------------------------------------
// One arm
// ---------------------------------------------------------------------

/// The one-arm predictor over the first `n` blocks, from no history on:
/// the predictor afterwards, and the signal.
pub open spec fn one_arm_run(v: Seq<i32>, n: nat) -> (OffsetModel3930, Seq<i32>)
    decreases n,
{
    if n == 0 {
        (fresh_offset_3930(), Seq::empty())
    } else {
        let (p, head) = one_arm_run(v, (n - 1) as nat);
        let (next, out) = p.decode(v[n - 1]);
        (next, head.push(out))
    }
}

/// The steps of a signal: every element less what is kept of the one
/// before it.
pub open spec fn steps(s: Seq<i32>) -> Seq<i32> {
    Seq::new(s.len(), |i: int| wrap32(past(s, i) - kept(past(s, i - 1))) as i32)
}

/// The prediction of block `n`: four taps over the steps, in units of
/// 512.
#[verifier::opaque]
pub open spec fn one_arm_prediction(v: Seq<i32>, h: Seq<i32>, n: nat) -> int {
    let i = n as int;
    wrap32(
        own_weight(v, h, n, 0) * own_tap(h, i, 0) + own_weight(v, h, n, 1) * own_tap(h, i, 1)
            + own_weight(v, h, n, 2) * own_tap(h, i, 2) + own_weight(v, h, n, 3) * own_tap(
            h,
            i,
            3,
        ),
    ) / 512
}

proof fn lemma_steps_push(s: Seq<i32>, more: i32)
    ensures
        steps(s.push(more)) == steps(s).push(
            wrap32(more - kept(past(s, s.len() - 1))) as i32,
        ),
{
    assert(steps(s.push(more)) =~= steps(s).push(wrap32(more - kept(past(s, s.len() - 1))) as i32));
}

spec fn one_arm_state(p: OffsetModel3930, v: Seq<i32>, s: Seq<i32>, n: nat) -> bool {
    let i = n as int;
    let h = steps(s);
    &&& s.len() == n
    &&& p.hist.len() == 8
    &&& p.m.len() == 8
    &&& p.last_out == past(s, i - 1)
    &&& forall|k: int| 0 <= k < 8 ==> #[trigger] p.hist[7 - k] == past(h, i - 1 - k)
    &&& forall|k: int| 0 <= k < 4 ==> #[trigger] p.m[k] == own_weight(v, h, n, k)
}

proof fn lemma_one_arm_taps(p: OffsetModel3930, v: Seq<i32>, s: Seq<i32>, n: nat)
    requires
        one_arm_state(p, v, s, n),
    ensures
        forall|k: int| 0 <= k < 4 ==> #[trigger] p.taps()[k] == own_tap(steps(s), n as int, k),
{
    let h = steps(s);
    let i = n as int;
    assert forall|k: int| 0 <= k < 4 implies #[trigger] p.taps()[k] == own_tap(h, i, k) by {
        assert(p.hist[7 - 0] == past(h, i - 1));
        assert(p.hist[7 - 1] == past(h, i - 2));
        assert(p.hist[7 - 2] == past(h, i - 3));
        assert(p.hist[7 - 3] == past(h, i - 4));
        lemma_wrap32(p.hist[7] - p.hist[6]);
        lemma_wrap32(p.hist[6] - p.hist[5]);
        lemma_wrap32(p.hist[5] - p.hist[4]);
    }
}

proof fn lemma_one_arm_step(p: OffsetModel3930, v: Seq<i32>, s: Seq<i32>, n: nat)
    requires
        one_arm_state(p, v, s, n),
        n < v.len(),
        n < 0x4000_0000,
    ensures
        ({
            let (next, out) = p.decode(v[n as int]);
            let h = steps(s.push(out));
            &&& h[n as int] == wrap32(v[n as int] + one_arm_prediction(v, steps(s), n))
            &&& one_arm_state(next, v, s.push(out), n + 1)
        }),
{
    let i = n as int;
    let h = steps(s);
    let (next, out) = p.decode(v[i]);
    let x = wrap32(v[i] + p.prediction()) as i32;
    let g = steps(s.push(out));
    lemma2_to64();
    lemma_one_arm_taps(p, v, s, n);
    assert(p.prediction() == one_arm_prediction(v, h, n)) by {
        reveal(one_arm_prediction);
        lemma_four_products(p.taps(), p.m);
        assert(p.taps()[0] == own_tap(h, i, 0) && p.taps()[1] == own_tap(h, i, 1)
            && p.taps()[2] == own_tap(h, i, 2) && p.taps()[3] == own_tap(h, i, 3));
        assert(p.m[0] == own_weight(v, h, n, 0) && p.m[1] == own_weight(v, h, n, 1) && p.m[2]
            == own_weight(v, h, n, 2) && p.m[3] == own_weight(v, h, n, 3));
    }
    lemma_wrap32(v[i] + p.prediction());
    lemma_kept(p.last_out);
    lemma_wrap32(x + leaked(p.last_out));
    crate::arith::lemma_wrap32_undo(x as int, leaked(p.last_out));
    lemma_steps_push(s, out);
    assert(g == h.push(x));
    reveal(OffsetModel3930::advanced);
    assert forall|k: int| 0 <= k < 8 implies #[trigger] next.hist[7 - k] == past(g, i - k) by {
        if k > 0 {
            assert(p.hist[7 - (k - 1)] == past(h, i - 1 - (k - 1)));
        }
    }
    assert forall|k: int| 0 <= k < 4 implies #[trigger] next.m[k] == own_weight(
        v,
        g,
        n + 1,
        k,
    ) by {
        lemma_moved(p.m, p.taps(), v[i], k);
        lemma_weight_bounds(v, v, h, n, k);
        lemma_own_prefix(v, h, x, n, k);
        assert(p.m[k] == own_weight(v, h, n, k));
        assert(p.taps()[k] == own_tap(h, i, k));
        assert((n + 1 - 1) as nat == n);
    }
}

proof fn lemma_one_arm_run(v: Seq<i32>, n: nat)
    requires
        n <= v.len(),
        n <= 0x4000_0000,
    ensures
        one_arm_state(one_arm_run(v, n).0, v, one_arm_run(v, n).1, n),
        forall|i: int|
            0 <= i < n ==> #[trigger] steps(one_arm_run(v, n).1)[i] == wrap32(
                v[i] + one_arm_prediction(v, steps(one_arm_run(v, n).1), i as nat),
            ),
    decreases n,
{
    if n == 0 {
        let p = fresh_offset_3930();
        let h = steps(Seq::empty());
        assert forall|k: int| 0 <= k < 8 implies #[trigger] p.hist[7 - k] == past(h, -1 - k) by {}
    } else {
        let m = (n - 1) as nat;
        lemma_one_arm_run(v, m);
        let (p, s) = one_arm_run(v, m);
        lemma_one_arm_step(p, v, s, m);
        let out = p.decode(v[m as int]).1;
        let h = steps(s);
        let g = steps(one_arm_run(v, n).1);
        lemma_steps_push(s, out);
        assert forall|i: int| 0 <= i < n implies #[trigger] g[i] == wrap32(
            v[i] + one_arm_prediction(v, g, i as nat),
        ) by {
            lemma_one_prediction_prefix(v, h, g[m as int], i as nat);
            if i < m {
                assert(h[i] == wrap32(v[i] + one_arm_prediction(v, h, i as nat)));
            }
        }
    }
}

proof fn lemma_one_prediction_prefix(v: Seq<i32>, h: Seq<i32>, more: i32, n: nat)
    requires
        n <= h.len(),
    ensures
        one_arm_prediction(v, h.push(more), n) == one_arm_prediction(v, h, n),
{
    reveal(one_arm_prediction);
    lemma_own_prefix(v, h, more, n, 0);
    lemma_own_prefix(v, h, more, n, 1);
    lemma_own_prefix(v, h, more, n, 2);
    lemma_own_prefix(v, h, more, n, 3);
}

/// The one-arm predictor in terms of its inputs and its signal alone. The
/// step of a block, which is its signal less 31 parts in 32 of the signal
/// before, is the input plus the prediction: the last step and three
/// differences of steps, weighed from the seeds 360, 317, -109 and 98 on,
/// in units of 512.
pub proof fn law_one_arm_signal(v: Seq<i32>, n: nat, i: int)
    requires
        n <= v.len(),
        n <= 0x4000_0000,
        0 <= i < n,
    ensures
        one_arm_run(v, n).1.len() == n,
        steps(one_arm_run(v, n).1)[i] == wrap32(
            v[i] + one_arm_prediction(v, steps(one_arm_run(v, n).1), i as nat),
        ),
{
    lemma_one_arm_run(v, n);
}

// ---------------------------------------------------------------------
// Arrays
// ---------------------------------------------------------------------

/// A predictor chain over the first `n` residuals of an array, with their
/// cross terms: the chain afterwards, and the signal.
pub open spec fn array_run(p: ArrayModel, r: Seq<i32>, x: Seq<i32>, n: nat) -> (
    ArrayModel,
    Seq<i32>,
)
    decreases n,
{
    if n == 0 {
        (p, Seq::empty())
    } else {
        let (mid, head) = array_run(p, r, x, (n - 1) as nat);
        let (next, s) = mid.decode(r[n - 1], x[n - 1]);
        (next, head.push(s))
    }
}

/// What the filter stages of a chain make of the residuals.
pub open spec fn staged(p: ArrayModel, r: Seq<i32>, x: Seq<i32>, n: nat) -> Seq<i32> {
    Seq::new(n, |i: int| nn_decode(array_run(p, r, x, i as nat).0.nn, r[i]).1)
}

proof fn lemma_array_parts(
    version: u16,
    level: CompressionLevel,
    r: Seq<i32>,
    x: Seq<i32>,
    n: nat,
)
    requires
        n <= r.len(),
        n <= x.len(),
        n <= 0x4000_0000,
    ensures
        ({
            let p = fresh_array(version, level);
            let (q, s) = array_run(p, r, x, n);
            let u = staged(p, r, x, n);
            &&& s.len() == n
            &&& version >= 3950 ==> {
                let (m, c) = two_arm_run(u, x, n);
                &&& c == steps(s)
                &&& q.form == FormModel::V3950 { offset: m, output: past(s, n - 1) as i32 }
            }
            &&& version < 3950 ==> {
                let (m, c) = one_arm_run(u, n);
                &&& c == s
                &&& q.form == FormModel::V3930 { offset: m }
            }
        }),
    decreases n,
{
    let p = fresh_array(version, level);
    let u = staged(p, r, x, n);
    if n == 0 {
        assert(steps(Seq::empty()) =~= Seq::<i32>::empty());
    } else {
        let m = (n - 1) as nat;
        lemma_array_parts(version, level, r, x, m);
        let w = staged(p, r, x, m);
        assert(u =~= w.push(u[m as int]));
        lemma_run_prefix(w, u[m as int], x, m);
        let (q, s) = array_run(p, r, x, m);
        let (next, signal) = q.decode(r[m as int], x[m as int]);
        if version >= 3950 {
            let (o, c) = two_arm_run(w, x, m);
            let cur = o.decode(u[m as int], x[m as int]).1;
            let last = past(s, m - 1) as i32;
            lemma_kept(last);
            lemma_wrap32(cur + leaked(last));
            crate::arith::lemma_wrap32_undo(cur as int, leaked(last));
            lemma_steps_push(s, signal);
        }
    }
}

/// Runs depend on the inputs of their blocks only.
proof fn lemma_run_prefix(v: Seq<i32>, more: i32, x: Seq<i32>, n: nat)
    requires
        n <= v.len(),
    ensures
        two_arm_run(v.push(more), x, n) == two_arm_run(v, x, n),
        one_arm_run(v.push(more), n) == one_arm_run(v, n),
    decreases n,
{
    if n > 0 {
        lemma_run_prefix(v, more, x, (n - 1) as nat);
    }
}

/// A chain in terms of residuals, cross terms and signal. What comes out
/// of the filter stages is the input of the offset predictor: from version
/// 3950 on the two-arm one, whose signal is the steps of the chain's
/// signal; before that the one-arm one, which ignores the cross terms.
pub proof fn law_array_signal(
    version: u16,
    level: CompressionLevel,
    r: Seq<i32>,
    x: Seq<i32>,
    n: nat,
    i: int,
)
    requires
        n <= r.len(),
        n <= x.len(),
        n <= 0x4000_0000,
        0 <= i < n,
    ensures
        ({
            let p = fresh_array(version, level);
            let s = array_run(p, r, x, n).1;
            let u = staged(p, r, x, n);
            let h = steps(s);
            &&& s.len() == n
            &&& version >= 3950 ==> h[i] == wrap32(u[i] + two_arm_prediction(u, x, h, i as nat))
            &&& version < 3950 ==> h[i] == wrap32(u[i] + one_arm_prediction(u, h, i as nat))
        }),
{
    let p = fresh_array(version, level);
    let u = staged(p, r, x, n);
    lemma_array_parts(version, level, r, x, n);
    if version >= 3950 {
        law_two_arm_signal(u, x, n, i);
    } else {
        law_one_arm_signal(u, n, i);
    }
}

/// The fast level has no filter stages: the residuals are the inputs.
pub proof fn law_fast_level_has_no_stages(version: u16, r: Seq<i32>, x: Seq<i32>, n: nat)
    requires
        n <= r.len(),
    ensures
        staged(fresh_array(version, CompressionLevel::Fast), r, x, n) == r.take(n as int),
{
    let p = fresh_array(version, CompressionLevel::Fast);
    assert forall|i: int| 0 <= i < n implies staged(p, r, x, n)[i] == r[i] by {
        lemma_no_stages(p, r, x, i as nat);
    }
    assert(staged(p, r, x, n) =~= r.take(n as int));
}

proof fn lemma_no_stages(p: ArrayModel, r: Seq<i32>, x: Seq<i32>, n: nat)
    requires
        p.nn.len() == 0,
    ensures
        array_run(p, r, x, n).0.nn.len() == 0,
    decreases n,
{
    if n > 0 {
        lemma_no_stages(p, r, x, (n - 1) as nat);
    }
}

/// Predictors are known from version 3930 on; the insane level came with
/// version 3950.
pub proof fn law_known_predictors(version: u16, level: CompressionLevel)
    ensures
        array_error(version, level) is None <==> version >= 3950 || version >= 3930 && level
            != CompressionLevel::Insane,
        version < 3930 ==> array_error(version, level) == Some(Error::NotImplemented),
{
}

/// The first three signals of a chain of the fast level without cross
/// terms, from version 3950 on, for residuals of up to 20 bits. The first
/// signal is its residual. The second one is predicted from 677 parts in
/// 1024 of it. Before the third one, the first two weights have moved by
/// one, up if the first two residuals have the same sign.
pub proof fn law_first_signals(version: u16, r: Seq<i32>, x: Seq<i32>, n: nat)
    requires
        version >= 3950,
        3 <= n <= r.len(),
        n <= x.len(),
        n <= 0x4000_0000,
        forall|i: int| 0 <= i < x.len() ==> #[trigger] x[i] == 0,
        -0x10_0000 < r[0] < 0x10_0000,
        -0x10_0000 < r[1] < 0x10_0000,
        -0x10_0000 < r[2] < 0x10_0000,
    ensures
        ({
            let s = array_run(fresh_array(version, CompressionLevel::Fast), r, x, n).1;
            let a = r[0] as int;
            let b = r[1] + (677 * a) / 1024;
            let o = sign(r[1] as int) * sign(a);
            let c = r[2] + ((360 + o) * b + (317 + o) * (b - a) - 109 * a) / 1024;
            &&& s[0] == a
            &&& s[1] == b + (31 * a) / 32
            &&& s[2] == c + (31 * s[1]) / 32
        }),
{
    let p = fresh_array(version, CompressionLevel::Fast);
    let s = array_run(p, r, x, n).1;
    let h = steps(s);
    let u = r.take(n as int);
    law_fast_level_has_no_stages(version, r, x, n);
    law_array_signal(version, CompressionLevel::Fast, r, x, n, 0);
    law_array_signal(version, CompressionLevel::Fast, r, x, n, 1);
    law_array_signal(version, CompressionLevel::Fast, r, x, n, 2);
    lemma_first_predictions(u, x, h);
    assert(u[0] == r[0] && u[1] == r[1] && u[2] == r[2]);
    lemma_first_inputs(r[0], r[1], r[2], h);
    lemma_first_steps(s, h);
}

/// The first three steps in numbers.
proof fn lemma_first_inputs(r0: i32, r1: i32, r2: i32, h: Seq<i32>)
    requires
        -0x10_0000 < r0 < 0x10_0000,
        -0x10_0000 < r1 < 0x10_0000,
        -0x10_0000 < r2 < 0x10_0000,
        h[0] == wrap32(r0 + 0),
        h[1] == wrap32(r1 + wrap32(677 * h[0]) / 1024),
        ({
            let o = sign(r1 as int) * sign(h[0] as int);
            h[2] == wrap32(
                r2 + wrap32(
                    (360 + o) * h[1] + (317 + o) * wrap32(h[1] - h[0]) - 109 * h[0],
                ) / 1024,
            )
        }),
    ensures
        ({
            let a = r0 as int;
            let b = r1 + (677 * a) / 1024;
            let o = sign(r1 as int) * sign(a);
            let c = r2 + ((360 + o) * b + (317 + o) * (b - a) - 109 * a) / 1024;
            &&& h[0] == a
            &&& h[1] == b
            &&& h[2] == c
            &&& -0x20_0000 < b < 0x20_0000
            &&& -0x40_0000 < c < 0x40_0000
        }),
{
    let a = r0 as int;
    let b = r1 + (677 * a) / 1024;
    let o = sign(r1 as int) * sign(a);
    lemma_sign_product(r1 as int, a);
    lemma_wrap32(a);
    lemma_wrap32(677 * a);
    lemma_wrap32(b);
    lemma_wrap32(b - a);
    lemma_third_sum(a, b, o);
    let sum = (360 + o) * b + (317 + o) * (b - a) - 109 * a;
    lemma_wrap32(sum);
    lemma_wrap32(r2 + sum / 1024);
}

proof fn lemma_third_sum(a: int, b: int, o: int)
    requires
        -0x10_0000 < a < 0x10_0000,
        -0x1C_0000 < b < 0x1C_0000,
        -1 <= o <= 1,
    ensures
        -0x7000_0000 < (360 + o) * b + (317 + o) * (b - a) - 109 * a < 0x7000_0000,
{
    if o == -1 {
        assert((360 + o) * b == 359 * b);
        assert((317 + o) * (b - a) == 316 * (b - a));
    } else if o == 0 {
        assert((360 + o) * b == 360 * b);
        assert((317 + o) * (b - a) == 317 * (b - a));
    } else {
        assert((360 + o) * b == 361 * b);
        assert((317 + o) * (b - a) == 318 * (b - a));
    }
}

/// The predictions of the first three blocks.
proof fn lemma_first_predictions(u: Seq<i32>, x: Seq<i32>, h: Seq<i32>)
    requires
        u.len() >= 3,
        h.len() >= 3,
        x.len() >= 3,
        forall|i: int| 0 <= i < x.len() ==> #[trigger] x[i] == 0,
    ensures
        two_arm_prediction(u, x, h, 0) == 0,
        two_arm_prediction(u, x, h, 1) == wrap32(677 * h[0]) / 1024,
        ({
            let o = sign(u[1] as int) * sign(h[0] as int);
            two_arm_prediction(u, x, h, 2) == wrap32(
                (360 + o) * h[1] + (317 + o) * wrap32(h[1] - h[0]) - 109 * h[0],
            ) / 1024
        }),
{
    lemma_no_cross_weight(u, x, 0);
    lemma_no_cross_weight(u, x, 1);
    lemma_no_cross_weight(u, x, 2);
    lemma_wrap32(0);
    lemma_wrap32(h[0] as int);
    lemma_wrap32(h[1] - h[0]);
    reveal(two_arm_prediction);
    reveal_with_fuel(own_weight, 4);
    let z = sign(u[0] as int);
    assert(z * 0 == 0);
    let o = sign(u[1] as int) * sign(h[0] as int);
    let zz = sign(u[1] as int);
    assert(zz * 0 == 0);
    assert(own_weight(u, h, 1, 0) == 360 && own_weight(u, h, 1, 1) == 317 && own_weight(
        u,
        h,
        1,
        2,
    ) == -109 && own_weight(u, h, 1, 3) == 98);
    assert(own_weight(u, h, 2, 0) == 360 + o && own_weight(u, h, 2, 1) == 317 + o && own_weight(
        u,
        h,
        2,
        2,
    ) == -109 && own_weight(u, h, 2, 3) == 98);
    assert(own_tap(h, 0, 0) == 0 && own_tap(h, 0, 1) == 0 && own_tap(h, 0, 2) == 0 && own_tap(
        h,
        0,
        3,
    ) == 0);
    assert(own_tap(h, 1, 0) == h[0] && own_tap(h, 1, 1) == h[0] && own_tap(h, 1, 2) == 0
        && own_tap(h, 1, 3) == 0);
    assert(own_tap(h, 2, 0) == h[1] && own_tap(h, 2, 1) == wrap32(h[1] - h[0]) && own_tap(
        h,
        2,
        2,
    ) == h[0] && own_tap(h, 2, 3) == 0);
}

/// Without cross terms the cross arm stays silent.
proof fn lemma_no_cross_weight(u: Seq<i32>, x: Seq<i32>, n: nat)
    requires
        n <= x.len(),
        n < x.len(),
        forall|i: int| 0 <= i < x.len() ==> #[trigger] x[i] == 0,
    ensures
        forall|k: int| 0 <= k < 5 ==> #[trigger] cross_weight(u, x, n, k) == 0,
        forall|k: int| 0 <= k < 5 ==> #[trigger] cross_tap(x, n as int, k) == 0,
    decreases n,
{
    lemma_wrap32(0);
    assert(kept(0) == 0);
    assert forall|j: int| j <= n implies #[trigger] cross_step(x, j) == 0 by {
        assert(past(x, j) == 0);
        assert(past(x, j - 1) == 0);
    }
    if n > 0 {
        lemma_no_cross_weight(u, x, (n - 1) as nat);
        assert forall|k: int| 0 <= k < 5 implies #[trigger] cross_weight(u, x, n, k) == 0 by {
            assert(cross_weight(u, x, (n - 1) as nat, k) == 0);
            assert(cross_tap(x, n - 1, k) == 0);
            let z = sign(u[n - 1] as int);
            assert(z * 0 == 0);
        }
    }
    assert forall|k: int| 0 <= k < 5 implies #[trigger] cross_tap(x, n as int, k) == 0 by {
        assert(cross_step(x, n - k + 1) == 0 || k == 0);
        assert(cross_step(x, n - k) == 0);
        assert(cross_step(x, n as int) == 0);
    }
}

/// The first three signals from their steps.
proof fn lemma_first_steps(s: Seq<i32>, h: Seq<i32>)
    requires
        s.len() >= 3,
        h == steps(s),
        -0x10_0000 < h[0] < 0x10_0000,
        -0x20_0000 < h[1] < 0x20_0000,
        -0x40_0000 < h[2] < 0x40_0000,
    ensures
        s[0] == h[0],
        s[1] == h[1] + (31 * s[0]) / 32,
        s[2] == h[2] + (31 * s[1]) / 32,
{
    lemma_wrap32(0);
    lemma_wrap32(s[0] as int);
    assert(kept(0) == 0);
    assert(h[0] == wrap32(s[0] - 0));
    lemma_wrap32(31 * s[0]);
    crate::arith::lemma_wrap32_undo(s[1] as int, kept(s[0] as int));
    assert(wrap32(h[1] + kept(s[0] as int)) == s[1]);
    lemma_wrap32(h[1] + kept(s[0] as int));
    lemma_wrap32(31 * s[1]);
    crate::arith::lemma_wrap32_undo(s[2] as int, kept(s[1] as int));
    assert(wrap32(h[2] + kept(s[1] as int)) == s[2]);
    lemma_wrap32(h[2] + kept(s[1] as int));
}

} // verus!
