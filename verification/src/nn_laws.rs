//! The adaptive stages in numbers: what a value is predicted from, and how
//! a stage learns from it.

use vstd::arithmetic::power2::*;
use vstd::prelude::*;

use crate::arith::{lemma_wrap32, wrap32};
use crate::filter_config::{law_level_stages, level_stages, table_stages};
use crate::header::CompressionLevel;
use crate::nn_filter::{dot_sum, fresh_nn, DeltaEra, NnModel};
use crate::predict::{fresh_array, nn_decode};

verus! {

/// The products of two sequences, added up from element `k` on.
pub open spec fn products_from(a: Seq<i16>, b: Seq<i16>, k: int) -> int
    decreases a.len() - k,
{
    if k < 0 || k >= a.len() {
        0
    } else {
        a[k] * b[k] + products_from(a, b, k + 1)
    }
}

proof fn lemma_products(a: Seq<i16>, b: Seq<i16>, k: nat)
    requires
        k <= a.len(),
        a.len() == b.len(),
    ensures
        dot_sum(a, b, k) + products_from(a, b, k as int) == dot_sum(a, b, a.len()),
    decreases a.len() - k,
{
    if k < a.len() {
        lemma_products(a, b, k + 1);
    }
}

/// A stage decodes a residual to the residual plus its prediction: the
/// products of history and weights, in units of `2^shift`, rounded to the
/// nearest.
pub proof fn law_stage_prediction(stage: NnModel, residual: i32, q: int)
    requires
        stage.wf(),
        ({
            let sum = products_from(stage.input, stage.m, 0);
            let unit = pow2(stage.shift) as int;
            &&& -0x4000_0000 <= sum < 0x4000_0000
            &&& stage.shift <= 30
            &&& q * unit <= sum + pow2((stage.shift - 1) as nat) < (q + 1) * unit
        }),
    ensures
        stage.decode(residual).1 == wrap32(residual + q),
{
    let sum = products_from(stage.input, stage.m, 0);
    let unit = pow2(stage.shift) as int;
    let half = pow2((stage.shift - 1) as nat) as int;
    lemma_products(stage.input, stage.m, 0);
    assert(dot_sum(stage.input, stage.m, 0) == 0);
    lemma_wrap32(sum);
    lemma_pow2_pos(stage.shift);
    lemma2_to64();
    assert(half <= 0x2000_0000) by {
        if stage.shift - 1 < 29 {
            lemma_pow2_strictly_increases((stage.shift - 1) as nat, 29);
        }
    }
    lemma_wrap32(sum + half);
    let rest = sum + half - q * unit;
    assert(rest < unit) by (nonlinear_arith)
        requires
            sum + half < (q + 1) * unit,
            rest == sum + half - q * unit,
    ;
    assert(sum + half == unit * q + rest) by (nonlinear_arith)
        requires
            rest == sum + half - q * unit,
    ;
    assert(q * unit + rest == sum + half);
    vstd::arithmetic::div_mod::lemma_fundamental_div_mod_converse(sum + half, unit, q, rest);
    lemma_wrap32(residual + q);
}

/// After a residual every weight has moved by its step, down for a
/// positive residual and up for a negative one, as long as it has room.
pub proof fn law_stage_weights(stage: NnModel, residual: i32, k: int)
    requires
        stage.wf(),
        0 <= k < stage.order,
    ensures
        ({
            let next = stage.decode(residual).0;
            let down = stage.m[k] - stage.delta[k];
            let up = stage.m[k] + stage.delta[k];
            &&& next.m.len() == stage.order
            &&& residual == 0 ==> next.m[k] == stage.m[k]
            &&& residual > 0 && i16::MIN <= down <= i16::MAX ==> next.m[k] == down
            &&& residual < 0 && i16::MIN <= up <= i16::MAX ==> next.m[k] == up
        }),
{
    reveal(NnModel::advanced);
}

/// The history keeps the values, the newest last, clamped to 16 bits.
pub proof fn law_stage_history(stage: NnModel, residual: i32, k: int)
    requires
        stage.wf(),
        0 <= k < stage.order,
    ensures
        ({
            let (next, signal) = stage.decode(residual);
            &&& next.input.len() == stage.order
            &&& k < stage.order - 1 ==> next.input[k] == stage.input[k + 1]
            &&& k == stage.order - 1 ==> {
                &&& -0x8000 <= signal <= 0x7FFF ==> next.input[k] == signal
                &&& signal > 0x7FFF ==> next.input[k] == 0x7FFF
                &&& signal < -0x8000 ==> next.input[k] == -0x8000
            }
        }),
{
    reveal(NnModel::advanced);
}

/// The steps move along with the history. Some are halved, rounded down,
/// as they grow older: from version 3980 on at lags 1, 2 and 8, before
/// that at lags 4 and 8.
pub proof fn law_steps_age(stage: NnModel, residual: i32, lag: int)
    requires
        stage.wf(),
        1 <= lag < stage.order,
    ensures
        ({
            let next = stage.decode(residual).0;
            let k = stage.order - 1 - lag;
            let aged = match stage.era {
                DeltaEra::A => lag == 1 || lag == 2 || lag == 8,
                DeltaEra::B => lag == 4 || lag == 8,
            };
            &&& next.delta.len() == stage.order
            &&& aged ==> 2 * next.delta[k] <= stage.delta[k + 1] < 2 * next.delta[k] + 2
            &&& !aged ==> next.delta[k] == stage.delta[k + 1]
        }),
{
    reveal(NnModel::advanced);
}

/// A new value contributes a step against its sign. Before version 3980 it
/// is 4. From there on it is 32 for a value more than three times the
/// running average, 16 for one more than four thirds of it, and 8 for any
/// other; zero contributes none.
pub proof fn law_new_step(stage: NnModel, residual: i32)
    requires
        stage.wf(),
        0 <= stage.avg < 0x1000_0000,
        -0x1000_0000 < stage.decode(residual).1 < 0x1000_0000,
    ensures
        ({
            let (next, signal) = stage.decode(residual);
            let step = next.delta[stage.order - 1] as int;
            let size = if signal < 0 {
                -(signal as int)
            } else {
                signal as int
            };
            let avg = stage.avg as int;
            let expected: int = match stage.era {
                DeltaEra::B => if size == 0 {
                    0
                } else {
                    4
                },
                DeltaEra::A => if size == 0 {
                    0
                } else if size > 3 * avg {
                    32
                } else if size > (4 * avg) / 3 {
                    16
                } else {
                    8
                },
            };
            &&& signal < 0 ==> step == expected
            &&& signal >= 0 ==> step == -expected
        }),
{
    reveal(NnModel::advanced);
    let (next, signal) = stage.decode(residual);
    let size = if signal < 0 {
        -(signal as int)
    } else {
        signal as int
    };
    lemma_wrap32(size);
    lemma_wrap32(stage.avg * 3);
    lemma_wrap32(stage.avg * 4);
}

/// The running average moves by a sixteenth of the distance to the new
/// magnitude, rounded toward zero; before version 3980 there is none.
pub proof fn law_running_average(stage: NnModel, residual: i32)
    requires
        stage.wf(),
        0 <= stage.avg < 0x1000_0000,
        -0x1000_0000 < stage.decode(residual).1 < 0x1000_0000,
    ensures
        ({
            let (next, signal) = stage.decode(residual);
            let size = if signal < 0 {
                -(signal as int)
            } else {
                signal as int
            };
            let gap = size - stage.avg;
            let moved = next.avg - stage.avg;
            match stage.era {
                DeltaEra::B => moved == 0,
                DeltaEra::A => {
                    &&& gap >= 0 ==> 16 * moved <= gap < 16 * moved + 16
                    &&& gap <= 0 ==> 16 * moved - 16 < gap <= 16 * moved
                },
            }
        }),
{
    reveal(NnModel::advanced);
    let (next, signal) = stage.decode(residual);
    let size = if signal < 0 {
        -(signal as int)
    } else {
        signal as int
    };
    lemma_wrap32(size);
    lemma_wrap32(size - stage.avg);
    let part = crate::arith::trunc_div(size - stage.avg, 16);
    lemma_wrap32(stage.avg + part);
}

/// Every step points against its value, or has died away.
pub open spec fn opposed(stage: NnModel) -> bool {
    forall|k: int|
        0 <= k < stage.order ==> {
            &&& (#[trigger] stage.input[k]) > 0 ==> stage.delta[k] <= 0
            &&& stage.input[k] < 0 ==> stage.delta[k] >= 0
            &&& stage.input[k] == 0 ==> stage.delta[k] == 0
        }
}

/// A stage learns from its error. From no history on every step points
/// against its value, and so a weight moves in the direction that makes
/// the prediction larger after a positive residual and smaller after a
/// negative one, or stays.
pub proof fn law_stage_reduces_the_error(stage: NnModel, residual: i32, k: int)
    requires
        stage.wf(),
        opposed(stage),
        0 <= k < stage.order,
        -0x7F00 <= stage.m[k] <= 0x7F00,
        -0x80 <= stage.delta[k] <= 0x80,
        0 <= stage.avg < 0x1000_0000,
    ensures
        opposed(stage.decode(residual).0),
        ({
            let next = stage.decode(residual).0;
            let change = next.m[k] - stage.m[k];
            &&& residual > 0 && stage.input[k] > 0 ==> change >= 0
            &&& residual > 0 && stage.input[k] < 0 ==> change <= 0
            &&& residual < 0 && stage.input[k] > 0 ==> change <= 0
            &&& residual < 0 && stage.input[k] < 0 ==> change >= 0
        }),
{
    law_stage_weights(stage, residual, k);
    let (next, signal) = stage.decode(residual);
    reveal(NnModel::advanced);
    assert(stage.input[k] > 0 || stage.input[k] <= 0);
    assert forall|j: int| 0 <= j < next.order implies {
        &&& (#[trigger] next.input[j]) > 0 ==> next.delta[j] <= 0
        &&& next.input[j] < 0 ==> next.delta[j] >= 0
        &&& next.input[j] == 0 ==> next.delta[j] == 0
    } by {
        law_stage_history(stage, residual, j);
        if j < stage.order - 1 {
            law_steps_age(stage, residual, stage.order - 1 - j);
            assert(stage.input[j + 1] > 0 || stage.input[j + 1] <= 0);
        } else {
            lemma_wrap32(
                if signal < 0 {
                    -(signal as int)
                } else {
                    signal as int
                },
            );
            lemma_wrap32(stage.avg * 3);
            lemma_wrap32(stage.avg * 4);
        }
    }
}

/// A stage without history predicts nothing.
pub proof fn law_fresh_stage(order: nat, shift: nat, era: DeltaEra, residual: i32)
    requires
        order >= 16,
        1 <= shift <= 30,
    ensures
        opposed(fresh_nn(order, shift, era)),
        fresh_nn(order, shift, era).avg == 0,
        fresh_nn(order, shift, era).decode(residual).1 == residual,
{
    let stage = fresh_nn(order, shift, era);
    lemma_zero_products(stage.input, stage.m, 0);
    lemma_pow2_pos(shift);
    lemma_pow2_pos((shift - 1) as nat);
    lemma_pow2_strictly_increases((shift - 1) as nat, shift);
    lemma_wrap32(residual as int);
    law_stage_prediction(stage, residual, 0);
}

proof fn lemma_zero_products(a: Seq<i16>, b: Seq<i16>, k: int)
    requires
        forall|j: int| 0 <= j < a.len() ==> #[trigger] a[j] == 0,
    ensures
        products_from(a, b, k) == 0,
    decreases a.len() - k,
{
    if 0 <= k < a.len() {
        lemma_zero_products(a, b, k + 1);
        assert(a[k] * b[k] == 0) by (nonlinear_arith)
            requires
                a[k] == 0,
        ;
    }
}

// ---------------------------------------------------------------------
// Runs of stages
// ---------------------------------------------------------------------

/// The stages of a chain decode in turn: the first one gets the residual,
/// every other one what the one before it made.
pub proof fn law_stages_decode_in_turn(nn: Seq<NnModel>, v: i32)
    requires
        nn.len() > 0,
    ensures
        ({
            let (first, u) = nn[0].decode(v);
            let (others, w) = nn_decode(nn.drop_first(), u);
            nn_decode(nn, v) == (seq![first] + others, w)
        }),
    decreases nn.len(),
{
    let head = nn.drop_last();
    let rest = nn.drop_first();
    let (first, u) = nn[0].decode(v);
    if nn.len() == 1 {
        assert(head =~= Seq::<NnModel>::empty());
        assert(rest =~= Seq::<NnModel>::empty());
        assert(nn_decode(head, v) == (head, v));
        assert(nn_decode(rest, u) == (rest, u));
        assert(nn_decode(nn, v) == (head.push(first), u));
        assert(head.push(first) =~= seq![first] + rest);
    } else {
        law_stages_decode_in_turn(head, v);
        assert(head[0] == nn[0]);
        assert(rest.drop_last() =~= head.drop_first());
        assert(rest.last() == nn.last());
        let (others, t) = nn_decode(head.drop_first(), u);
        let (last, w) = nn.last().decode(t);
        assert(nn_decode(head, v) == (seq![first] + others, t));
        assert(nn_decode(nn, v) == ((seq![first] + others).push(last), w));
        assert(nn_decode(rest, u) == (others.push(last), w));
        assert((seq![first] + others).push(last) =~= seq![first] + others.push(last));
    }
}

/// The stages of the levels, in the order of decoding: none for fast, 16
/// taps for normal, 64 for high, 32 and 256 for extra high, 16, 256 and
/// 1280 for insane, each with its shift. The newer rule for the steps
/// holds from version 3980 on, and for insane always.
pub proof fn law_stages_of_levels(version: u16, level: CompressionLevel)
    ensures
        ({
            let nn = fresh_array(version, level).nn;
            let era = if version >= 3980 || level == CompressionLevel::Insane {
                DeltaEra::A
            } else {
                DeltaEra::B
            };
            match level {
                CompressionLevel::Fast => nn.len() == 0,
                CompressionLevel::Normal => nn.len() == 1 && nn[0] == fresh_nn(16, 11, era),
                CompressionLevel::High => nn.len() == 1 && nn[0] == fresh_nn(64, 11, era),
                CompressionLevel::ExtraHigh => nn.len() == 2 && nn[0] == fresh_nn(32, 10, era)
                    && nn[1] == fresh_nn(256, 13, era),
                CompressionLevel::Insane => nn.len() == 3 && nn[0] == fresh_nn(16, 11, era)
                    && nn[1] == fresh_nn(256, 13, era) && nn[2] == fresh_nn(1280, 15, era),
            }
        }),
{
    law_level_stages(level);
    let stages = level_stages(level);
    assert(stages[0] == table_stages()[crate::filter_config::first_row(level)]);
    if level == CompressionLevel::ExtraHigh || level == CompressionLevel::Insane {
        assert(stages[1] == table_stages()[crate::filter_config::first_row(level) + 1]);
    }
    if level == CompressionLevel::Insane {
        assert(stages[2] == table_stages()[crate::filter_config::first_row(level) + 2]);
    }
}

} // verus!
