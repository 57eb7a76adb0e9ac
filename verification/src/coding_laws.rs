//! What a residual is coded as, in numbers.

use vstd::arithmetic::power2::*;
use vstd::prelude::*;

use crate::entropy::{
    bit_length, coded_value, folded, path_of, split_factor, symbol_at, unfolded, write_pairs, PairEncoder,
    ResidualDecoderModel, ResidualEncoderModel, RunningState,
};
use crate::entropy_laws::{first_of, lemma_join_halves, second_of};
use crate::error::Error;
use crate::freq_model::{
    is_symbol_of, law_tables_agree, lemma_symbol_unique, COUNTS_GE3990, COUNTS_LE3980,
    FREQS_GE3990, FREQS_LE3980,
};
use crate::range_laws::{write_all, CodedValue};

verus! {

/// Residuals are numbered 0, 1, -1, 2, -2 and so on: a positive one is
/// one less than twice itself, the others are twice their magnitude.
pub proof fn law_residuals_are_numbered_by_magnitude(residual: i32, value: u32)
    ensures
        residual > 0 ==> folded(residual) + 1 == 2 * residual,
        i32::MIN < residual <= 0 ==> folded(residual) + 2 * residual == 0,
        value % 2 == 0 ==> 2 * unfolded(value) + value == 0,
        value % 2 == 1 && value < u32::MAX ==> 2 * unfolded(value) == value + 1,
{
}

// ---------------------------------------------------------------------
// The running sum
// ---------------------------------------------------------------------

/// The running sum follows the magnitudes, on every version path and in
/// both directions, after every value that is decoded or encoded.
pub proof fn law_sum_follows_the_magnitudes(
    d: ResidualDecoderModel,
    e: ResidualEncoderModel,
    value: u32,
)
    ensures
        d.value().1 matches Ok(v) ==> {
            let before = d.state.ksum as int;
            let after = d.value().0.state.ksum as int;
            let sum = before + (v as int + 1) / 2 - (before + 16) / 32;
            before + 16 <= u32::MAX && sum <= u32::MAX ==> after == sum
        },
        e.value(value).1 is Ok ==> {
            let before = e.state.ksum as int;
            let after = e.value(value).0.state.ksum as int;
            let sum = before + (value as int + 1) / 2 - (before + 16) / 32;
            before + 16 <= u32::MAX && sum <= u32::MAX ==> after == sum
        },
{
    reveal(RunningState::updated);
}

/// Silence lowers the running sum, and a magnitude above it raises it, as
/// long as the sum has room.
pub proof fn law_sum_tracks_the_signal(
    d: ResidualDecoderModel,
    e: ResidualEncoderModel,
    value: u32,
)
    ensures
        d.value().1 matches Ok(v) ==> {
            let before = d.state.ksum;
            let after = d.value().0.state.ksum;
            &&& v == 0 && 16 <= before <= u32::MAX - 16 ==> after < before
            &&& before < v && before < 0x4000_0000 && v < 0x4000_0000 ==> before < after
        },
        e.value(value).1 is Ok ==> {
            let before = e.state.ksum;
            let after = e.value(value).0.state.ksum;
            &&& value == 0 && 16 <= before <= u32::MAX - 16 ==> after < before
            &&& before < value && before < 0x4000_0000 && value < 0x4000_0000 ==> before < after
        },
{
    law_sum_follows_the_magnitudes(d, e, value);
}

/// The bit count of the older path follows the sum: it drops by one when
/// the sum is below `16 * 2^k`, and grows by one when the sum reaches
/// `32 * 2^k`. The newer path leaves it alone.
pub proof fn law_bit_count_follows_the_sum(
    d: ResidualDecoderModel,
    e: ResidualEncoderModel,
    value: u32,
)
    requires
        d.state.k <= 27,
        e.state.k <= 27,
    ensures
        d.value().1 is Ok ==> {
            let k = d.state.k;
            let next = d.value().0.state;
            &&& d.path.new_path ==> next.k == k
            &&& !d.path.new_path && k >= 1 && next.ksum < 16 * pow2(k as nat) ==> next.k == k - 1
            &&& !d.path.new_path && k < 27 && next.ksum >= 32 * pow2(k as nat) ==> next.k == k + 1
            &&& !d.path.new_path && 16 * pow2(k as nat) <= next.ksum < 32 * pow2(k as nat)
                ==> next.k == k
        },
        e.value(value).1 is Ok ==> {
            let k = e.state.k;
            let next = e.value(value).0.state;
            &&& e.path.new_path ==> next.k == k
            &&& !e.path.new_path && k >= 1 && next.ksum < 16 * pow2(k as nat) ==> next.k == k - 1
            &&& !e.path.new_path && k < 27 && next.ksum >= 32 * pow2(k as nat) ==> next.k == k + 1
            &&& !e.path.new_path && 16 * pow2(k as nat) <= next.ksum < 32 * pow2(k as nat)
                ==> next.k == k
        },
{
    reveal(RunningState::updated);
    lemma2_to64();
    lemma2_to64_rest();
}

// ---------------------------------------------------------------------
// Values of the newer path
// ---------------------------------------------------------------------

/// A pivot of `n + 1` bits, more than 16, is cut by `2^(n - 15)`, which
/// leaves its upper 16 bits.
pub proof fn law_wide_pivot_keeps_sixteen_bits(pivot: nat, n: nat)
    requires
        n >= 16,
        pow2(n) <= pivot < pow2(n + 1),
    ensures
        split_factor(pivot) == pow2((n - 15) as nat),
    decreases n,
{
    lemma2_to64();
    lemma_pow2_unfold(n);
    lemma_pow2_unfold(n + 1);
    lemma_pow2_unfold((n - 15) as nat);
    if n > 16 {
        lemma_pow2_strictly_increases(16, n);
        law_wide_pivot_keeps_sixteen_bits(pivot / 2, (n - 1) as nat);
    } else {
        assert(split_factor(pivot / 2) == 1);
    }
}

/// The bit length of a number is the number of its binary digits.
pub proof fn law_bit_length(x: nat, n: nat)
    requires
        pow2(n) <= x < pow2(n + 1),
    ensures
        bit_length(x) == n + 1,
    decreases n,
{
    lemma2_to64();
    lemma_pow2_pos(n);
    lemma_pow2_unfold(n + 1);
    if n > 0 {
        lemma_pow2_unfold(n);
        law_bit_length(x / 2, (n - 1) as nat);
    } else {
        assert(x == 1);
        assert(bit_length(0) == 0);
    }
}

/// From version 3990 on a value is a multiple of the pivot and a rest. The
/// pivot is a thirty-second of the running sum, rounded down, and at least
/// one. The rest is coded below the pivot, in two digits once the pivot
/// has more than 16 bits; the multiple is one of 63 symbols of the newer
/// table, or the last symbol and 32 bits, the upper half first.
pub proof fn law_newer_value_is_coded(version: u16, state: RunningState, value: u32, pivot: int)
    requires
        version >= 3990,
        if state.ksum < 32 {
            pivot == 1
        } else {
            32 * pivot <= state.ksum < 32 * pivot + 32
        },
    ensures
        coded_value(path_of(version), state, value) is Some,
        ({
            let parts = coded_value(path_of(version), state, value)->Some_0;
            let times = value as int / pivot;
            let rest = (value as int % pivot) as nat;
            let head: int = if times < 63 {
                1
            } else {
                3
            };
            &&& times < 63 ==> parts[0] == (CodedValue::Interval {
                cumfreq: COUNTS_GE3990@[times] as nat,
                width: FREQS_GE3990@[times] as nat,
                shift: 16,
            })
            &&& times >= 63 ==> {
                &&& parts[0] == (CodedValue::Interval { cumfreq: 65535, width: 1, shift: 16 })
                &&& parts[1] == (CodedValue::Bits { v: (times / 0x1_0000) as nat, shift: 16 })
                &&& parts[2] == (CodedValue::Bits { v: (times % 0x1_0000) as nat, shift: 16 })
            }
            &&& pivot < 0x1_0000 ==> {
                &&& parts.len() == head + 1
                &&& parts[head] == (CodedValue::Base { v: rest, divisor: pivot as nat })
            }
            &&& pivot >= 0x1_0000 ==> {
                let f = split_factor(pivot as nat) as int;
                &&& 0x8000 <= pivot / f < 0x1_0000
                &&& parts.len() == head + 2
                &&& parts[head] == (CodedValue::Base {
                    v: (rest as int / f) as nat,
                    divisor: (pivot / f + 1) as nat,
                })
                &&& parts[head + 1] == (CodedValue::Base {
                    v: (rest as int % f) as nat,
                    divisor: f as nat,
                })
            }
        }),
{
    law_tables_agree(version);
    assert(pivot == crate::scalars::pivot_of(state.ksum as nat));
    crate::entropy::lemma_split_factor(pivot as nat);
    let times = value as int / pivot;
    assert(0 <= times) by {
        vstd::arithmetic::div_mod::lemma_div_pos_is_pos(value as int, pivot);
    }
    assert(value as nat / pivot as nat == times as nat);
    assert(value as nat % pivot as nat == (value as int % pivot) as nat);
    vstd::arithmetic::div_mod::lemma_mod_bound(value as int, pivot);
}

/// The value after a value `first` is coded with the pivot that the sum
/// has by then: from version 3990 on its rest stands below a
/// thirty-second of the sum that follows from `first`.
pub proof fn law_next_pivot_follows(
    version: u16,
    e: ResidualEncoderModel,
    first: u32,
    second: u32,
    pivot: int,
)
    requires
        version >= 3990,
        e.path == path_of(version),
        e.state.ksum < 0x10_0000,
        first < 0x10_0000,
        ({
            let sum = e.state.ksum as int + (first as int + 1) / 2 - (e.state.ksum as int + 16)
                / 32;
            if sum < 32 {
                pivot == 1
            } else {
                32 * pivot <= sum < 32 * pivot + 32
            }
        }),
    ensures
        e.value(first).1 is Ok,
        ({
            let next = e.value(first).0;
            let parts = coded_value(next.path, next.state, second)->Some_0;
            &&& coded_value(next.path, next.state, second) is Some
            &&& parts.last() == (CodedValue::Base {
                v: (second as int % pivot) as nat,
                divisor: pivot as nat,
            })
        }),
{
    let d = ResidualDecoderModel {
        path: e.path,
        rc: crate::range_coder::DecoderModel {
            input: crate::range_laws::input_over(Seq::empty()),
            low: 0,
            range: 0,
            buffer: 0,
        },
        state: e.state,
    };
    law_sum_follows_the_magnitudes(d, e, first);
    let next = e.value(first).0;
    law_newer_value_is_coded(version, next.state, second, pivot);
}

/// Every array of a frame starts with the sum 16384, so that its first
/// value is coded with the pivot 512.
pub proof fn law_first_value_of_a_frame(value: u32, audio: Seq<u8>, offset: nat, version: u16)
    requires
        value < 63 * 512,
    ensures
        ({
            let parts = coded_value(
                crate::encoder::frame_encoder().path,
                crate::encoder::frame_encoder().state,
                value,
            );
            parts == Some(
                seq![
                    CodedValue::Interval {
                        cumfreq: COUNTS_GE3990@[value as int / 512] as nat,
                        width: FREQS_GE3990@[value as int / 512] as nat,
                        shift: 16,
                    },
                    CodedValue::Base { v: (value % 512) as nat, divisor: 512 },
                ],
            )
        }),
        crate::encoder::frame_encoder().state.k == 10,
        crate::encoder::frame_encoder().state.ksum == 16384,
        crate::frame::payload_decoder(audio, offset, version).state
            == crate::encoder::frame_encoder().state,
{
    let state = crate::encoder::frame_encoder().state;
    law_newer_value_is_coded(3990, state, value, 512);
    let parts = coded_value(path_of(3990), state, value)->Some_0;
    assert(parts =~= seq![parts[0], parts[1]]);
}

// ---------------------------------------------------------------------
// Values of the older path
// ---------------------------------------------------------------------

/// Before version 3990 a value is cut at `k - 1` bits. What stands above
/// is one of 63 symbols of the older table; a value too large for that is
/// the last symbol, its bit length in five bits, and the value. The low
/// bits come at once, or, from version 3910 on and where there are more
/// than 16, the lower 16 first.
pub proof fn law_older_value_is_coded(version: u16, state: RunningState, value: u32, n: nat)
    requires
        version < 3990,
        state.k <= 31,
        n == 0 <==> state.k <= 1,
        state.k >= 1 ==> n == state.k - 1,
    ensures
        ({
            let coded = coded_value(path_of(version), state, value);
            let parts = coded->Some_0;
            let above = value as int / pow2(n) as int;
            let len = bit_length(value as nat);
            let (head, low, bits): (int, int, nat) = if above < 63 {
                (1, value as int % pow2(n) as int, n)
            } else {
                (2, value as int, len)
            };
            &&& above < 63 ==> {
                &&& coded is Some
                &&& parts[0] == (CodedValue::Interval {
                    cumfreq: COUNTS_LE3980@[above] as nat,
                    width: FREQS_LE3980@[above] as nat,
                    shift: 16,
                })
            }
            &&& above >= 63 ==> {
                &&& coded is Some <==> value < 0x8000_0000
                &&& coded is Some ==> parts[0] == (CodedValue::Interval {
                    cumfreq: 65535,
                    width: 1,
                    shift: 16,
                }) && parts[1] == (CodedValue::Bits { v: len, shift: 5 })
            }
            &&& coded is Some && (bits <= 16 || version < 3910) ==> parts.len() == head + 1
                && parts[head] == (CodedValue::Bits { v: low as nat, shift: bits })
            &&& coded is Some && bits > 16 && version >= 3910 ==> parts.len() == head + 2
                && parts[head] == (CodedValue::Bits { v: (low % 0x1_0000) as nat, shift: 16 })
                && parts[head + 1] == (CodedValue::Bits {
                v: (low / 0x1_0000) as nat,
                shift: (bits - 16) as nat,
            })
        }),
{
    law_tables_agree(version);
    lemma_pow2_pos(n);
    lemma2_to64();
    lemma2_to64_rest();
    let above = value as int / pow2(n) as int;
    assert(0 <= above) by {
        vstd::arithmetic::div_mod::lemma_div_pos_is_pos(value as int, pow2(n) as int);
    }
    assert(value as nat / pow2(n) == above as nat);
    vstd::arithmetic::div_mod::lemma_mod_bound(value as int, pow2(n) as int);
    assert(value as nat % pow2(n) == (value as int % pow2(n) as int) as nat);
    crate::entropy::lemma_bit_length(value as nat, 31);
    lemma_length_of_wide(value as nat);
}

/// A number of 31 bits or fewer is below `2^31`.
proof fn lemma_length_of_wide(x: nat)
    requires
        x <= u32::MAX,
    ensures
        bit_length(x) <= 31 <==> x < 0x8000_0000,
{
    lemma2_to64();
    crate::entropy::lemma_bit_length(x, 31);
    if bit_length(x) <= 31 {
        lemma_pow2_pos(bit_length(x));
        if bit_length(x) < 31 {
            lemma_pow2_strictly_increases(bit_length(x), 31);
        }
    }
}

// ---------------------------------------------------------------------
// Two arrays
// ---------------------------------------------------------------------

/// Two arrays share one coder and are coded in turns, the first one first
/// in every turn. Each has a running state of its own: a value is coded as
/// it would be if the other array were not there.
pub proof fn law_arrays_take_turns(
    version: u16,
    start: PairEncoder,
    a: Seq<i32>,
    b: Seq<i32>,
    n: nat,
)
    requires
        n < a.len(),
        n < b.len(),
        write_pairs(path_of(version), start, a, b, n + 1) is Some,
    ensures
        ({
            let path = path_of(version);
            let before = write_pairs(path, start, a, b, n)->Some_0;
            let after = write_pairs(path, start, a, b, n + 1)->Some_0;
            let from_a = coded_value(path, before.s0, folded(a[n as int]))->Some_0;
            let from_b = coded_value(path, before.s1, folded(b[n as int]))->Some_0;
            &&& write_pairs(path, start, a, b, n) is Some
            &&& after.rc == write_all(from_b, write_all(from_a, before.rc))
            &&& after.s0 == ResidualEncoderModel {
                path,
                rc: before.rc,
                state: before.s0,
            }.residual(a[n as int]).0.state
            &&& after.s1 == ResidualEncoderModel {
                path,
                rc: before.rc,
                state: before.s1,
            }.residual(b[n as int]).0.state
        }),
{
    let path = path_of(version);
    let before = write_pairs(path, start, a, b, n)->Some_0;
    assert((n + 1 - 1) as nat == n);
    assert(first_of(path, before).residual(a[n as int]).1 is Ok);
    assert(second_of(path, before, a[n as int]).residual(b[n as int]).1 is Ok);
}

/// Residuals are coded one after the other: coding two runs is coding the
/// second from where the first one ended.
pub proof fn law_runs_follow_each_other(e: ResidualEncoderModel, a: Seq<i32>, b: Seq<i32>)
    ensures
        e.run(a) matches Some(mid) ==> e.run(a + b) == mid.run(b),
        e.run(a) is None ==> e.run(a + b) is None,
    decreases b.len(),
{
    if b.len() == 0 {
        assert(a + b =~= a);
    } else {
        law_runs_follow_each_other(e, a, b.drop_last());
        assert((a + b).drop_last() =~= a + b.drop_last());
        assert((a + b).last() == b.last());
    }
}

/// One residual is coded as the value that numbers it, and read as such.
pub proof fn law_one_residual(e: ResidualEncoderModel, residual: i32)
    requires
        coded_value(e.path, e.state, folded(residual)) is Some,
    ensures
        e.run(seq![residual]) is Some,
        e.run(seq![residual])->Some_0.rc == write_all(
            coded_value(e.path, e.state, folded(residual))->Some_0,
            e.rc,
        ),
{
    assert(seq![residual].drop_last() =~= Seq::<i32>::empty());
    assert(e.run(Seq::<i32>::empty()) == Some(e));
}

// ---------------------------------------------------------------------
// Values that are read
// ---------------------------------------------------------------------

/// From version 3990 on, reading a value takes a symbol of the newer table
/// and a rest below the pivot, and adds the symbol times the pivot. The
/// last symbol stands for 32 bits, the upper half first. This holds of
/// every stream, whoever wrote it.
pub proof fn law_newer_value_is_read(version: u16, d: ResidualDecoderModel, s: int, pivot: int)
    requires
        version >= 3990,
        d.path == path_of(version),
        d.state.ksum < 0x20_0000,
        if d.state.ksum < 32 {
            pivot == 1
        } else {
            32 * pivot <= d.state.ksum < 32 * pivot + 32
        },
        0 <= s < 64,
        d.rc.culfreq(16).1 is Ok,
        COUNTS_GE3990@[s] <= d.rc.culfreq(16).1->Ok_0 < COUNTS_GE3990@[s + 1],
    ensures
        ({
            let after = d.rc.culfreq(16).0.consumed(
                COUNTS_GE3990@[s] as nat,
                FREQS_GE3990@[s] as nat,
            );
            let base = after.base(pivot as nat);
            let hi = after.bits(16);
            let lo = hi.0.bits(16);
            let last = lo.0.base(pivot as nat);
            &&& s < 63 && base.1 is Ok ==> {
                &&& d.value().1 == Ok::<u32, Error>(
                    ((base.1->Ok_0 + s * pivot) % 0x1_0000_0000) as u32,
                )
                &&& d.value().0.rc == base.0
            }
            &&& s == 63 && hi.1 is Ok && lo.1 is Ok && last.1 is Ok && hi.1->Ok_0 < 0x1_0000
                && lo.1->Ok_0 < 0x1_0000 ==> {
                &&& d.value().1 == Ok::<u32, Error>(
                    ((last.1->Ok_0 + (hi.1->Ok_0 * 0x1_0000 + lo.1->Ok_0) * pivot)
                        % 0x1_0000_0000) as u32,
                )
                &&& d.value().0.rc == last.0
            }
        }),
{
    law_tables_agree(version);
    let cf = d.rc.culfreq(16).1->Ok_0;
    let counts = COUNTS_GE3990@;
    let found = symbol_at(counts, cf);
    assert(is_symbol_of(counts, cf, s));
    assert(is_symbol_of(counts, cf, found));
    lemma_symbol_unique(counts, cf, s, found);
    assert(pivot == crate::scalars::pivot_of(d.state.ksum as nat));
    let after = d.rc.culfreq(16).0.consumed(COUNTS_GE3990@[s] as nat, FREQS_GE3990@[s] as nat);
    let hi = after.bits(16);
    let lo = hi.0.bits(16);
    if s == 63 && hi.1 is Ok && lo.1 is Ok && hi.1->Ok_0 < 0x1_0000 && lo.1->Ok_0 < 0x1_0000 {
        lemma_join_halves(hi.1->Ok_0, lo.1->Ok_0);
    }
}

/// Before version 3990, reading a value takes a symbol of the older table
/// and as many low bits as the bit count says, less one; the last symbol
/// stands for a bit count of five bits and no symbol. From version 3910 on
/// more than 16 low bits come in two parts, the lower 16 first.
pub proof fn law_older_value_is_read(version: u16, d: ResidualDecoderModel, s: int)
    requires
        version < 3990,
        d.path == path_of(version),
        1 <= d.state.k <= 31,
        0 <= s < 64,
        d.rc.culfreq(16).1 is Ok,
        COUNTS_LE3980@[s] <= d.rc.culfreq(16).1->Ok_0 < COUNTS_LE3980@[s + 1],
    ensures
        ({
            let after = d.rc.culfreq(16).0.consumed(
                COUNTS_LE3980@[s] as nat,
                FREQS_LE3980@[s] as nat,
            );
            let n = (d.state.k - 1) as nat;
            let low = after.bits(n);
            let count = after.bits(5);
            let m = count.1->Ok_0 as nat;
            let all = count.0.bits(m);
            &&& s < 63 && (n <= 16 || version < 3910) && low.1 is Ok && n + 6 <= 31 && low.1->Ok_0
                < 0x100_0000 ==> {
                &&& d.value().1 == Ok::<u32, Error>(
                    ((low.1->Ok_0 + s * pow2(n)) % 0x1_0000_0000) as u32,
                )
                &&& d.value().0.rc == low.0
            }
            &&& s == 63 && count.1 is Ok && m <= 31 && (m <= 16 || version < 3910)
                && all.1 is Ok ==> {
                &&& d.value().1 == Ok::<u32, Error>(all.1->Ok_0)
                &&& d.value().0.rc == all.0
            }
        }),
{
    law_tables_agree(version);
    let cf = d.rc.culfreq(16).1->Ok_0;
    let counts = COUNTS_LE3980@;
    let found = symbol_at(counts, cf);
    assert(is_symbol_of(counts, cf, s));
    assert(is_symbol_of(counts, cf, found));
    lemma_symbol_unique(counts, cf, s, found);
    let n = (d.state.k - 1) as nat;
    if n + 6 <= 31 && s < 63 {
        lemma2_to64();
        lemma_pow2_adds(n, 6);
        if n + 6 < 31 {
            lemma_pow2_strictly_increases(n + 6, 31);
        }
        assert(s * pow2(n) <= 63 * pow2(n)) by (nonlinear_arith)
            requires
                0 <= s <= 63,
        ;
        assert(0 <= s * pow2(n)) by (nonlinear_arith)
            requires
                0 <= s,
        ;
        assert(s as u32 as nat * pow2(n) == s * pow2(n));
        assert((s * pow2(n)) % 0x1_0000_0000 == s * pow2(n));
    }
    assert(0 * pow2(d.rc.bits(5).1->Ok_0 as nat) == 0) by (nonlinear_arith);
    lemma_nothing_above(d.rc.culfreq(16).0.consumed(
        COUNTS_LE3980@[s] as nat,
        FREQS_LE3980@[s] as nat,
    ).bits(5).1->Ok_0);
}

proof fn lemma_nothing_above(n: u32)
    ensures
        0nat * pow2(n as nat) == 0,
{
    assert(0nat * pow2(n as nat) == 0) by (nonlinear_arith);
}

} // verus!
