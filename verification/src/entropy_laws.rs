//! Why the residual decoder reads back what the residual encoder wrote.

use vstd::arithmetic::div_mod::*;
use vstd::arithmetic::power2::*;
use vstd::prelude::*;

use crate::entropy::{
    bit_length, coded_base, coded_low_bits, coded_overflow, coded_symbol, coded_value, folded,
    law_fold_unfold, lemma_base_digits, lemma_bit_length, lemma_low_bits_digits, lemma_split_factor,
    path_of, read_base, read_low_bits, read_overflow, read_pairs, read_symbol, read_value,
    running_start, split_factor, symbol_at, write_pairs, EntropyInit, PairEncoder, Path,
    ResidualDecoderModel, ResidualEncoderModel, RunningState,
};
use crate::error::Error;
use crate::freq_model::{
    has_width, is_model, is_symbol_of, law_tables_agree, lemma_symbol_unique,
};
use crate::range_coder::{
    fresh_encoder, primed, BitModel, DecoderModel, EncoderModel, BOTTOM_VALUE,
};
use crate::range_laws::{
    all_in_range, all_roomy, covers, input_over, lemma_covers_between, lemma_few_parts,
    lemma_flushed_covers, lemma_fresh_in_step, lemma_input_over, lemma_output_grows,
    lemma_read_all, lemma_write_all_sound, lemma_write_concat, paired, read_all, sound,
    stream_starts_with, write_all, CodedValue,
};
use crate::scalars::pivot_of;

verus! {

/// Two 16-bit halves.
pub proof fn lemma_join_halves(hi: u32, lo: u32)
    requires
        hi < 0x1_0000,
        lo < 0x1_0000,
    ensures
        (hi << 16u32) | lo == hi * 0x1_0000 + lo,
        lo | (hi << 16u32) == hi * 0x1_0000 + lo,
{
    assert((hi << 16u32) | lo == hi * 0x1_0000 + lo && lo | (hi << 16u32) == hi * 0x1_0000 + lo)
        by (bit_vector)
        requires
            hi < 0x1_0000,
            lo < 0x1_0000,
    ;
}

/// The coded form of a symbol of a model lies in its range.
pub proof fn lemma_symbol_in_range(counts: Seq<u32>, s: nat)
    requires
        is_model(counts),
        s < 64,
    ensures
        coded_symbol(counts, s).in_range(),
        coded_symbol(counts, s).parts() <= BOTTOM_VALUE,
{
    assert(has_width(counts, s as int));
    lemma2_to64();
    crate::freq_model::lemma_model_sorted(counts, s as int + 1, 64);
    lemma_few_parts(16);
}

/// A value of the interval of a symbol is looked up as that symbol.
proof fn lemma_symbol_read(counts: Seq<u32>, s: nat, d: DecoderModel)
    requires
        is_model(counts),
        s < 64,
        coded_symbol(counts, s).is_read_by(d),
    ensures
        read_symbol(counts, d) == (coded_symbol(counts, s).read(d), Ok::<u32, Error>(s as u32)),
{
    assert(has_width(counts, s as int));
    let cf = d.culfreq(16).1->Ok_0;
    assert(is_symbol_of(counts, cf, s as int));
    lemma_symbol_unique(counts, cf, s as int, symbol_at(counts, cf));
}

/// The parts of an overflow lie in their ranges.
proof fn lemma_overflow_in_range(counts: Seq<u32>, n: nat)
    requires
        is_model(counts),
        n <= u32::MAX,
    ensures
        all_in_range(coded_overflow(counts, n)),
        all_roomy(coded_overflow(counts, n)),
{
    lemma2_to64();
    lemma_few_parts(16);
    if n >= 63 {
        lemma_symbol_in_range(counts, 63);
    } else {
        lemma_symbol_in_range(counts, n);
    }
}

/// The parts of a base lie in their ranges.
proof fn lemma_base_in_range(pivot: nat, base: nat)
    requires
        base < pivot < 0x0800_0000,
    ensures
        all_in_range(coded_base(pivot, base)),
        all_roomy(coded_base(pivot, base)),
{
    lemma_split_factor(pivot);
    lemma_base_digits(base, pivot, split_factor(pivot));
}

/// The parts of a low part lie in their ranges.
proof fn lemma_low_bits_in_range(wide_k_split: bool, low: nat, n: nat)
    requires
        low < pow2(n),
    ensures
        all_in_range(coded_low_bits(wide_k_split, low, n)),
        n <= 23 ==> all_roomy(coded_low_bits(wide_k_split, low, n)),
        wide_k_split && n <= 31 ==> all_roomy(coded_low_bits(wide_k_split, low, n)),
{
    lemma2_to64();
    lemma_few_parts(16);
    if n <= 23 {
        lemma_few_parts(n);
    }
    if n > 16 {
        lemma_low_bits_digits(low, n);
        if n <= 31 {
            lemma_few_parts((n - 16) as nat);
        }
    }
}

/// A run of up to three values, seen one by one.
proof fn lemma_run(parts: Seq<CodedValue>, d: DecoderModel)
    requires
        1 <= parts.len() <= 3,
        forall|k: int|
            0 <= k < parts.len() ==> (#[trigger] parts[k]).is_read_by(
                read_all(parts.take(k), d),
            ),
    ensures
        parts[0].is_read_by(d),
        parts.len() == 1 ==> read_all(parts, d) == parts[0].read(d),
        parts.len() >= 2 ==> parts[1].is_read_by(parts[0].read(d)),
        parts.len() == 2 ==> read_all(parts, d) == parts[1].read(parts[0].read(d)),
        parts.len() == 3 ==> parts[2].is_read_by(parts[1].read(parts[0].read(d))) && read_all(
            parts,
            d,
        ) == parts[2].read(parts[1].read(parts[0].read(d))),
{
    let none = Seq::<CodedValue>::empty();
    assert(read_all(none, d) == d);
    assert(parts.take(0) =~= none);
    assert(parts[0].is_read_by(read_all(parts.take(0), d)));
    let one = parts.take(1);
    assert(one.drop_last() =~= none);
    assert(read_all(one, d) == parts[0].read(d));
    if parts.len() == 1 {
        assert(parts =~= one);
    } else {
        assert(parts[1].is_read_by(read_all(parts.take(1), d)));
        let two = parts.take(2);
        assert(two.drop_last() =~= one);
        assert(read_all(two, d) == parts[1].read(parts[0].read(d)));
        if parts.len() == 2 {
            assert(parts =~= two);
        } else {
            assert(parts[2].is_read_by(read_all(parts.take(2), d)));
            assert(parts.drop_last() =~= two);
        }
    }
}

/// An overflow is read back.
proof fn lemma_overflow_read(
    counts: Seq<u32>,
    n: nat,
    d: DecoderModel,
    e: EncoderModel,
    i: BitModel,
)
    requires
        is_model(counts),
        n <= u32::MAX,
        paired(d, e, i),
        covers(write_all(coded_overflow(counts, n), e), i),
    ensures
        read_overflow(counts, d) == (
            read_all(coded_overflow(counts, n), d),
            Ok::<u32, Error>(n as u32),
        ),
        paired(
            read_all(coded_overflow(counts, n), d),
            write_all(coded_overflow(counts, n), e),
            i,
        ),
{
    let parts = coded_overflow(counts, n);
    lemma_overflow_in_range(counts, n);
    lemma_read_all(parts, d, e, i);
    lemma_run(parts, d);
    if n >= 63 {
        lemma_symbol_read(counts, 63, d);
        lemma_join_halves((n / 0x1_0000) as u32, (n % 0x1_0000) as u32);
    } else {
        lemma_symbol_read(counts, n, d);
    }
}

/// The digits of a base give it back.
proof fn lemma_base_digits_back(base: nat, pivot: nat)
    requires
        base < pivot < 0x0800_0000,
    ensures
        ({
            let f = split_factor(pivot);
            &&& base / f <= u32::MAX
            &&& base % f <= u32::MAX
            &&& ((base / f) * f + base % f) % 0x1_0000_0000 == base
        }),
{
    let f = split_factor(pivot);
    lemma_split_factor(pivot);
    lemma_base_digits(base, pivot, f);
    lemma_div_le(base, f);
    lemma_mod_decreases(base, f);
}

/// A base is read back.
proof fn lemma_base_read(pivot: nat, base: nat, d: DecoderModel, e: EncoderModel, i: BitModel)
    requires
        base < pivot < 0x0800_0000,
        paired(d, e, i),
        covers(write_all(coded_base(pivot, base), e), i),
    ensures
        read_base(pivot, d) == (read_all(coded_base(pivot, base), d), Ok::<u32, Error>(base as u32)),
        paired(
            read_all(coded_base(pivot, base), d),
            write_all(coded_base(pivot, base), e),
            i,
        ),
{
    let parts = coded_base(pivot, base);
    lemma_base_in_range(pivot, base);
    lemma_read_all(parts, d, e, i);
    if pivot >= 0x1_0000 {
        let f = split_factor(pivot);
        lemma_split_factor(pivot);
        lemma_base_digits(base, pivot, f);
        let a = CodedValue::Base { v: base / f, divisor: pivot / f + 1 };
        let b = CodedValue::Base { v: base % f, divisor: f };
        assert(parts =~= seq![a, b]);
        lemma_run(parts, d);
        lemma_base_digits_back(base, pivot);
        assert(d.base(pivot / f + 1) == (a.read(d), Ok::<u32, Error>((base / f) as u32)));
        assert(a.read(d).base(f) == (b.read(a.read(d)), Ok::<u32, Error>((base % f) as u32)));
    } else {
        assert(parts =~= seq![CodedValue::Base { v: base, divisor: pivot }]);
        lemma_run(parts, d);
    }
}

/// A low part is read back.
proof fn lemma_low_bits_read(
    wide_k_split: bool,
    low: nat,
    n: nat,
    d: DecoderModel,
    e: EncoderModel,
    i: BitModel,
)
    requires
        n <= 31,
        low < pow2(n),
        paired(d, e, i),
        covers(write_all(coded_low_bits(wide_k_split, low, n), e), i),
    ensures
        read_low_bits(wide_k_split, n, d) == (
            read_all(coded_low_bits(wide_k_split, low, n), d),
            Ok::<u32, Error>(low as u32),
        ),
        low < 0x8000_0000,
        paired(
            read_all(coded_low_bits(wide_k_split, low, n), d),
            write_all(coded_low_bits(wide_k_split, low, n), e),
            i,
        ),
{
    let parts = coded_low_bits(wide_k_split, low, n);
    lemma_low_bits_in_range(wide_k_split, low, n);
    lemma_read_all(parts, d, e, i);
    lemma_run(parts, d);
    lemma2_to64();
    if n < 31 {
        lemma_pow2_strictly_increases(n, 31);
    }
    assert(pow2(31) == 0x8000_0000);
    if n > 16 && wide_k_split {
        lemma_join_halves((low / 0x1_0000) as u32, (low % 0x1_0000) as u32);
    }
}

/// The parts of a magnitude lie in their ranges; on the newer path, and
/// from version 3910 on, they never empty the interval.
pub proof fn lemma_value_in_range(path: Path, state: RunningState, value: u32)
    requires
        is_model(path.counts),
        state.wf(),
        coded_value(path, state, value) is Some,
    ensures
        all_in_range(coded_value(path, state, value)->Some_0),
        path.new_path || path.wide_k_split ==> all_roomy(coded_value(path, state, value)->Some_0),
{
    if path.new_path {
        let pivot = pivot_of(state.ksum as nat);
        lemma_mod_bound(value as int, pivot as int);
        lemma_div_le(value as nat, pivot);
        lemma_overflow_in_range(path.counts, value as nat / pivot);
        lemma_base_in_range(pivot, value as nat % pivot);
        lemma_concat_ranges(
            coded_overflow(path.counts, value as nat / pivot),
            coded_base(pivot, value as nat % pivot),
        );
    } else {
        let n = state.low_bits();
        lemma_pow2_pos(n);
        lemma_few_parts(5);
        lemma2_to64();
        if value as nat / pow2(n) < 63 {
            lemma_mod_bound(value as int, pow2(n) as int);
            lemma_symbol_in_range(path.counts, value as nat / pow2(n));
            lemma_low_bits_in_range(path.wide_k_split, value as nat % pow2(n), n);
            lemma_concat_ranges(
                seq![coded_symbol(path.counts, value as nat / pow2(n))],
                coded_low_bits(path.wide_k_split, value as nat % pow2(n), n),
            );
        } else {
            let b = bit_length(value as nat);
            lemma_bit_length(value as nat, 32);
            lemma_symbol_in_range(path.counts, 63);
            lemma_low_bits_in_range(path.wide_k_split, value as nat, b);
            lemma_concat_ranges(
                seq![coded_symbol(path.counts, 63), CodedValue::Bits { v: b, shift: 5 }],
                coded_low_bits(path.wide_k_split, value as nat, b),
            );
        }
    }
}

proof fn lemma_div_le(x: nat, d: nat)
    requires
        d > 0,
    ensures
        x / d <= x,
        (x / d) * d + x % d == x,
{
    lemma_fundamental_div_mod(x as int, d as int);
    assert((x / d) * d == d * (x / d)) by (nonlinear_arith);
    lemma_div_nonincreasing(x as int, d as int);
}

proof fn lemma_concat_ranges(a: Seq<CodedValue>, b: Seq<CodedValue>)
    requires
        all_in_range(a),
        all_in_range(b),
    ensures
        all_in_range(a + b),
        all_roomy(a) && all_roomy(b) ==> all_roomy(a + b),
{
    assert forall|k: int| 0 <= k < (a + b).len() implies (#[trigger] (a + b)[k]).in_range() by {
        if k < a.len() {
            assert(a[k].in_range());
        } else {
            assert(b[k - a.len()].in_range());
        }
    }
    if all_roomy(a) && all_roomy(b) {
        assert forall|k: int| 0 <= k < (a + b).len() implies (#[trigger] (a + b)[k]).parts()
            <= BOTTOM_VALUE by {
            if k < a.len() {
                assert(a[k].parts() <= BOTTOM_VALUE);
            } else {
                assert(b[k - a.len()].parts() <= BOTTOM_VALUE);
            }
        }
    }
}

/// A magnitude is read back, the running state of the two sides being the
/// same.
pub proof fn lemma_value_read(
    path: Path,
    state: RunningState,
    value: u32,
    d: DecoderModel,
    e: EncoderModel,
    i: BitModel,
)
    requires
        is_model(path.counts),
        state.wf(),
        coded_value(path, state, value) is Some,
        paired(d, e, i),
        covers(write_all(coded_value(path, state, value)->Some_0, e), i),
    ensures
        read_value(path, state, d).1 == Ok::<u32, Error>(value),
        paired(
            read_value(path, state, d).0,
            write_all(coded_value(path, state, value)->Some_0, e),
            i,
        ),
        covers(e, i),
{
    if path.new_path {
        lemma_value_read_newer(path, state, value, d, e, i);
    } else {
        lemma_value_read_older(path, state, value, d, e, i);
    }
}

proof fn lemma_value_read_newer(
    path: Path,
    state: RunningState,
    value: u32,
    d: DecoderModel,
    e: EncoderModel,
    i: BitModel,
)
    requires
        is_model(path.counts),
        path.new_path,
        paired(d, e, i),
        covers(write_all(coded_value(path, state, value)->Some_0, e), i),
    ensures
        read_value(path, state, d).1 == Ok::<u32, Error>(value),
        paired(
            read_value(path, state, d).0,
            write_all(coded_value(path, state, value)->Some_0, e),
            i,
        ),
        covers(e, i),
{
    let pivot = pivot_of(state.ksum as nat);
    let n = value as nat / pivot;
    let base = value as nat % pivot;
    lemma_mod_bound(value as int, pivot as int);
    lemma_div_le(value as nat, pivot);
    let a = coded_overflow(path.counts, n);
    let b = coded_base(pivot, base);
    lemma_overflow_in_range(path.counts, n);
    lemma_base_in_range(pivot, base);
    lemma_write_concat(a, b, e);
    lemma_covers_between(a, b, e, i);
    lemma_overflow_read(path.counts, n, d, e, i);
    lemma_base_read(pivot, base, read_all(a, d), write_all(a, e), i);
    assert(base as u32 + n as u32 * pivot == value);
}

proof fn lemma_value_read_older(
    path: Path,
    state: RunningState,
    value: u32,
    d: DecoderModel,
    e: EncoderModel,
    i: BitModel,
)
    requires
        is_model(path.counts),
        !path.new_path,
        state.wf(),
        coded_value(path, state, value) is Some,
        paired(d, e, i),
        covers(write_all(coded_value(path, state, value)->Some_0, e), i),
    ensures
        read_value(path, state, d).1 == Ok::<u32, Error>(value),
        paired(
            read_value(path, state, d).0,
            write_all(coded_value(path, state, value)->Some_0, e),
            i,
        ),
        covers(e, i),
{
    let n = state.low_bits();
    lemma_pow2_pos(n);
    lemma2_to64();
    let overflow = value as nat / pow2(n);
    lemma_mod_bound(value as int, pow2(n) as int);
    lemma_div_le(value as nat, pow2(n));
    lemma_few_parts(5);
    if overflow < 63 {
        let low = value as nat % pow2(n);
        let a = seq![coded_symbol(path.counts, overflow)];
        let b = coded_low_bits(path.wide_k_split, low, n);
        lemma_symbol_in_range(path.counts, overflow);
        lemma_low_bits_in_range(path.wide_k_split, low, n);
        lemma_write_concat(a, b, e);
        lemma_covers_between(a, b, e, i);
        lemma_read_all(a, d, e, i);
        lemma_run(a, d);
        lemma_symbol_read(path.counts, overflow, d);
        lemma_low_bits_read(path.wide_k_split, low, n, read_all(a, d), write_all(a, e), i);
        lemma_scaled_sum(low, overflow * pow2(n), value as nat);
    } else {
        let bits = bit_length(value as nat);
        let a = seq![coded_symbol(path.counts, 63), CodedValue::Bits { v: bits, shift: 5 }];
        let b = coded_low_bits(path.wide_k_split, value as nat, bits);
        lemma_bit_length(value as nat, 32);
        lemma_symbol_in_range(path.counts, 63);
        lemma_low_bits_in_range(path.wide_k_split, value as nat, bits);
        lemma_write_concat(a, b, e);
        lemma_covers_between(a, b, e, i);
        lemma_read_all(a, d, e, i);
        lemma_run(a, d);
        lemma_symbol_read(path.counts, 63, d);
        lemma_low_bits_read(
            path.wide_k_split,
            value as nat,
            bits,
            read_all(a, d),
            write_all(a, e),
            i,
        );
        assert(0 * pow2(bits) == 0) by (nonlinear_arith);
        lemma_scaled_sum(value as nat, 0, value as nat);
    }
}

proof fn lemma_scaled_sum(low: nat, high: nat, value: nat)
    requires
        low + high == value < 0x1_0000_0000,
    ensures
        (low + high % 0x1_0000_0000) % 0x1_0000_0000 == value,
{
}

// ---------------------------------------------------------------------
// Runs of residuals
// ---------------------------------------------------------------------

/// A residual decoder in step with a residual encoder.
pub open spec fn matched(
    d: ResidualDecoderModel,
    e: ResidualEncoderModel,
    i: BitModel,
) -> bool {
    &&& d.path == e.path
    &&& is_model(d.path.counts)
    &&& d.state == e.state
    &&& d.state.wf()
    &&& paired(d.rc, e.rc, i)
}

/// Updates keep `k` on the ladder.
pub proof fn lemma_updated_wf(state: RunningState, value: u32, adapt_k: bool)
    requires
        state.wf(),
    ensures
        state.updated(value, adapt_k).wf(),
{
    reveal(RunningState::updated);
}

/// A run keeps the encoder sound unless it empties the interval, and a
/// stream inside the interval after it is inside the one before it.
pub proof fn lemma_run_sound(e: ResidualEncoderModel, residuals: Seq<i32>, i: BitModel)
    requires
        is_model(e.path.counts),
        e.state.wf(),
        sound(e.rc),
        e.run(residuals) is Some,
        e.path.new_path || e.path.wide_k_split || e.run(residuals)->Some_0.rc.range > 0,
    ensures
        e.run(residuals)->Some_0.path == e.path,
        e.run(residuals)->Some_0.state.wf(),
        sound(e.run(residuals)->Some_0.rc),
        covers(e.run(residuals)->Some_0.rc, i) ==> covers(e.rc, i),
    decreases residuals.len(),
{
    if residuals.len() > 0 {
        let head = residuals.drop_last();
        let m = e.run(head)->Some_0;
        let value = folded(residuals.last());
        lemma_run_path(e, head);
        let parts = coded_value(m.path, m.state, value)->Some_0;
        lemma_value_in_range(m.path, m.state, value);
        if m.rc.range == 0 {
            crate::range_laws::lemma_empty_through(parts, m.rc);
        }
        lemma_run_sound(e, head, i);
        lemma_write_all_sound(parts, m.rc, i);
        lemma_updated_wf(m.state, value, !m.path.new_path);
    }
}

/// A run keeps the path and `k` on the ladder.
pub proof fn lemma_run_path(e: ResidualEncoderModel, residuals: Seq<i32>)
    requires
        e.state.wf(),
        e.run(residuals) is Some,
    ensures
        e.run(residuals)->Some_0.path == e.path,
        e.run(residuals)->Some_0.state.wf(),
    decreases residuals.len(),
{
    if residuals.len() > 0 {
        let head = residuals.drop_last();
        lemma_run_path(e, head);
        let m = e.run(head)->Some_0;
        lemma_updated_wf(m.state, folded(residuals.last()), !m.path.new_path);
    }
}

/// A run of residuals is read back, and leaves both sides in step, with
/// the same running state.
pub proof fn lemma_run_read(
    d: ResidualDecoderModel,
    e: ResidualEncoderModel,
    residuals: Seq<i32>,
    i: BitModel,
)
    requires
        matched(d, e, i),
        e.run(residuals) is Some,
        covers(e.run(residuals)->Some_0.rc, i),
        !residuals.contains(i32::MIN),
    ensures
        d.run(residuals.len()).1 == Ok::<Seq<i32>, Error>(residuals),
        matched(d.run(residuals.len()).0, e.run(residuals)->Some_0, i),
        covers(e.rc, i),
    decreases residuals.len(),
{
    if residuals.len() == 0 {
        assert(residuals =~= Seq::empty());
    } else {
        let head = residuals.drop_last();
        let m = e.run(head)->Some_0;
        let last = residuals.last();
        let value = folded(last);
        assert(last != i32::MIN) by {
            assert(residuals[residuals.len() - 1] == last);
        }
        assert(!head.contains(i32::MIN)) by {
            if head.contains(i32::MIN) {
                let k = choose|k: int| 0 <= k < head.len() && head[k] == i32::MIN;
                assert(residuals[k] == i32::MIN);
            }
        }
        lemma_run_path(e, head);
        let parts = coded_value(m.path, m.state, value)->Some_0;
        lemma_value_in_range(m.path, m.state, value);
        if m.rc.range == 0 {
            crate::range_laws::lemma_empty_through(parts, m.rc);
        }
        lemma_run_sound(e, head, i);
        lemma_write_all_sound(parts, m.rc, i);
        lemma_run_read(d, e, head, i);
        let dm = d.run(head.len()).0;
        lemma_value_read(m.path, m.state, value, dm.rc, m.rc, i);
        lemma_updated_wf(m.state, value, !m.path.new_path);
        law_fold_unfold(last, 0);
        assert(head.push(last) =~= residuals);
    }
}

/// A payload decodes to the residuals that it was made from, with the
/// same running state at the end. It holds for every file version and
/// every shared initial state, for residuals other than `i32::MIN`, which
/// has no magnitude; before version 3910, whose wide low parts can empty
/// the coder interval, for payloads that did not.
pub proof fn law_residuals_round_trip(
    file_version: u16,
    init: EntropyInit,
    residuals: Seq<i32>,
    i: BitModel,
)
    requires
        !residuals.contains(i32::MIN),
        ({
            let start = ResidualEncoderModel {
                path: path_of(file_version),
                rc: fresh_encoder(),
                state: running_start(init),
            };
            &&& start.run(residuals) is Some
            &&& file_version >= 3910 || start.run(residuals)->Some_0.rc.range > 0
            &&& stream_starts_with(i, start.run(residuals)->Some_0.rc.flushed())
        }),
    ensures
        ({
            let e = ResidualEncoderModel {
                path: path_of(file_version),
                rc: fresh_encoder(),
                state: running_start(init),
            }.run(residuals)->Some_0;
            let d = ResidualDecoderModel {
                path: path_of(file_version),
                rc: primed(i),
                state: running_start(init),
            }.run(residuals.len());
            &&& d.1 == Ok::<Seq<i32>, Error>(residuals)
            &&& d.0.state == e.state
        }),
{
    let start = ResidualEncoderModel {
        path: path_of(file_version),
        rc: fresh_encoder(),
        state: running_start(init),
    };
    let d = ResidualDecoderModel {
        path: path_of(file_version),
        rc: primed(i),
        state: running_start(init),
    };
    law_tables_agree(file_version);
    lemma_fresh_in_step(i);
    lemma_run_sound(start, residuals, i);
    lemma_flushed_covers(start.run(residuals)->Some_0.rc, i);
    lemma_run_read(d, start, residuals, i);
}

/// The first residuals of a run that fits fit too, a stream inside the
/// last interval is inside theirs, and they take no more output.
proof fn lemma_run_prefix(e: ResidualEncoderModel, residuals: Seq<i32>, k: int, i: BitModel)
    requires
        is_model(e.path.counts),
        e.state.wf(),
        sound(e.rc),
        0 <= k <= residuals.len(),
        e.run(residuals) is Some,
        covers(e.run(residuals)->Some_0.rc, i),
    ensures
        e.run(residuals.take(k)) is Some,
        covers(e.run(residuals.take(k))->Some_0.rc, i),
        e.run(residuals.take(k))->Some_0.rc.out.len() <= e.run(
            residuals,
        )->Some_0.rc.out.len(),
    decreases residuals.len(),
{
    if k == residuals.len() {
        assert(residuals.take(k) =~= residuals);
    } else {
        let head = residuals.drop_last();
        let m = e.run(head)->Some_0;
        let value = folded(residuals.last());
        lemma_run_path(e, head);
        let parts = coded_value(m.path, m.state, value)->Some_0;
        lemma_value_in_range(m.path, m.state, value);
        if m.rc.range == 0 {
            crate::range_laws::lemma_empty_through(parts, m.rc);
        }
        lemma_run_sound(e, head, i);
        lemma_write_all_sound(parts, m.rc, i);
        lemma_output_grows(parts, m.rc);
        lemma_run_prefix(e, head, k, i);
        assert(head.take(k) =~= residuals.take(k));
    }
}

/// A decoder over a payload returns the residuals that the encoder took,
/// one after the other, with the encoder's running state after each, and
/// never reads past the end of the payload. The conditions are those of
/// [`law_residuals_round_trip`].
pub proof fn law_payload_read_back(
    file_version: u16,
    init: EntropyInit,
    residuals: Seq<i32>,
    k: int,
)
    requires
        !residuals.contains(i32::MIN),
        0 <= k <= residuals.len(),
        ({
            let start = ResidualEncoderModel {
                path: path_of(file_version),
                rc: fresh_encoder(),
                state: running_start(init),
            };
            &&& start.run(residuals) is Some
            &&& file_version >= 3910 || start.run(residuals)->Some_0.rc.range > 0
        }),
    ensures
        ({
            let start = ResidualEncoderModel {
                path: path_of(file_version),
                rc: fresh_encoder(),
                state: running_start(init),
            };
            let payload = start.run(residuals)->Some_0.rc.flushed();
            let (d, read) = ResidualDecoderModel {
                path: path_of(file_version),
                rc: primed(input_over(payload)),
                state: running_start(init),
            }.run(k as nat);
            &&& read == Ok::<Seq<i32>, Error>(residuals.take(k))
            &&& start.run(residuals.take(k)) is Some
            &&& d.state == start.run(residuals.take(k))->Some_0.state
            &&& d.rc.input.bit_pos <= 8 * payload.len()
            &&& d.rc.input.overrun == 0
            &&& k < residuals.len() ==> d.residual().1 == Ok::<i32, Error>(residuals[k])
        }),
{
    let start = ResidualEncoderModel {
        path: path_of(file_version),
        rc: fresh_encoder(),
        state: running_start(init),
    };
    let payload = start.run(residuals)->Some_0.rc.flushed();
    let i = input_over(payload);
    let d = ResidualDecoderModel {
        path: path_of(file_version),
        rc: primed(i),
        state: running_start(init),
    };
    law_tables_agree(file_version);
    lemma_input_over(payload);
    lemma_fresh_in_step(i);
    lemma_run_sound(start, residuals, i);
    lemma_flushed_covers(start.run(residuals)->Some_0.rc, i);
    lemma_run_prefix(start, residuals, k, i);
    lemma_no_smallest(residuals, k);
    lemma_run_read(d, start, residuals.take(k), i);
    if k < residuals.len() {
        lemma_run_prefix(start, residuals, k + 1, i);
        lemma_no_smallest(residuals, k + 1);
        lemma_run_read(d, start, residuals.take(k + 1), i);
        let (m, read) = d.run(k as nat);
        assert(d.run((k + 1) as nat).1 == Ok::<Seq<i32>, Error>(residuals.take(k + 1)));
        match m.residual().1 {
            Ok(r) => {
                assert(residuals.take(k + 1)[k] == residuals.take(k).push(r)[k]);
            },
            Err(_) => {},
        }
    }
}

/// A prefix holds no more than the whole.
proof fn lemma_no_smallest(residuals: Seq<i32>, k: int)
    requires
        !residuals.contains(i32::MIN),
        0 <= k <= residuals.len(),
    ensures
        !residuals.take(k).contains(i32::MIN),
{
    if residuals.take(k).contains(i32::MIN) {
        let j = choose|j: int| 0 <= j < k && residuals.take(k)[j] == i32::MIN;
        assert(residuals[j] == i32::MIN);
    }
}

/// From version 3990 on every residual fits.
pub proof fn law_newer_path_holds_every_residual(e: ResidualEncoderModel, residuals: Seq<i32>)
    requires
        e.path.new_path,
    ensures
        e.run(residuals) is Some,
    decreases residuals.len(),
{
    if residuals.len() > 0 {
        law_newer_path_holds_every_residual(e, residuals.drop_last());
        lemma_newer_path_kept(e, residuals.drop_last());
    }
}

proof fn lemma_newer_path_kept(e: ResidualEncoderModel, residuals: Seq<i32>)
    requires
        e.run(residuals) is Some,
    ensures
        e.run(residuals)->Some_0.path == e.path,
    decreases residuals.len(),
{
    if residuals.len() > 0 {
        lemma_newer_path_kept(e, residuals.drop_last());
    }
}

// ---------------------------------------------------------------------
// Two arrays in turns
// ---------------------------------------------------------------------

/// A residual that was written keeps the encoder sound unless it empties
/// the interval.
proof fn lemma_residual_sound(e: ResidualEncoderModel, r: i32, i: BitModel)
    requires
        is_model(e.path.counts),
        e.state.wf(),
        sound(e.rc),
        e.residual(r).1 is Ok,
        e.path.new_path || e.path.wide_k_split || e.residual(r).0.rc.range > 0,
    ensures
        e.residual(r).0.path == e.path,
        e.residual(r).0.state.wf(),
        sound(e.residual(r).0.rc),
        covers(e.residual(r).0.rc, i) ==> covers(e.rc, i),
{
    let value = folded(r);
    let parts = coded_value(e.path, e.state, value)->Some_0;
    lemma_value_in_range(e.path, e.state, value);
    lemma_write_all_sound(parts, e.rc, i);
    lemma_updated_wf(e.state, value, !e.path.new_path);
}

/// An empty interval stays empty.
proof fn lemma_residual_empty(e: ResidualEncoderModel, r: i32)
    requires
        is_model(e.path.counts),
        e.state.wf(),
        e.rc.range == 0,
        e.residual(r).1 is Ok,
    ensures
        e.residual(r).0.rc.range == 0,
{
    let value = folded(r);
    lemma_value_in_range(e.path, e.state, value);
    crate::range_laws::lemma_empty_through(coded_value(e.path, e.state, value)->Some_0, e.rc);
}

/// A residual is read back.
proof fn lemma_residual_read(
    d: ResidualDecoderModel,
    e: ResidualEncoderModel,
    r: i32,
    i: BitModel,
)
    requires
        matched(d, e, i),
        r != i32::MIN,
        e.residual(r).1 is Ok,
        covers(e.residual(r).0.rc, i),
    ensures
        d.residual().1 == Ok::<i32, Error>(r),
        matched(d.residual().0, e.residual(r).0, i),
        covers(e.rc, i),
{
    let value = folded(r);
    lemma_value_read(e.path, e.state, value, d.rc, e.rc, i);
    lemma_updated_wf(e.state, value, !e.path.new_path);
    law_fold_unfold(r, 0);
}

/// The encoder of the first array of a pair run.
pub open spec fn first_of(path: Path, p: PairEncoder) -> ResidualEncoderModel {
    ResidualEncoderModel { path, rc: p.rc, state: p.s0 }
}

/// The encoder of the second array, the first one having been served.
pub open spec fn second_of(path: Path, p: PairEncoder, x: i32) -> ResidualEncoderModel {
    ResidualEncoderModel { path, rc: first_of(path, p).residual(x).0.rc, state: p.s1 }
}

/// Pairs keep the encoder sound unless they empty the interval.
pub proof fn lemma_pairs_sound(
    path: Path,
    start: PairEncoder,
    a: Seq<i32>,
    b: Seq<i32>,
    n: nat,
    i: BitModel,
)
    requires
        is_model(path.counts),
        start.s0.wf(),
        start.s1.wf(),
        sound(start.rc),
        write_pairs(path, start, a, b, n) is Some,
        path.new_path || path.wide_k_split || write_pairs(path, start, a, b, n)->Some_0.rc.range
            > 0,
    ensures
        write_pairs(path, start, a, b, n)->Some_0.s0.wf(),
        write_pairs(path, start, a, b, n)->Some_0.s1.wf(),
        sound(write_pairs(path, start, a, b, n)->Some_0.rc),
        covers(write_pairs(path, start, a, b, n)->Some_0.rc, i) ==> covers(start.rc, i),
    decreases n,
{
    if n > 0 {
        let m = (n - 1) as nat;
        let p = write_pairs(path, start, a, b, m)->Some_0;
        lemma_pairs_wf(path, start, a, b, m);
        let e0 = first_of(path, p);
        let e1 = second_of(path, p, a[n - 1]);
        lemma_updated_wf(p.s0, folded(a[n - 1]), !path.new_path);
        if p.rc.range == 0 {
            lemma_residual_empty(e0, a[n - 1]);
        }
        if e1.rc.range == 0 {
            lemma_residual_empty(e1, b[n - 1]);
        }
        lemma_pairs_sound(path, start, a, b, m, i);
        lemma_residual_sound(e0, a[n - 1], i);
        lemma_residual_sound(e1, b[n - 1], i);
    }
}

proof fn lemma_pairs_wf(path: Path, start: PairEncoder, a: Seq<i32>, b: Seq<i32>, n: nat)
    requires
        start.s0.wf(),
        start.s1.wf(),
        write_pairs(path, start, a, b, n) is Some,
    ensures
        write_pairs(path, start, a, b, n)->Some_0.s0.wf(),
        write_pairs(path, start, a, b, n)->Some_0.s1.wf(),
    decreases n,
{
    if n > 0 {
        let m = (n - 1) as nat;
        lemma_pairs_wf(path, start, a, b, m);
        let p = write_pairs(path, start, a, b, m)->Some_0;
        lemma_updated_wf(p.s0, folded(a[n - 1]), !path.new_path);
        lemma_updated_wf(p.s1, folded(b[n - 1]), !path.new_path);
    }
}

/// Two arrays that were written in turns are read back.
pub proof fn lemma_pairs_read(
    path: Path,
    rc: DecoderModel,
    start: PairEncoder,
    a: Seq<i32>,
    b: Seq<i32>,
    n: nat,
    i: BitModel,
)
    requires
        is_model(path.counts),
        start.s0.wf(),
        start.s1.wf(),
        paired(rc, start.rc, i),
        n <= a.len(),
        n <= b.len(),
        !a.contains(i32::MIN),
        !b.contains(i32::MIN),
        write_pairs(path, start, a, b, n) is Some,
        covers(write_pairs(path, start, a, b, n)->Some_0.rc, i),
    ensures
        ({
            let p = write_pairs(path, start, a, b, n)->Some_0;
            let run = read_pairs(path, rc, start.s0, start.s1, n);
            &&& run.outcome == Ok::<(Seq<i32>, Seq<i32>), Error>(
                (a.take(n as int), b.take(n as int)),
            )
            &&& run.s0 == p.s0
            &&& run.s1 == p.s1
            &&& paired(run.rc, p.rc, i)
        }),
    decreases n,
{
    if n == 0 {
        assert(a.take(0) =~= Seq::<i32>::empty());
        assert(b.take(0) =~= Seq::<i32>::empty());
    } else {
        let m = (n - 1) as nat;
        let p = write_pairs(path, start, a, b, m)->Some_0;
        let x = a[n - 1];
        let y = b[n - 1];
        assert(x != i32::MIN && y != i32::MIN);
        lemma_pairs_wf(path, start, a, b, m);
        lemma_updated_wf(p.s0, folded(x), !path.new_path);
        let e0 = first_of(path, p);
        let e1 = second_of(path, p, x);
        if p.rc.range == 0 {
            lemma_residual_empty(e0, x);
        }
        if e1.rc.range == 0 {
            lemma_residual_empty(e1, y);
        }
        lemma_pairs_sound(path, start, a, b, m, i);
        lemma_residual_sound(e0, x, i);
        lemma_residual_sound(e1, y, i);
        lemma_pairs_read(path, rc, start, a, b, m, i);
        let run = read_pairs(path, rc, start.s0, start.s1, m);
        let d0 = ResidualDecoderModel { path, rc: run.rc, state: run.s0 };
        lemma_residual_read(d0, e0, x, i);
        let d1 = ResidualDecoderModel { path, rc: d0.residual().0.rc, state: run.s1 };
        lemma_residual_read(d1, e1, y, i);
        assert(a.take(n as int) =~= a.take(m as int).push(x));
        assert(b.take(n as int) =~= b.take(m as int).push(y));
    }
}

/// Two arrays that were coded in turns, each with its own running state,
/// decode to what they were made from. The conditions are those of
/// [`law_residuals_round_trip`].
pub proof fn law_pairs_round_trip(
    file_version: u16,
    init: EntropyInit,
    a: Seq<i32>,
    b: Seq<i32>,
    i: BitModel,
)
    requires
        a.len() == b.len(),
        !a.contains(i32::MIN),
        !b.contains(i32::MIN),
        ({
            let s = running_start(init);
            let start = PairEncoder { rc: fresh_encoder(), s0: s, s1: s };
            let end = write_pairs(path_of(file_version), start, a, b, a.len());
            &&& end is Some
            &&& file_version >= 3910 || end->Some_0.rc.range > 0
            &&& stream_starts_with(i, end->Some_0.rc.flushed())
        }),
    ensures
        ({
            let s = running_start(init);
            read_pairs(path_of(file_version), primed(i), s, s, a.len()).outcome == Ok::<
                (Seq<i32>, Seq<i32>),
                Error,
            >((a, b))
        }),
{
    let s = running_start(init);
    let path = path_of(file_version);
    let start = PairEncoder { rc: fresh_encoder(), s0: s, s1: s };
    law_tables_agree(file_version);
    lemma_fresh_in_step(i);
    lemma_pairs_sound(path, start, a, b, a.len(), i);
    lemma_flushed_covers(write_pairs(path, start, a, b, a.len())->Some_0.rc, i);
    lemma_pairs_read(path, primed(i), start, a, b, a.len(), i);
    assert(a.take(a.len() as int) =~= a);
    assert(b.take(b.len() as int) =~= b);
}

} // verus!
