//! Residual entropy codec: how one residual becomes range-coded parts.
//!
//! A residual is folded to an unsigned magnitude and split into an
//! overflow symbol, coded against the frequency model, and a low part.
//! From file version 3990 on the low part is a number below a pivot that
//! follows the running magnitude sum `ksum`; before that it is a field of
//! `k - 1` bits, where `k` walks a ladder of `ksum` boundaries. The last
//! symbol is an escape: it introduces a full 32-bit overflow on the newer
//! path, and an explicit bit count on the older one.
//!
//! Both sides carry the same running state, which starts from a value
//! that the caller chooses.

use vstd::arithmetic::power2::*;
use vstd::bits::*;
use vstd::prelude::*;

use crate::error::{Error, Result};
use crate::freq_model::{
    counts_for_version, counts_of, has_width, is_model, is_symbol_of, law_tables_agree, symbol_for_cum_freq,
    symbol_interval, FREQ_MODEL_VERSION_SPLIT, RANGE_OVERFLOW_SHIFT,
};
use crate::range_coder::{
    fresh_encoder, primed, BitModel, DecoderModel, EncoderModel, RangeDecoder, RangeEncoder,
};
use crate::range_laws::{
    lemma_write_concat, lemma_write_one, lemma_write_three, lemma_write_two, write_all, CodedValue,
};
use crate::scalars::{ksum_pivot, pivot_of};

verus! {

/// Boundaries of `ksum` at which the bit count `k` moves: zero, then
/// `2^(n + 4)`; the zeros at the top are padding.
pub const K_SUM_MIN_BOUNDARY: [u32; 32] = [
    0, 32, 64, 128, 256, 512, 1024, 2048, 4096, 8192, 16384, 32768, 65536,
    131072, 262144, 524288, 1048576, 2097152, 4194304, 8388608, 16777216,
    33554432, 67108864, 134217728, 268435456, 536870912, 1073741824,
    2147483648, 0, 0, 0, 0,
];

/// The last symbol of the model.
pub const ESCAPE_SYMBOL: u32 = 63;

/// First file version that reads a wide low part in two pieces.
pub const WIDE_K_SPLIT_VERSION: u16 = 3910;

/// Largest bit count of a low part.
pub const MAX_TEMP_K: u32 = 31;

// ---------------------------------------------------------------------
// Running state
// ---------------------------------------------------------------------

/// Initial running state of the codec for one array.
#[derive(Debug, Clone, Copy, PartialEq, Eq, Default)]
pub struct EntropyInit {
    /// Initial bit count `k`.
    pub k: u32,
    /// Initial magnitude sum.
    pub ksum: u32,
}

/// Running state: the bit count `k` and the magnitude sum `ksum`.
#[derive(Debug, Clone, Copy, PartialEq, Eq)]
pub struct RunningState {
    pub k: u32,
    pub ksum: u32,
}

/// The running state that `init` starts from.
pub open spec fn running_start(init: EntropyInit) -> RunningState {
    RunningState {
        k: if init.k <= 31 {
            init.k
        } else {
            31
        },
        ksum: init.ksum,
    }
}

/// `k` after a move along the ladder for the magnitude sum `ksum`.
pub open spec fn ladder_step(k: u32, ksum: u32) -> u32 {
    if ksum < K_SUM_MIN_BOUNDARY@[k as int] {
        (k - 1) as u32
    } else if k + 1 < 32 && K_SUM_MIN_BOUNDARY@[k + 1] != 0 && ksum >= K_SUM_MIN_BOUNDARY@[k + 1] {
        (k + 1) as u32
    } else {
        k
    }
}

impl RunningState {
    /// `k` is on the ladder.
    pub open spec fn wf(self) -> bool {
        self.k <= 31
    }

    /// The state after the magnitude `value`: `ksum` gains half of it,
    /// rounded up, and loses a thirty-second of itself, rounded.
    #[verifier::opaque]
    pub open spec fn updated(self, value: u32, adapt_k: bool) -> RunningState {
        let ksum = ((self.ksum + (value + 1) / 2 - ((self.ksum + 16) % 0x1_0000_0000) / 32)
            % 0x1_0000_0000) as u32;
        RunningState {
            ksum,
            k: if adapt_k {
                ladder_step(self.k, ksum)
            } else {
                self.k
            },
        }
    }

    /// The bit count of a low part that is not escaped.
    pub open spec fn low_bits(self) -> nat {
        if self.k == 0 {
            0
        } else {
            (self.k - 1) as nat
        }
    }

    /// The state that `init` starts from; `k` is clamped to the ladder.
    pub fn new(init: EntropyInit) -> (r: Self)
        ensures
            r == running_start(init),
            r.wf(),
    {
        RunningState {
            k: if init.k <= 31 {
                init.k
            } else {
                31
            },
            ksum: init.ksum,
        }
    }

    /// Takes the magnitude `value` into account.
    pub fn update(&mut self, value: u32, adapt_k: bool)
        requires
            old(self).wf(),
        ensures
            *final(self) == old(self).updated(value, adapt_k),
            final(self).wf(),
    {
        proof {
            reveal(RunningState::updated);
        }
        let gain: u32 = value / 2 + value % 2;
        let decay: u32 = self.ksum.wrapping_add(16) / 32;
        assert(gain == (value + 1) / 2);
        self.ksum = self.ksum.wrapping_add(gain).wrapping_sub(decay);
        assert(self.ksum == old(self).updated(value, adapt_k).ksum);
        if adapt_k {
            let k: usize = self.k as usize;
            assert(K_SUM_MIN_BOUNDARY@[0] == 0);
            if self.ksum < K_SUM_MIN_BOUNDARY[k] {
                self.k = self.k - 1;
            } else if k + 1 < 32 && K_SUM_MIN_BOUNDARY[k + 1] != 0 && self.ksum
                >= K_SUM_MIN_BOUNDARY[k + 1] {
                self.k = self.k + 1;
            }
        }
    }

    /// The bit count of a low part that is not escaped: `k - 1`, or zero.
    pub fn temp_k(&self) -> (r: u32)
        ensures
            r == self.low_bits(),
    {
        self.k.saturating_sub(1)
    }
}

// ---------------------------------------------------------------------
// Signs
// ---------------------------------------------------------------------

/// The signed residual of a magnitude: odd magnitudes are positive.
pub open spec fn unfolded(value: u32) -> i32 {
    if value % 2 == 1 {
        if value == u32::MAX {
            i32::MIN
        } else {
            (value / 2 + 1) as i32
        }
    } else {
        (-(value / 2)) as i32
    }
}

/// The magnitude of a signed residual, modulo `2^32`.
pub open spec fn folded(residual: i32) -> u32 {
    if residual > 0 {
        (2 * residual - 1) as u32
    } else if residual == i32::MIN {
        0
    } else {
        (-2 * residual) as u32
    }
}

/// The signed residual of a folded magnitude.
pub fn unfold_residual(value: u32) -> (r: i32)
    ensures
        r == unfolded(value),
{
    let half: i32 = (value / 2) as i32;
    if value % 2 != 0 {
        half.wrapping_add(1)
    } else {
        -half
    }
}

/// The folded magnitude of a signed residual: positive `r` becomes
/// `2r - 1`, the others become `-2r`.
pub fn fold_residual(residual: i32) -> (value: u32)
    ensures
        value == folded(residual),
{
    if residual > 0 {
        residual as u32 * 2 - 1
    } else if residual == i32::MIN {
        0
    } else {
        (-residual) as u32 * 2
    }
}

/// Folding is undone by unfolding, except at `i32::MIN`, whose magnitude
/// does not fit; and unfolding by folding, except at `u32::MAX`.
pub proof fn law_fold_unfold(residual: i32, value: u32)
    ensures
        residual != i32::MIN ==> unfolded(folded(residual)) == residual,
        value != u32::MAX ==> folded(unfolded(value)) == value,
{
}

// ---------------------------------------------------------------------
// Pivot split
// ---------------------------------------------------------------------

/// The power of two that brings `pivot` below `2^16`.
pub open spec fn split_factor(pivot: nat) -> nat
    decreases pivot,
{
    if pivot < 0x1_0000 {
        1
    } else {
        2 * split_factor(pivot / 2)
    }
}

/// How a wide pivot is cut: the quotient fits in 16 bits.
pub proof fn lemma_split_factor(pivot: nat)
    ensures
        split_factor(pivot) >= 1,
        pivot / split_factor(pivot) < 0x1_0000,
        pivot >= 0x1_0000 ==> pivot / split_factor(pivot) >= 0x8000,
        pivot >= 0x1_0000 ==> split_factor(pivot) * 0x8000 <= pivot,
    decreases pivot,
{
    if pivot >= 0x1_0000 {
        lemma_split_factor(pivot / 2);
        let f = split_factor(pivot / 2);
        vstd::arithmetic::div_mod::lemma_div_denominator(pivot as int, 2, f as int);
        assert(f * 0x8000 <= pivot / 2);
    }
}

/// Bit length of `x`.
pub open spec fn bit_length(x: nat) -> nat
    decreases x,
{
    if x == 0 {
        0
    } else {
        1 + bit_length(x / 2)
    }
}

/// A number is below two to its bit length.
pub proof fn lemma_bit_length(x: nat, bound: nat)
    ensures
        x < pow2(bit_length(x)),
        x < pow2(bound) ==> bit_length(x) <= bound,
    decreases x,
{
    lemma2_to64();
    if x > 0 {
        lemma_pow2_unfold(bit_length(x));
        if bound > 0 {
            lemma_pow2_unfold(bound);
            lemma_bit_length(x / 2, (bound - 1) as nat);
        } else {
            lemma_bit_length(x / 2, 0);
        }
    } else {
        lemma_pow2_pos(0);
    }
}

fn bit_length_of(x: u32) -> (n: u32)
    ensures
        n == bit_length(x as nat),
        n <= 32,
        x < 0x8000_0000 ==> n <= 31,
{
    let mut rest: u32 = x;
    let mut n: u32 = 0;
    proof {
        lemma2_to64();
        lemma2_to64_rest();
        lemma_bit_length(x as nat, 32);
        lemma_bit_length(x as nat, 31);
    }
    while rest > 0
        invariant
            n + bit_length(rest as nat) == bit_length(x as nat),
            bit_length(x as nat) <= 32,
        decreases rest,
    {
        rest = rest / 2;
        n = n + 1;
    }
    n
}

/// The two radices that a base below a wide `pivot` is coded with.
pub fn pivot_split(pivot: u32) -> (r: (u32, u32))
    requires
        pivot >= 0x1_0000,
    ensures
        r.1 == split_factor(pivot as nat),
        r.0 == pivot as nat / split_factor(pivot as nat) + 1,
{
    let mut rest: u32 = pivot;
    let mut factor: u32 = 1;
    proof {
        lemma_split_factor(pivot as nat);
    }
    while rest >= 0x1_0000
        invariant
            factor >= 1,
            factor * split_factor(rest as nat) == split_factor(pivot as nat),
            split_factor(pivot as nat) * 0x8000 <= pivot,
        decreases rest,
    {
        proof {
            let f = split_factor((rest / 2) as nat);
            lemma_split_factor((rest / 2) as nat);
            assert(factor * (2 * f) == (2 * factor) * f) by (nonlinear_arith);
            assert(2 * factor <= (2 * factor) * f) by (nonlinear_arith)
                requires
                    f >= 1,
                    factor >= 1,
            ;
        }
        rest = rest / 2;
        factor = factor * 2;
    }
    assert(factor * 1 == factor);
    (pivot / factor + 1, factor)
}

// ---------------------------------------------------------------------
// What one magnitude is coded as
// ---------------------------------------------------------------------

/// The parameters that a file version fixes.
pub ghost struct Path {
    /// Cumulative frequencies of the overflow symbol.
    pub counts: Seq<u32>,
    /// From version 3990 on: a base below the pivot.
    pub new_path: bool,
    /// From version 3910 on: wide low parts in two pieces.
    pub wide_k_split: bool,
}

/// The parameters of `file_version`.
pub open spec fn path_of(file_version: u16) -> Path {
    Path {
        counts: counts_of(file_version),
        new_path: file_version >= FREQ_MODEL_VERSION_SPLIT,
        wide_k_split: file_version >= WIDE_K_SPLIT_VERSION,
    }
}

/// The coded form of symbol `s`.
pub open spec fn coded_symbol(counts: Seq<u32>, s: nat) -> CodedValue {
    CodedValue::Interval {
        cumfreq: counts[s as int] as nat,
        width: (counts[s as int + 1] - counts[s as int]) as nat,
        shift: 16,
    }
}

/// The coded forms of the overflow `n` on the newer path.
pub open spec fn coded_overflow(counts: Seq<u32>, n: nat) -> Seq<CodedValue> {
    if n >= 63 {
        seq![
            coded_symbol(counts, 63),
            CodedValue::Bits { v: n / 0x1_0000, shift: 16 },
            CodedValue::Bits { v: n % 0x1_0000, shift: 16 },
        ]
    } else {
        seq![coded_symbol(counts, n)]
    }
}

/// The coded forms of a base below `pivot`.
pub open spec fn coded_base(pivot: nat, base: nat) -> Seq<CodedValue> {
    if pivot >= 0x1_0000 {
        let f = split_factor(pivot);
        seq![
            CodedValue::Base { v: base / f, divisor: pivot / f + 1 },
            CodedValue::Base { v: base % f, divisor: f },
        ]
    } else {
        seq![CodedValue::Base { v: base, divisor: pivot }]
    }
}

/// The coded forms of a low part of `n` bits on the older path.
pub open spec fn coded_low_bits(wide_k_split: bool, low: nat, n: nat) -> Seq<CodedValue> {
    if n <= 16 || !wide_k_split {
        seq![CodedValue::Bits { v: low, shift: n }]
    } else {
        seq![
            CodedValue::Bits { v: low % 0x1_0000, shift: 16 },
            CodedValue::Bits { v: low / 0x1_0000, shift: (n - 16) as nat },
        ]
    }
}

/// The coded forms of `value`, or `None` when the older path cannot hold
/// it: its escape counts at most 31 bits.
pub open spec fn coded_value(path: Path, state: RunningState, value: u32) -> Option<
    Seq<CodedValue>,
> {
    if path.new_path {
        let pivot = pivot_of(state.ksum as nat);
        Some(
            coded_overflow(path.counts, value as nat / pivot) + coded_base(
                pivot,
                value as nat % pivot,
            ),
        )
    } else {
        let n = state.low_bits();
        let overflow = value as nat / pow2(n);
        if overflow < 63 {
            Some(
                seq![coded_symbol(path.counts, overflow)] + coded_low_bits(
                    path.wide_k_split,
                    value as nat % pow2(n),
                    n,
                ),
            )
        } else if bit_length(value as nat) <= 31 {
            Some(
                seq![
                    coded_symbol(path.counts, 63),
                    CodedValue::Bits { v: bit_length(value as nat), shift: 5 },
                ] + coded_low_bits(path.wide_k_split, value as nat, bit_length(value as nat)),
            )
        } else {
            None
        }
    }
}

// ---------------------------------------------------------------------
// What one magnitude is decoded from
// ---------------------------------------------------------------------

/// A decoder step: the registers after it, and its outcome.
pub type Step = (DecoderModel, Result<u32>);

/// The symbol that `cum_freq` selects.
pub open spec fn symbol_at(counts: Seq<u32>, cum_freq: u32) -> int {
    choose|s: int| is_symbol_of(counts, cum_freq, s)
}

/// Reading an overflow symbol.
pub open spec fn read_symbol(counts: Seq<u32>, d: DecoderModel) -> Step {
    let (d1, r) = d.culfreq(16);
    match r {
        Err(e) => (d1, Err(e)),
        Ok(cf) => {
            let s = symbol_at(counts, cf);
            (
                d1.consumed(counts[s] as nat, (counts[s + 1] - counts[s]) as nat),
                Ok(s as u32),
            )
        },
    }
}

/// Reading two 16-bit halves, the high one first.
pub open spec fn read_escaped_overflow(d: DecoderModel) -> Step {
    let (d1, r1) = d.bits(16);
    match r1 {
        Err(e) => (d1, Err(e)),
        Ok(hi) => {
            let (d2, r2) = d1.bits(16);
            match r2 {
                Err(e) => (d2, Err(e)),
                Ok(lo) => (d2, Ok((hi << 16u32) | lo)),
            }
        },
    }
}

/// Reading a base below `pivot`.
pub open spec fn read_base(pivot: nat, d: DecoderModel) -> Step {
    if pivot >= 0x1_0000 {
        let f = split_factor(pivot);
        let (d1, r1) = d.base(pivot / f + 1);
        match r1 {
            Err(e) => (d1, Err(e)),
            Ok(a) => {
                let (d2, r2) = d1.base(f);
                match r2 {
                    Err(e) => (d2, Err(e)),
                    Ok(b) => (d2, Ok(((a * f + b) % 0x1_0000_0000) as u32)),
                }
            },
        }
    } else {
        d.base(pivot)
    }
}

/// Reading an overflow of the newer path.
pub open spec fn read_overflow(counts: Seq<u32>, d: DecoderModel) -> Step {
    let (d1, r1) = read_symbol(counts, d);
    match r1 {
        Err(e) => (d1, Err(e)),
        Ok(sym) => if sym == ESCAPE_SYMBOL {
            read_escaped_overflow(d1)
        } else {
            (d1, Ok(sym))
        },
    }
}

/// Reading a magnitude on the newer path.
pub open spec fn read_value_ge3990(counts: Seq<u32>, ksum: u32, d: DecoderModel) -> Step {
    let pivot = pivot_of(ksum as nat);
    let (d1, r1) = read_overflow(counts, d);
    match r1 {
        Err(e) => (d1, Err(e)),
        Ok(overflow) => {
            let (d2, r2) = read_base(pivot, d1);
            match r2 {
                Err(e) => (d2, Err(e)),
                Ok(base) => (d2, Ok(((base + overflow * pivot) % 0x1_0000_0000) as u32)),
            }
        },
    }
}

/// Reading a low part of `n` bits on the older path.
pub open spec fn read_low_bits(wide_k_split: bool, n: nat, d: DecoderModel) -> Step {
    if n <= 16 || !wide_k_split {
        d.bits(n)
    } else {
        let (d1, r1) = d.bits(16);
        match r1 {
            Err(e) => (d1, Err(e)),
            Ok(x1) => {
                let (d2, r2) = d1.bits((n - 16) as nat);
                match r2 {
                    Err(e) => (d2, Err(e)),
                    Ok(x2) => (d2, Ok(x1 | (x2 << 16u32))),
                }
            },
        }
    }
}

/// Reading a magnitude on the older path, its overflow and bit count
/// known.
pub open spec fn read_low_part(wide_k_split: bool, overflow: u32, n: u32, d: DecoderModel) -> Step {
    if n > MAX_TEMP_K {
        (d, Err(Error::CorruptStream("working bit count exceeds 31")))
    } else {
        let (d1, r1) = read_low_bits(wide_k_split, n as nat, d);
        match r1 {
            Err(e) => (d1, Err(e)),
            Ok(low) => (
                d1,
                Ok(((low + (overflow as nat * pow2(n as nat)) % 0x1_0000_0000) % 0x1_0000_0000) as u32),
            ),
        }
    }
}

/// Reading a magnitude on the older path.
pub open spec fn read_value_lt3990(
    counts: Seq<u32>,
    wide_k_split: bool,
    state: RunningState,
    d: DecoderModel,
) -> Step {
    let (d1, r1) = read_symbol(counts, d);
    match r1 {
        Err(e) => (d1, Err(e)),
        Ok(sym) => if sym == ESCAPE_SYMBOL {
            let (d2, r2) = d1.bits(5);
            match r2 {
                Err(e) => (d2, Err(e)),
                Ok(n) => read_low_part(wide_k_split, 0, n, d2),
            }
        } else {
            read_low_part(wide_k_split, sym, state.low_bits() as u32, d1)
        },
    }
}

/// Reading a magnitude.
pub open spec fn read_value(path: Path, state: RunningState, d: DecoderModel) -> Step {
    if path.new_path {
        read_value_ge3990(path.counts, state.ksum, d)
    } else {
        read_value_lt3990(path.counts, path.wide_k_split, state, d)
    }
}

/// What a [`ResidualDecoder`] stands for.
pub ghost struct ResidualDecoderModel {
    pub path: Path,
    pub rc: DecoderModel,
    pub state: RunningState,
}

impl ResidualDecoderModel {
    /// The decoder after one magnitude, and the magnitude. The running
    /// state moves on success only.
    pub open spec fn value(self) -> (ResidualDecoderModel, Result<u32>) {
        let (rc, r) = read_value(self.path, self.state, self.rc);
        match r {
            Err(e) => (ResidualDecoderModel { rc, ..self }, Err(e)),
            Ok(v) => (
                ResidualDecoderModel {
                    rc,
                    state: self.state.updated(v, !self.path.new_path),
                    ..self
                },
                Ok(v),
            ),
        }
    }

    /// The decoder after one residual, and the residual.
    pub open spec fn residual(self) -> (ResidualDecoderModel, Result<i32>) {
        let (m, r) = self.value();
        match r {
            Err(e) => (m, Err(e)),
            Ok(v) => (m, Ok(unfolded(v))),
        }
    }
}

/// What a [`ResidualEncoder`] stands for.
pub ghost struct ResidualEncoderModel {
    pub path: Path,
    pub rc: EncoderModel,
    pub state: RunningState,
}

impl ResidualEncoderModel {
    /// The encoder after one magnitude. A magnitude that the older path
    /// cannot hold leaves it unchanged.
    pub open spec fn value(self, value: u32) -> (ResidualEncoderModel, Result<()>) {
        match coded_value(self.path, self.state, value) {
            None => (self, Err(Error::CorruptStream("value too wide for the old-path escape"))),
            Some(parts) => (
                ResidualEncoderModel {
                    rc: write_all(parts, self.rc),
                    state: self.state.updated(value, !self.path.new_path),
                    ..self
                },
                Ok(()),
            ),
        }
    }

    /// The encoder after one residual.
    pub open spec fn residual(self, residual: i32) -> (ResidualEncoderModel, Result<()>) {
        self.value(folded(residual))
    }
}

impl ResidualEncoderModel {
    /// The encoder after a run of residuals, `None` when one of them does
    /// not fit.
    pub open spec fn run(self, residuals: Seq<i32>) -> Option<ResidualEncoderModel>
        decreases residuals.len(),
    {
        if residuals.len() == 0 {
            Some(self)
        } else {
            match self.run(residuals.drop_last()) {
                None => None,
                Some(m) => match m.residual(residuals.last()) {
                    (next, Ok(_)) => Some(next),
                    (_, Err(_)) => None,
                },
            }
        }
    }
}

impl ResidualDecoderModel {
    /// The decoder after `n` residuals, and the residuals.
    pub open spec fn run(self, n: nat) -> (ResidualDecoderModel, Result<Seq<i32>>)
        decreases n,
    {
        if n == 0 {
            (self, Ok(Seq::empty()))
        } else {
            match self.run((n - 1) as nat) {
                (m, Err(e)) => (m, Err(e)),
                (m, Ok(head)) => match m.residual() {
                    (next, Ok(r)) => (next, Ok(head.push(r))),
                    (next, Err(e)) => (next, Err(e)),
                },
            }
        }
    }
}

/// Two arrays that were read value by value in turns, each with its own
/// running state.
pub ghost struct PairRun {
    pub rc: DecoderModel,
    pub s0: RunningState,
    pub s1: RunningState,
    pub outcome: Result<(Seq<i32>, Seq<i32>)>,
}

/// Reading `n` values of two arrays in turns.
pub open spec fn read_pairs(
    path: Path,
    rc: DecoderModel,
    s0: RunningState,
    s1: RunningState,
    n: nat,
) -> PairRun
    decreases n,
{
    if n == 0 {
        PairRun { rc, s0, s1, outcome: Ok((Seq::empty(), Seq::empty())) }
    } else {
        let p = read_pairs(path, rc, s0, s1, (n - 1) as nat);
        match p.outcome {
            Err(e) => p,
            Ok((a, b)) => {
                let (m0, r0) = ResidualDecoderModel { path, rc: p.rc, state: p.s0 }.residual();
                match r0 {
                    Err(e) => PairRun { rc: m0.rc, s0: m0.state, outcome: Err(e), ..p },
                    Ok(x) => {
                        let (m1, r1) = ResidualDecoderModel {
                            path,
                            rc: m0.rc,
                            state: p.s1,
                        }.residual();
                        match r1 {
                            Err(e) => PairRun {
                                rc: m1.rc,
                                s0: m0.state,
                                s1: m1.state,
                                outcome: Err(e),
                            },
                            Ok(y) => PairRun {
                                rc: m1.rc,
                                s0: m0.state,
                                s1: m1.state,
                                outcome: Ok((a.push(x), b.push(y))),
                            },
                        }
                    },
                }
            },
        }
    }
}

/// An encoder that codes two arrays in turns, each with its own running
/// state.
pub ghost struct PairEncoder {
    pub rc: EncoderModel,
    pub s0: RunningState,
    pub s1: RunningState,
}

/// Writing the first `n` values of two arrays in turns; `None` when one
/// does not fit.
pub open spec fn write_pairs(
    path: Path,
    start: PairEncoder,
    a: Seq<i32>,
    b: Seq<i32>,
    n: nat,
) -> Option<PairEncoder>
    decreases n,
{
    if n == 0 {
        Some(start)
    } else {
        match write_pairs(path, start, a, b, (n - 1) as nat) {
            None => None,
            Some(p) => match (ResidualEncoderModel { path, rc: p.rc, state: p.s0 }.residual(
                a[n - 1],
            )) {
                (_, Err(_)) => None,
                (m0, Ok(_)) => match (ResidualEncoderModel {
                    path,
                    rc: m0.rc,
                    state: p.s1,
                }.residual(b[n - 1])) {
                    (_, Err(_)) => None,
                    (m1, Ok(_)) => Some(
                        PairEncoder { rc: m1.rc, s0: m0.state, s1: m1.state },
                    ),
                },
            },
        }
    }
}

// ---------------------------------------------------------------------
// Decoder
// ---------------------------------------------------------------------

/// Streaming residual decoder over one range-coded payload.
#[derive(Debug, Clone)]
pub struct ResidualDecoder<'a> {
    pub rc: RangeDecoder<'a>,
    pub counts: &'static [u32; 65],
    pub new_path: bool,
    pub wide_k_split: bool,
    pub state: RunningState,
}

impl<'a> View for ResidualDecoder<'a> {
    type V = ResidualDecoderModel;

    open spec fn view(&self) -> ResidualDecoderModel {
        ResidualDecoderModel {
            path: Path {
                counts: self.counts@,
                new_path: self.new_path,
                wide_k_split: self.wide_k_split,
            },
            rc: self.rc@,
            state: self.state,
        }
    }
}

impl<'a> ResidualDecoder<'a> {
    /// The table is a frequency model and `k` is on the ladder.
    pub open spec fn wf(&self) -> bool {
        &&& is_model(self.counts@)
        &&& self.state.wf()
    }

    /// Primes a decoder over `data` for `file_version`.
    pub fn new(data: &'a [u8], file_version: u16, init: EntropyInit) -> (r: Self)
        ensures
            r.wf(),
            r@ == (ResidualDecoderModel {
                path: path_of(file_version),
                rc: primed(BitModel { data: data@, le_words: false, bit_pos: 0, overrun: 0 }),
                state: running_start(init),
            }),
    {
        Self::with_coder(RangeDecoder::new(data), file_version, init)
    }

    /// A decoder for `file_version` over an already primed coder.
    pub fn with_coder(rc: RangeDecoder<'a>, file_version: u16, init: EntropyInit) -> (r: Self)
        ensures
            r.wf(),
            r@ == (ResidualDecoderModel {
                path: path_of(file_version),
                rc: rc@,
                state: running_start(init),
            }),
    {
        proof {
            law_tables_agree(file_version);
        }
        ResidualDecoder {
            rc,
            counts: counts_for_version(file_version),
            new_path: file_version >= FREQ_MODEL_VERSION_SPLIT,
            wide_k_split: file_version >= WIDE_K_SPLIT_VERSION,
            state: RunningState::new(init),
        }
    }

    /// Restarts the running state, the coder registers staying as they
    /// are.
    pub fn reset_state(&mut self, init: EntropyInit)
        requires
            old(self).wf(),
        ensures
            final(self).wf(),
            final(self)@ == (ResidualDecoderModel { state: running_start(init), ..old(self)@ }),
    {
        self.state = RunningState::new(init);
    }

    /// Current running state.
    pub fn running_state(&self) -> (r: EntropyInit)
        ensures
            r == (EntropyInit { k: self@.state.k, ksum: self@.state.ksum }),
    {
        EntropyInit { k: self.state.k, ksum: self.state.ksum }
    }

    /// Reads an overflow symbol.
    fn decode_symbol(&mut self) -> (r: Result<u32>)
        requires
            old(self).wf(),
            old(self).rc.input.bit_pos <= u64::MAX - 24,
        ensures
            final(self)@ == (ResidualDecoderModel {
                rc: read_symbol(old(self).counts@, old(self).rc@).0,
                ..old(self)@
            }),
            r == read_symbol(old(self).counts@, old(self).rc@).1,
            final(self).wf(),
            final(self).rc.input.bit_pos <= old(self).rc.input.bit_pos + 24,
    {
        match self.rc.decode_culfreq(RANGE_OVERFLOW_SHIFT) {
            Err(e) => Err(e),
            Ok(cf) => {
                let sym = symbol_for_cum_freq(self.counts, cf);
                assert(is_symbol_of(self.counts@, cf, sym as int));
                assert(symbol_at(self.counts@, cf) == sym);
                assert(has_width(self.counts@, sym as int));
                match symbol_interval(self.counts, sym) {
                    Some((low, width)) => {
                        self.rc.consume(low, width);
                        Ok(sym as u32)
                    },
                    None => Err(Error::CorruptStream("overflow symbol out of model")),
                }
            },
        }
    }

    /// Decodes one folded magnitude.
    pub fn decode_value(&mut self) -> (r: Result<u32>)
        requires
            old(self).wf(),
            old(self).rc.input.bit_pos <= u64::MAX - 120,
        ensures
            (final(self)@, r) == old(self)@.value(),
            final(self).wf(),
            final(self).rc.input.bit_pos <= old(self).rc.input.bit_pos + 120,
    {
        if self.new_path {
            self.decode_value_ge3990()
        } else {
            self.decode_value_lt3990()
        }
    }

    /// Decodes one signed residual.
    pub fn decode_residual(&mut self) -> (r: Result<i32>)
        requires
            old(self).wf(),
            old(self).rc.input.bit_pos <= u64::MAX - 120,
        ensures
            (final(self)@, r) == old(self)@.residual(),
            final(self).wf(),
            final(self).rc.input.bit_pos <= old(self).rc.input.bit_pos + 120,
    {
        match self.decode_value() {
            Err(e) => Err(e),
            Ok(v) => Ok(unfold_residual(v)),
        }
    }

    /// Reads two 16-bit halves, the high one first.
    fn decode_escaped_overflow(&mut self) -> (r: Result<u32>)
        requires
            old(self).wf(),
            old(self).rc.input.bit_pos <= u64::MAX - 48,
        ensures
            final(self)@ == (ResidualDecoderModel {
                rc: read_escaped_overflow(old(self).rc@).0,
                ..old(self)@
            }),
            r == read_escaped_overflow(old(self).rc@).1,
            final(self).wf(),
            final(self).rc.input.bit_pos <= old(self).rc.input.bit_pos + 48,
    {
        proof {
            lemma2_to64();
        }
        match self.rc.decode_bits(16) {
            Err(e) => Err(e),
            Ok(hi) => match self.rc.decode_bits(16) {
                Err(e) => Err(e),
                Ok(lo) => Ok((hi << 16u32) | lo),
            },
        }
    }

    /// Reads a base below `pivot`.
    fn decode_pivot_base(&mut self, pivot: u32) -> (r: Result<u32>)
        requires
            old(self).wf(),
            old(self).rc.input.bit_pos <= u64::MAX - 48,
        ensures
            final(self)@ == (ResidualDecoderModel {
                rc: read_base(pivot as nat, old(self).rc@).0,
                ..old(self)@
            }),
            r == read_base(pivot as nat, old(self).rc@).1,
            final(self).wf(),
            final(self).rc.input.bit_pos <= old(self).rc.input.bit_pos + 48,
    {
        if pivot >= 0x1_0000 {
            let (radix_a, factor) = pivot_split(pivot);
            match self.rc.decode_base(radix_a) {
                Err(e) => Err(e),
                Ok(a) => match self.rc.decode_base(factor) {
                    Err(e) => Err(e),
                    Ok(b) => Ok(wrapped_product_sum(a, factor, b)),
                },
            }
        } else {
            self.rc.decode_base(pivot)
        }
    }

    /// Newer path.
    fn decode_value_ge3990(&mut self) -> (r: Result<u32>)
        requires
            old(self).wf(),
            old(self).new_path,
            old(self).rc.input.bit_pos <= u64::MAX - 120,
        ensures
            (final(self)@, r) == old(self)@.value(),
            final(self).wf(),
            final(self).rc.input.bit_pos <= old(self).rc.input.bit_pos + 120,
    {
        let pivot: u32 = ksum_pivot(self.state.ksum as u64) as u32;
        let sym = match self.decode_symbol() {
            Err(e) => { return Err(e); },
            Ok(sym) => sym,
        };
        let overflow: u32 = if sym == ESCAPE_SYMBOL {
            match self.decode_escaped_overflow() {
                Err(e) => { return Err(e); },
                Ok(n) => n,
            }
        } else {
            sym
        };
        let base = match self.decode_pivot_base(pivot) {
            Err(e) => { return Err(e); },
            Ok(base) => base,
        };
        let value: u32 = wrapped_product_sum(overflow, pivot, base);
        self.state.update(value, false);
        Ok(value)
    }

    /// Reads a low part of `n` bits.
    fn decode_low_bits(&mut self, n: u32) -> (r: Result<u32>)
        requires
            old(self).wf(),
            n <= 31,
            old(self).rc.input.bit_pos <= u64::MAX - 48,
        ensures
            final(self)@ == (ResidualDecoderModel {
                rc: read_low_bits(old(self).wide_k_split, n as nat, old(self).rc@).0,
                ..old(self)@
            }),
            r == read_low_bits(old(self).wide_k_split, n as nat, old(self).rc@).1,
            final(self).wf(),
            final(self).rc.input.bit_pos <= old(self).rc.input.bit_pos + 48,
    {
        if n <= 16 || !self.wide_k_split {
            self.rc.decode_bits(n)
        } else {
            match self.rc.decode_bits(16) {
                Err(e) => Err(e),
                Ok(x1) => match self.rc.decode_bits(n - 16) {
                    Err(e) => Err(e),
                    Ok(x2) => Ok(x1 | (x2 << 16u32)),
                },
            }
        }
    }

    /// Older path.
    fn decode_value_lt3990(&mut self) -> (r: Result<u32>)
        requires
            old(self).wf(),
            !old(self).new_path,
            old(self).rc.input.bit_pos <= u64::MAX - 120,
        ensures
            (final(self)@, r) == old(self)@.value(),
            final(self).wf(),
            final(self).rc.input.bit_pos <= old(self).rc.input.bit_pos + 120,
    {
        let sym = match self.decode_symbol() {
            Err(e) => { return Err(e); },
            Ok(sym) => sym,
        };
        let (overflow, temp_k): (u32, u32) = if sym == ESCAPE_SYMBOL {
            match self.rc.decode_bits(5) {
                Err(e) => { return Err(e); },
                Ok(n) => (0, n),
            }
        } else {
            (sym, self.state.temp_k())
        };
        if temp_k > MAX_TEMP_K {
            return Err(Error::CorruptStream("working bit count exceeds 31"));
        }
        let low = match self.decode_low_bits(temp_k) {
            Err(e) => { return Err(e); },
            Ok(low) => low,
        };
        let value: u32 = wrapped_scaled_sum(low, overflow, temp_k);
        self.state.update(value, true);
        Ok(value)
    }

    /// Bit position of the underlying input.
    pub fn bit_pos(&self) -> (r: u64)
        ensures
            r == self@.rc.input.bit_pos,
    {
        self.rc.bit_pos()
    }

    /// Zero-filled reads past the end of the payload.
    pub fn overrun_bytes(&self) -> (r: u32)
        ensures
            r == self@.rc.input.overrun,
    {
        self.rc.overrun_bytes()
    }
}

/// `x * y + z`, modulo `2^32`.
fn wrapped_product_sum(x: u32, y: u32, z: u32) -> (r: u32)
    ensures
        r == (x * y + z) % 0x1_0000_0000,
        r == (z + x * y) % 0x1_0000_0000,
{
    assert(x * y <= 0xFFFF_FFFF * 0xFFFF_FFFF) by (nonlinear_arith)
        requires
            0 <= x <= 0xFFFF_FFFF,
            0 <= y <= 0xFFFF_FFFF,
    ;
    let product: u64 = x as u64 * y as u64;
    let low: u64 = product % 0x1_0000_0000;
    let sum: u64 = low + z as u64;
    (sum % 0x1_0000_0000) as u32
}

/// `low + x * 2^n`, modulo `2^32`.
fn wrapped_scaled_sum(low: u32, x: u32, n: u32) -> (r: u32)
    requires
        n < 32,
    ensures
        r == (low + (x as nat * pow2(n as nat)) % 0x1_0000_0000) % 0x1_0000_0000,
{
    proof {
        lemma2_to64();
        lemma_pow2_strictly_increases(n as nat, 32);
        lemma_pow2_pos(n as nat);
        lemma_u64_shl_is_mul(1, n as u64);
        lemma2_to64_rest();
    }
    let factor: u64 = 1u64 << (n as u64);
    assert(x * factor <= 0xFFFF_FFFF * 0xFFFF_FFFF) by (nonlinear_arith)
        requires
            0 <= x <= 0xFFFF_FFFF,
            0 <= factor <= 0xFFFF_FFFF,
    ;
    let product: u64 = x as u64 * factor;
    ((low as u64 + product % 0x1_0000_0000) % 0x1_0000_0000) as u32
}

// ---------------------------------------------------------------------
// Encoder
// ---------------------------------------------------------------------

/// Streaming residual encoder, the mirror of [`ResidualDecoder`].
#[derive(Debug, Clone)]
pub struct ResidualEncoder {
    pub rc: RangeEncoder,
    pub counts: &'static [u32; 65],
    pub new_path: bool,
    pub wide_k_split: bool,
    pub state: RunningState,
}

impl View for ResidualEncoder {
    type V = ResidualEncoderModel;

    open spec fn view(&self) -> ResidualEncoderModel {
        ResidualEncoderModel {
            path: Path {
                counts: self.counts@,
                new_path: self.new_path,
                wide_k_split: self.wide_k_split,
            },
            rc: self.rc@,
            state: self.state,
        }
    }
}

impl ResidualEncoder {
    /// The table is a frequency model, `k` is on the ladder and the
    /// window of the coder fits in 31 bits.
    pub open spec fn wf(&self) -> bool {
        &&& is_model(self.counts@)
        &&& self.state.wf()
        &&& self.rc.wf()
    }

    /// Fresh encoder for `file_version`; the decoder has to start from
    /// the same `init`.
    pub fn new(file_version: u16, init: EntropyInit) -> (r: Self)
        ensures
            r.wf(),
            r@ == (ResidualEncoderModel {
                path: path_of(file_version),
                rc: fresh_encoder(),
                state: running_start(init),
            }),
    {
        proof {
            law_tables_agree(file_version);
        }
        ResidualEncoder {
            rc: RangeEncoder::new(),
            counts: counts_for_version(file_version),
            new_path: file_version >= FREQ_MODEL_VERSION_SPLIT,
            wide_k_split: file_version >= WIDE_K_SPLIT_VERSION,
            state: RunningState::new(init),
        }
    }

    /// Mirror of [`ResidualDecoder::reset_state`].
    pub fn reset_state(&mut self, init: EntropyInit)
        requires
            old(self).wf(),
        ensures
            final(self).wf(),
            final(self)@ == (ResidualEncoderModel { state: running_start(init), ..old(self)@ }),
    {
        self.state = RunningState::new(init);
    }

    /// Current running state.
    pub fn running_state(&self) -> (r: EntropyInit)
        ensures
            r == (EntropyInit { k: self@.state.k, ksum: self@.state.ksum }),
    {
        EntropyInit { k: self.state.k, ksum: self.state.ksum }
    }

    /// Writes an overflow symbol.
    fn encode_symbol(&mut self, sym: u32)
        requires
            old(self).wf(),
            sym < 64,
        ensures
            final(self).wf(),
            final(self)@ == (ResidualEncoderModel {
                rc: coded_symbol(old(self).counts@, sym as nat).write(old(self).rc@),
                ..old(self)@
            }),
    {
        assert(has_width(self.counts@, sym as int));
        match symbol_interval(self.counts, sym as usize) {
            Some((low, width)) => {
                self.rc.encode_interval(low, width, RANGE_OVERFLOW_SHIFT);
            },
            None => {},
        }
    }

    /// Encodes one folded magnitude.
    pub fn encode_value(&mut self, value: u32) -> (r: Result<()>)
        requires
            old(self).wf(),
        ensures
            final(self).wf(),
            (final(self)@, r) == old(self)@.value(value),
    {
        if self.new_path {
            self.encode_value_ge3990(value);
            Ok(())
        } else {
            self.encode_value_lt3990(value)
        }
    }

    /// Encodes one signed residual.
    pub fn encode_residual(&mut self, residual: i32) -> (r: Result<()>)
        requires
            old(self).wf(),
        ensures
            final(self).wf(),
            (final(self)@, r) == old(self)@.residual(residual),
    {
        self.encode_value(fold_residual(residual))
    }

    /// Writes the overflow `n` of the newer path.
    fn encode_overflow(&mut self, n: u32)
        requires
            old(self).wf(),
        ensures
            final(self).wf(),
            final(self)@ == (ResidualEncoderModel {
                rc: write_all(coded_overflow(old(self).counts@, n as nat), old(self).rc@),
                ..old(self)@
            }),
    {
        proof {
            lemma2_to64();
            let c = self.counts@;
            lemma_write_one(coded_symbol(c, n as nat), self.rc@);
            lemma_write_three(
                coded_symbol(c, 63),
                CodedValue::Bits { v: n as nat / 0x1_0000, shift: 16 },
                CodedValue::Bits { v: n as nat % 0x1_0000, shift: 16 },
                self.rc@,
            );
        }
        if n >= ESCAPE_SYMBOL {
            self.encode_symbol(ESCAPE_SYMBOL);
            self.rc.encode_bits(n / 0x1_0000, 16);
            self.rc.encode_bits(n % 0x1_0000, 16);
        } else {
            self.encode_symbol(n);
        }
    }

    /// Writes a base below `pivot`.
    fn encode_pivot_base(&mut self, pivot: u32, base: u32)
        requires
            old(self).wf(),
            base < pivot,
        ensures
            final(self).wf(),
            final(self)@ == (ResidualEncoderModel {
                rc: write_all(coded_base(pivot as nat, base as nat), old(self).rc@),
                ..old(self)@
            }),
    {
        if pivot >= 0x1_0000 {
            let (radix_a, factor) = pivot_split(pivot);
            proof {
                lemma_split_factor(pivot as nat);
                lemma_base_digits(base as nat, pivot as nat, factor as nat);
                lemma_write_two(
                    CodedValue::Base { v: base as nat / factor as nat, divisor: radix_a as nat },
                    CodedValue::Base { v: base as nat % factor as nat, divisor: factor as nat },
                    self.rc@,
                );
            }
            self.rc.encode_base(base / factor, radix_a);
            self.rc.encode_base(base % factor, factor);
        } else {
            proof {
                lemma_write_one(
                    CodedValue::Base { v: base as nat, divisor: pivot as nat },
                    self.rc@,
                );
            }
            self.rc.encode_base(base, pivot);
        }
    }

    /// Newer path.
    fn encode_value_ge3990(&mut self, value: u32)
        requires
            old(self).wf(),
            old(self).new_path,
        ensures
            final(self).wf(),
            final(self)@ == old(self)@.value(value).0,
            old(self)@.value(value).1 is Ok,
    {
        let pivot: u32 = ksum_pivot(self.state.ksum as u64) as u32;
        proof {
            lemma_write_concat(
                coded_overflow(self.counts@, value as nat / pivot as nat),
                coded_base(pivot as nat, value as nat % pivot as nat),
                self.rc@,
            );
        }
        self.encode_overflow(value / pivot);
        self.encode_pivot_base(pivot, value % pivot);
        self.state.update(value, false);
    }

    /// Older path.
    fn encode_value_lt3990(&mut self, value: u32) -> (r: Result<()>)
        requires
            old(self).wf(),
            !old(self).new_path,
        ensures
            final(self).wf(),
            (final(self)@, r) == old(self)@.value(value),
    {
        let temp_k: u32 = self.state.temp_k();
        proof {
            lemma2_to64();
            lemma2_to64_rest();
            lemma_u32_shr_is_div(value, temp_k);
            lemma_pow2_pos(temp_k as nat);
            lemma_pow2_strictly_increases(temp_k as nat, 32);
            lemma_u32_shl_is_mul(1, temp_k);
        }
        let overflow: u32 = value >> temp_k;
        if overflow >= ESCAPE_SYMBOL {
            let esc_k: u32 = bit_length_of(value);
            if esc_k > MAX_TEMP_K {
                return Err(Error::CorruptStream("value too wide for the old-path escape"));
            }
            proof {
                lemma_bit_length(value as nat, 32);
                let lead = seq![
                    coded_symbol(self.counts@, 63),
                    CodedValue::Bits { v: esc_k as nat, shift: 5 },
                ];
                lemma_write_two(lead[0], lead[1], self.rc@);
                lemma_write_concat(
                    lead,
                    coded_low_bits(self.wide_k_split, value as nat, esc_k as nat),
                    self.rc@,
                );
            }
            self.encode_symbol(ESCAPE_SYMBOL);
            self.rc.encode_bits(esc_k, 5);
            self.encode_low_bits(value, esc_k);
        } else {
            let low: u32 = value % (1u32 << temp_k);
            proof {
                vstd::arithmetic::div_mod::lemma_mod_bound(
                    value as int,
                    pow2(temp_k as nat) as int,
                );
                lemma_write_one(coded_symbol(self.counts@, overflow as nat), self.rc@);
                lemma_write_concat(
                    seq![coded_symbol(self.counts@, overflow as nat)],
                    coded_low_bits(self.wide_k_split, low as nat, temp_k as nat),
                    self.rc@,
                );
            }
            self.encode_symbol(overflow);
            self.encode_low_bits(low, temp_k);
        }
        self.state.update(value, true);
        Ok(())
    }

    /// Writes a low part of `n` bits.
    fn encode_low_bits(&mut self, low: u32, n: u32)
        requires
            old(self).wf(),
            n <= 31,
            low < pow2(n as nat),
        ensures
            final(self).wf(),
            final(self)@ == (ResidualEncoderModel {
                rc: write_all(
                    coded_low_bits(old(self).wide_k_split, low as nat, n as nat),
                    old(self).rc@,
                ),
                ..old(self)@
            }),
    {
        if n <= 16 || !self.wide_k_split {
            proof {
                lemma_write_one(CodedValue::Bits { v: low as nat, shift: n as nat }, self.rc@);
            }
            self.rc.encode_bits(low, n);
        } else {
            proof {
                lemma2_to64();
                lemma_low_bits_digits(low as nat, n as nat);
                lemma_write_two(
                    CodedValue::Bits { v: low as nat % 0x1_0000, shift: 16 },
                    CodedValue::Bits { v: low as nat / 0x1_0000, shift: (n - 16) as nat },
                    self.rc@,
                );
            }
            self.rc.encode_bits(low % 0x1_0000, 16);
            self.rc.encode_bits(low / 0x1_0000, n - 16);
        }
    }

    /// Flushes the coder and returns the payload.
    pub fn finish(self) -> (bytes: Vec<u8>)
        requires
            self.wf(),
        ensures
            bytes@ == self@.rc.flushed(),
    {
        self.rc.finish()
    }
}

/// A base below `pivot` in the two radices of a factor.
pub proof fn lemma_base_digits(base: nat, pivot: nat, factor: nat)
    requires
        factor > 0,
        base < pivot,
    ensures
        base / factor < pivot / factor + 1,
        base % factor < factor,
        (base / factor) * factor + base % factor == base,
{
    vstd::arithmetic::div_mod::lemma_div_is_ordered(base as int, pivot as int, factor as int);
    vstd::arithmetic::div_mod::lemma_mod_bound(base as int, factor as int);
    vstd::arithmetic::div_mod::lemma_fundamental_div_mod(base as int, factor as int);
    assert((base / factor) * factor == factor * (base / factor)) by (nonlinear_arith);
}

/// The high piece of a wide low part.
pub proof fn lemma_low_bits_digits(low: nat, n: nat)
    requires
        n >= 16,
        low < pow2(n),
    ensures
        low / 0x1_0000 < pow2((n - 16) as nat),
{
    lemma2_to64();
    lemma_pow2_adds(16, (n - 16) as nat);
    assert(pow2(n) == 0x1_0000 * pow2((n - 16) as nat));
}

} // verus!
