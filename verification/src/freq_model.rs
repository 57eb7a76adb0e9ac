//! The symbol-frequency models of the residual coder.
//!
//! Each residual is split into a high part and a low part; the high part
//! is range-coded against a fixed cumulative-frequency table of 64
//! symbols with total `2^16`. There are two tables, one for files before
//! version 3990 and one from there on, each with its table of symbol
//! widths.

use vstd::arithmetic::power2::{lemma2_to64, pow2};
use vstd::prelude::*;
use vstd::string::*;

verus! {

/// Number of symbols in the residual frequency model.
pub const MODEL_ELEMENTS: usize = 64;

/// Total of the frequencies.
pub const RANGE_TOTAL_WIDTH: u32 = 65536;

/// `RANGE_TOTAL_WIDTH` is `2^RANGE_OVERFLOW_SHIFT`.
pub const RANGE_OVERFLOW_SHIFT: u32 = 16;

/// First file version that uses the newer model.
pub const FREQ_MODEL_VERSION_SPLIT: u16 = 3990;

/// Cumulative frequencies for files before version 3990.
pub const COUNTS_LE3980: [u32; 65] = [
    0, 14824, 28224, 39348, 47855, 53994, 58171, 60926, 62682, 63786, 64463,
    64878, 65126, 65276, 65365, 65419, 65450, 65469, 65480, 65487, 65491,
    65493, 65494, 65495, 65496, 65497, 65498, 65499, 65500, 65501, 65502,
    65503, 65504, 65505, 65506, 65507, 65508, 65509, 65510, 65511, 65512,
    65513, 65514, 65515, 65516, 65517, 65518, 65519, 65520, 65521, 65522,
    65523, 65524, 65525, 65526, 65527, 65528, 65529, 65530, 65531, 65532,
    65533, 65534, 65535, 65536,
];

/// Cumulative frequencies for files from version 3990 on.
pub const COUNTS_GE3990: [u32; 65] = [
    0, 19578, 36160, 48417, 56323, 60899, 63265, 64435, 64971, 65232, 65351,
    65416, 65447, 65466, 65476, 65482, 65485, 65488, 65490, 65491, 65492,
    65493, 65494, 65495, 65496, 65497, 65498, 65499, 65500, 65501, 65502,
    65503, 65504, 65505, 65506, 65507, 65508, 65509, 65510, 65511, 65512,
    65513, 65514, 65515, 65516, 65517, 65518, 65519, 65520, 65521, 65522,
    65523, 65524, 65525, 65526, 65527, 65528, 65529, 65530, 65531, 65532,
    65533, 65534, 65535, 65536,
];

/// Symbol widths for files before version 3990.
pub const FREQS_LE3980: [u32; 64] = [
    14824, 13400, 11124, 8507, 6139, 4177, 2755, 1756, 1104, 677, 415, 248,
    150, 89, 54, 31, 19, 11, 7, 4, 2, 1, 1, 1, 1, 1, 1, 1, 1, 1, 1, 1, 1, 1,
    1, 1, 1, 1, 1, 1, 1, 1, 1, 1, 1, 1, 1, 1, 1, 1, 1, 1, 1, 1, 1, 1, 1, 1,
    1, 1, 1, 1, 1, 1,
];

/// Symbol widths for files from version 3990 on.
pub const FREQS_GE3990: [u32; 64] = [
    19578, 16582, 12257, 7906, 4576, 2366, 1170, 536, 261, 119, 65, 31, 19,
    10, 6, 3, 3, 2, 1, 1, 1, 1, 1, 1, 1, 1, 1, 1, 1, 1, 1, 1, 1, 1, 1, 1, 1,
    1, 1, 1, 1, 1, 1, 1, 1, 1, 1, 1, 1, 1, 1, 1, 1, 1, 1, 1, 1, 1, 1, 1, 1,
    1, 1, 1,
];

/// `POWERS_OF_TWO_MINUS_ONE[n]` is `2^n - 1`.
pub const POWERS_OF_TWO_MINUS_ONE: [u32; 33] = [
    0, 1, 3, 7, 15, 31, 63, 127, 255, 511, 1023, 2047, 4095, 8191, 16383,
    32767, 65535, 131071, 262143, 524287, 1048575, 2097151, 4194303,
    8388607, 16777215, 33554431, 67108863, 134217727, 268435455, 536870911,
    1073741823, 2147483647, 4294967295,
];

/// The cumulative table that `file_version` selects.
pub open spec fn counts_of(file_version: u16) -> Seq<u32> {
    if file_version >= FREQ_MODEL_VERSION_SPLIT {
        COUNTS_GE3990@
    } else {
        COUNTS_LE3980@
    }
}

/// The width table that `file_version` selects.
pub open spec fn freqs_of(file_version: u16) -> Seq<u32> {
    if file_version >= FREQ_MODEL_VERSION_SPLIT {
        FREQS_GE3990@
    } else {
        FREQS_LE3980@
    }
}

/// Symbol `s` has a positive width.
pub open spec fn has_width(counts: Seq<u32>, s: int) -> bool {
    counts[s] < counts[s + 1]
}

/// A cumulative table: it starts at zero, ends at the total, and every
/// symbol has a positive width.
pub open spec fn is_model(counts: Seq<u32>) -> bool {
    &&& counts.len() == 65
    &&& counts[0] == 0
    &&& counts[64] == RANGE_TOTAL_WIDTH
    &&& forall|s: int| 0 <= s < 64 ==> #[trigger] has_width(counts, s)
}

/// Both tables are models, and the width tables hold their widths.
pub proof fn law_tables_agree(file_version: u16)
    ensures
        is_model(counts_of(file_version)),
        forall|s: int|
            0 <= s < 64 ==> #[trigger] freqs_of(file_version)[s] == counts_of(file_version)[s + 1]
                - counts_of(file_version)[s],
{
}

/// The entries of [`POWERS_OF_TWO_MINUS_ONE`] are the powers of two less
/// one, up to the largest 32-bit number.
pub proof fn law_powers_of_two(n: nat)
    requires
        n <= 32,
    ensures
        POWERS_OF_TWO_MINUS_ONE@[n as int] == pow2(n) - 1,
{
    lemma2_to64();
}

/// The cumulative table for `file_version`.
pub fn counts_for_version(file_version: u16) -> (r: &'static [u32; 65])
    ensures
        r@ == counts_of(file_version),
{
    if file_version >= FREQ_MODEL_VERSION_SPLIT {
        &COUNTS_GE3990
    } else {
        &COUNTS_LE3980
    }
}

/// The width table for `file_version`.
pub fn freqs_for_version(file_version: u16) -> (r: &'static [u32; 64])
    ensures
        r@ == freqs_of(file_version),
{
    if file_version >= FREQ_MODEL_VERSION_SPLIT {
        &FREQS_GE3990
    } else {
        &FREQS_LE3980
    }
}

/// The width of `symbol`, or `None` when the model has no such symbol.
pub fn symbol_width(freqs: &[u32; 64], symbol: usize) -> (r: Option<u32>)
    ensures
        r == (if symbol < 64 {
            Some(freqs@[symbol as int])
        } else {
            None
        }),
{
    if symbol >= MODEL_ELEMENTS {
        return None;
    }
    Some(freqs[symbol])
}

/// The start and width of `symbol` in a cumulative table, or `None` when
/// the model has no such symbol.
pub fn symbol_interval(counts: &[u32; 65], symbol: usize) -> (r: Option<(u32, u32)>)
    requires
        symbol < 64 ==> counts@[symbol as int] <= counts@[symbol as int + 1],
    ensures
        r == (if symbol < 64 {
            Some(
                (
                    counts@[symbol as int],
                    (counts@[symbol as int + 1] - counts@[symbol as int]) as u32,
                ),
            )
        } else {
            None
        }),
{
    if symbol >= MODEL_ELEMENTS {
        return None;
    }
    let low = counts[symbol];
    let width = counts[symbol + 1] - low;
    Some((low, width))
}

/// `s` is the symbol whose interval holds `cum_freq`; a value past the
/// total belongs to the last symbol.
pub open spec fn is_symbol_of(counts: Seq<u32>, cum_freq: u32, s: int) -> bool {
    &&& 0 <= s < 64
    &&& s == 0 || counts[s] <= cum_freq
    &&& s == 63 || cum_freq < counts[s + 1]
}

/// The symbol whose interval holds `cum_freq`; a value past the total
/// belongs to the last symbol.
pub fn symbol_for_cum_freq(counts: &[u32; 65], cum_freq: u32) -> (s: usize)
    ensures
        is_symbol_of(counts@, cum_freq, s as int),
        is_model(counts@) ==> forall|t: int|
            #[trigger] is_symbol_of(counts@, cum_freq, t) ==> t == s,
{
    let mut lo: usize = 0;
    let mut hi: usize = MODEL_ELEMENTS;
    while lo + 1 < hi
        invariant
            lo < hi <= 64,
            lo == 0 || counts@[lo as int] <= cum_freq,
            hi == 64 || cum_freq < counts@[hi as int],
        decreases hi - lo,
    {
        let mid: usize = (lo + hi) / 2;
        if counts[mid] <= cum_freq {
            lo = mid;
        } else {
            hi = mid;
        }
    }
    proof {
        if is_model(counts@) {
            assert forall|t: int| #[trigger] is_symbol_of(counts@, cum_freq, t) implies t == lo by {
                lemma_symbol_unique(counts@, cum_freq, t, lo as int);
            }
        }
    }
    lo
}

pub proof fn lemma_model_sorted(counts: Seq<u32>, a: int, b: int)
    requires
        is_model(counts),
        0 <= a <= b < 65,
    ensures
        counts[a] <= counts[b],
    decreases b - a,
{
    if a < b {
        lemma_model_sorted(counts, a, b - 1);
        assert(has_width(counts, b - 1));
    }
}

/// The intervals of a model do not overlap.
pub proof fn lemma_symbol_unique(counts: Seq<u32>, cum_freq: u32, s: int, t: int)
    requires
        is_model(counts),
        is_symbol_of(counts, cum_freq, s),
        is_symbol_of(counts, cum_freq, t),
    ensures
        s == t,
{
    if s < t {
        lemma_model_sorted(counts, s + 1, t);
    } else if t < s {
        lemma_model_sorted(counts, t + 1, s);
    }
}

/// Looking a value up finds the symbol whose interval it was taken from.
pub proof fn law_lookup_inverts_interval(counts: Seq<u32>, symbol: int, cum_freq: u32, found: int)
    requires
        is_model(counts),
        0 <= symbol < 64,
        counts[symbol] <= cum_freq < counts[symbol + 1],
        is_symbol_of(counts, cum_freq, found),
    ensures
        found == symbol,
{
    lemma_symbol_unique(counts, cum_freq, symbol, found);
}

// ---------------------------------------------------------------------
// Table text
// ---------------------------------------------------------------------

/// The index just past the next occurrence of `stop` at or after `i`.
pub open spec fn past_next(text: Seq<u8>, stop: u8, i: int) -> int
    decreases text.len() - i,
{
    if 0 <= i < text.len() {
        if text[i] == stop {
            i + 1
        } else {
            past_next(text, stop, i + 1)
        }
    } else {
        i + 1
    }
}

/// The end of the run of decimal digits that starts at `i`.
pub open spec fn digits_end(text: Seq<u8>, i: int) -> int
    decreases text.len() - i,
{
    if 0 <= i < text.len() && 48 <= text[i] <= 57 {
        digits_end(text, i + 1)
    } else {
        i
    }
}

/// The number that the digits in `text[i..j]` write.
pub open spec fn digits_value(text: Seq<u8>, i: int, j: int) -> nat
    decreases j - i,
{
    if i < j {
        digits_value(text, i, j - 1) * 10 + (text[j - 1] - 48) as nat
    } else {
        0
    }
}

/// The number at `i`, zero when no digit stands there.
pub open spec fn number_at(text: Seq<u8>, i: int) -> nat {
    digits_value(text, i, digits_end(text, i))
}

/// Steps past the next occurrence of `stop`; at most one past the end.
pub(crate) fn skip_past(text: &[u8], stop: u8, from: usize) -> (i: usize)
    requires
        from <= text@.len() < usize::MAX,
    ensures
        i == past_next(text@, stop, from as int),
        from < i <= text@.len() + 1,
{
    let mut i: usize = from;
    while i < text.len() && text[i] != stop
        invariant
            from <= i <= text@.len() < usize::MAX,
            past_next(text@, stop, i as int) == past_next(text@, stop, from as int),
        decreases text@.len() - i,
    {
        i = i + 1;
    }
    i + 1
}

/// The digits of a number only make it larger.
pub(crate) proof fn lemma_digits_monotone(text: Seq<u8>, i: int, j: int, k: int)
    requires
        i <= j <= k,
        forall|t: int| i <= t < k ==> 48 <= #[trigger] text[t] <= 57,
    ensures
        digits_value(text, i, j) <= digits_value(text, i, k),
    decreases k - j,
{
    if j < k {
        lemma_digits_monotone(text, i, j, k - 1);
    }
}

/// A digit run holds digits only.
pub(crate) proof fn lemma_digits_end(text: Seq<u8>, i: int)
    requires
        0 <= i <= text.len(),
    ensures
        i <= digits_end(text, i) <= text.len(),
        forall|t: int| i <= t < digits_end(text, i) ==> 48 <= #[trigger] text[t] <= 57,
    decreases text.len() - i,
{
    if i < text.len() && 48 <= text[i] <= 57 {
        lemma_digits_end(text, i + 1);
    }
}

/// Reads the number at `from`; the second result is where it ends.
pub(crate) fn read_number(text: &[u8], from: usize) -> (r: (u32, usize))
    requires
        from <= text@.len(),
        number_at(text@, from as int) <= u32::MAX,
    ensures
        r.0 == number_at(text@, from as int),
        r.1 == digits_end(text@, from as int),
        from <= r.1 <= text@.len(),
{
    let mut i: usize = from;
    let mut v: u32 = 0;
    proof {
        lemma_digits_end(text@, from as int);
    }
    while i < text.len() && text[i] >= 48 && text[i] <= 57
        invariant
            from <= i <= text@.len(),
            v == digits_value(text@, from as int, i as int),
            digits_end(text@, i as int) == digits_end(text@, from as int),
            i <= digits_end(text@, from as int),
            forall|t: int|
                from <= t < digits_end(text@, from as int) ==> 48 <= #[trigger] text@[t] <= 57,
            number_at(text@, from as int) <= u32::MAX,
        decreases text@.len() - i,
    {
        proof {
            lemma_digits_end(text@, i as int + 1);
            lemma_digits_monotone(
                text@,
                from as int,
                i as int + 1,
                digits_end(text@, from as int),
            );
        }
        v = v * 10 + (text[i] - 48) as u32;
        i = i + 1;
    }
    (v, i)
}

/// The start of the `row`-th line after the header.
pub open spec fn row_start(text: Seq<u8>, row: nat) -> int
    decreases row,
{
    if row == 0 {
        past_next(text, 10, 0)
    } else {
        past_next(text, 10, past_next(text, 44, row_start(text, (row - 1) as nat)))
    }
}

proof fn lemma_past_next_grows(text: Seq<u8>, stop: u8, i: int)
    ensures
        i < past_next(text, stop, i),
    decreases text.len() - i,
{
    if 0 <= i < text.len() && text[i] != stop {
        lemma_past_next_grows(text, stop, i + 1);
    }
}

proof fn lemma_row_start_grows(text: Seq<u8>, a: nat, b: nat)
    requires
        a <= b,
    ensures
        0 < row_start(text, a) <= row_start(text, b),
    decreases b,
{
    if b == 0 {
        lemma_past_next_grows(text, 10, 0);
    } else {
        let start = row_start(text, (b - 1) as nat);
        lemma_past_next_grows(text, 44, start);
        lemma_past_next_grows(text, 10, past_next(text, 44, start));
        if a < b {
            lemma_row_start_grows(text, a, (b - 1) as nat);
        } else {
            lemma_row_start_grows(text, (b - 1) as nat, (b - 1) as nat);
        }
    }
}

/// The number in the second column of the `row`-th line after the
/// header, zero where the text has ended.
pub open spec fn column_value(text: Seq<u8>, row: nat) -> nat {
    if row_start(text, row) < text.len() {
        number_at(text, past_next(text, 44, row_start(text, row)))
    } else {
        0
    }
}

/// Reads the second column of a two-column table with a header line:
/// `n` numbers, zeros where the table is shorter.
pub fn parse_u32_col(csv: &str, n: usize) -> (r: Vec<u32>)
    requires
        csv.spec_bytes().len() < usize::MAX,
        forall|row: nat| row < n ==> #[trigger] column_value(csv.spec_bytes(), row) <= u32::MAX,
    ensures
        r@.len() == n,
        forall|row: int|
            0 <= row < n ==> #[trigger] r@[row] == column_value(csv.spec_bytes(), row as nat),
{
    let text = csv.as_bytes();
    let mut out: Vec<u32> = Vec::new();
    let mut i: usize = skip_past(text, 10, 0);
    while i < text.len() && out.len() < n
        invariant
            text@ == csv.spec_bytes(),
            text@.len() < usize::MAX,
            out@.len() <= n,
            i == row_start(text@, out@.len()) || (i >= text@.len() && row_start(
                text@,
                out@.len(),
            ) >= text@.len()),
            forall|row: nat| row < n ==> #[trigger] column_value(csv.spec_bytes(), row) <= u32::MAX,
            forall|row: int|
                0 <= row < out@.len() ==> #[trigger] out@[row] == column_value(text@, row as nat),
        decreases n - out@.len(),
    {
        let ghost row = out@.len();
        let column = skip_past(text, 44, i);
        proof {
            assert(column_value(csv.spec_bytes(), row) <= u32::MAX);
            lemma_past_next_grows(text@, 10, column as int);
            assert(row_start(text@, row + 1) == past_next(text@, 10, column as int));
        }
        if column > text.len() {
            out.push(0);
            i = column;
        } else {
            let (v, end) = read_number(text, column);
            out.push(v);
            proof {
                lemma_skip_digits(text@, 10, column as int);
            }
            i = skip_past(text, 10, end);
        }
    }
    while out.len() < n
        invariant
            text@ == csv.spec_bytes(),
            out@.len() <= n,
            out@.len() < n ==> row_start(text@, out@.len()) >= text@.len(),
            forall|row: int|
                0 <= row < out@.len() ==> #[trigger] out@[row] == column_value(text@, row as nat),
        decreases n - out@.len(),
    {
        proof {
            lemma_row_start_grows(text@, out@.len(), out@.len() + 1);
        }
        out.push(0);
    }
    out
}

/// Digits are no line ends.
proof fn lemma_skip_digits(text: Seq<u8>, stop: u8, i: int)
    requires
        0 <= i <= text.len(),
        !(48 <= stop <= 57),
    ensures
        past_next(text, stop, i) == past_next(text, stop, digits_end(text, i)),
    decreases text.len() - i,
{
    if i < text.len() && 48 <= text[i] <= 57 {
        lemma_skip_digits(text, stop, i + 1);
    }
}

/// Smaller symbols are likelier: widths never grow with the symbol, are
/// never zero, and are one from symbol 21 on. The first one is 19578 from
/// version 3990 on and 14824 before.
pub proof fn law_widths_never_grow(file_version: u16, s: int)
    requires
        0 <= s < 63,
    ensures
        freqs_of(file_version)[s] >= freqs_of(file_version)[s + 1] >= 1,
        s >= 20 ==> freqs_of(file_version)[s + 1] == 1,
        freqs_of(file_version)[0] == if file_version >= 3990 {
            19578int
        } else {
            14824
        },
{
}

} // verus!
