//! Scalar constants of the range coder and the predictors, and the two
//! closed forms that they fix.

use vstd::prelude::*;
use vstd::string::*;
use vstd::utf8::is_ascii_chars_encode_utf8;

use crate::freq_model::{digits_end, digits_value, number_at, past_next, read_number, skip_past};

verus! {

/// The scalar table: a name, a value and its role per line.
pub const SCALARS_CSV: &'static str =
    "name,value,role\nmodel_elements,64,symbols\nrange_overflow_total_width,65536,total\nrange_overflow_shift,16,shift\nksum_pivot_divisor,32,\"pivot = max(KSum / this, 1)\"\nstage1_filter_weight,31,\"order-1, x*weight>>shift\"\nstage1_filter_shift,5,shift\npredictor_history_seed,317,order-1 seed\n";

/// Number of symbols in the frequency model.
pub const MODEL_ELEMENTS: u32 = 64;

/// Total of the cumulative frequencies.
pub const RANGE_OVERFLOW_TOTAL_WIDTH: u32 = 65536;

/// The total width is `2^RANGE_OVERFLOW_SHIFT`.
pub const RANGE_OVERFLOW_SHIFT: u32 = 16;

/// Divisor that turns the running magnitude sum into a pivot.
pub const KSUM_PIVOT_DIVISOR: u32 = 32;

/// Weight of the order-1 integer prediction.
pub const STAGE1_FILTER_WEIGHT: i32 = 31;

/// Right shift that pairs [`STAGE1_FILTER_WEIGHT`].
pub const STAGE1_FILTER_SHIFT: u32 = 5;

/// Initial adaptation coefficient of the order-1 history slot.
pub const PREDICTOR_HISTORY_SEED: i32 = 317;

/// The line at `i` starts with `key` and a comma.
pub open spec fn row_is_named(text: Seq<u8>, key: Seq<u8>, i: int) -> bool {
    &&& i + key.len() < text.len()
    &&& text.subrange(i, i + key.len()) == key
    &&& text[i + key.len()] == 44
}

/// The value in the first line from `i` on that is named `key`;
/// `u32::MAX` when there is none.
pub open spec fn named_value(text: Seq<u8>, key: Seq<u8>, i: int) -> nat
    decreases
            if i < text.len() {
                text.len() - i
            } else {
                0
            },
{
    if i < 0 || i >= text.len() {
        u32::MAX as nat
    } else if row_is_named(text, key, i) {
        number_at(text, i + key.len() + 1)
    } else if past_next(text, 10, i) > i {
        named_value(text, key, past_next(text, 10, i))
    } else {
        u32::MAX as nat
    }
}

fn row_matches(text: &[u8], key: &[u8], at: usize) -> (r: bool)
    requires
        at < text@.len(),
    ensures
        r == row_is_named(text@, key@, at as int),
{
    if key.len() >= text.len() - at {
        return false;
    }
    let mut k: usize = 0;
    while k < key.len()
        invariant
            k <= key@.len(),
            at + key@.len() < text.len(),
            forall|t: int| 0 <= t < k ==> #[trigger] text@[at + t] == key@[t],
        decreases key@.len() - k,
    {
        if text[at + k] != key[k] {
            proof {
                assert(text@.subrange(at as int, at + key@.len())[k as int] == text@[at + k]);
            }
            return false;
        }
        k = k + 1;
    }
    proof {
        assert forall|t: int| 0 <= t < key@.len() implies text@.subrange(
            at as int,
            at + key@.len(),
        )[t] == key@[t] by {
            assert(text@[at + t] == key@[t]);
        }
        assert(text@.subrange(at as int, at + key@.len()) =~= key@);
    }
    text[at + key.len()] == 44
}

/// Looks `name` up in a table of `name,value,role` lines under a header
/// line; `u32::MAX` when no line has that name.
pub fn parse_named_value(csv: &str, name: &str) -> (v: u32)
    requires
        csv.spec_bytes().len() < usize::MAX,
        named_value(csv.spec_bytes(), name.spec_bytes(), past_next(csv.spec_bytes(), 10, 0))
            <= u32::MAX,
    ensures
        v == named_value(
            csv.spec_bytes(),
            name.spec_bytes(),
            past_next(csv.spec_bytes(), 10, 0),
        ),
{
    let text = csv.as_bytes();
    let key = name.as_bytes();
    let mut i: usize = skip_past(text, 10, 0);
    let ghost answer = named_value(text@, key@, i as int);
    while i < text.len()
        invariant
            text@.len() < usize::MAX,
            named_value(text@, key@, i as int) == answer,
            answer <= u32::MAX,
            answer == named_value(
                csv.spec_bytes(),
                name.spec_bytes(),
                past_next(csv.spec_bytes(), 10, 0),
            ),
        decreases
            if i < text@.len() {
                text@.len() - i
            } else {
                0
            },
    {
        if row_matches(text, key, i) {
            return read_number(text, i + key.len() + 1).0;
        }
        i = skip_past(text, 10, i);
    }
    u32::MAX
}

// ---------------------------------------------------------------------
// The table and its text
// ---------------------------------------------------------------------

/// The bytes of the table text.
spec fn csv_bytes() -> Seq<u8> {
    SCALARS_CSV.spec_bytes()
}

/// The first `n` bytes of `key` stand at `i`.
spec fn stands_at(text: Seq<u8>, key: Seq<u8>, i: int, n: nat) -> bool
    decreases n,
{
    n == 0 || (text[i + n - 1] == key[n - 1] && stands_at(text, key, i, (n - 1) as nat))
}

proof fn lemma_stands_at(text: Seq<u8>, key: Seq<u8>, i: int, n: nat)
    requires
        0 <= i,
        n <= key.len(),
        i + key.len() < text.len(),
        stands_at(text, key, i, n),
    ensures
        text.subrange(i, i + n) == key.take(n as int),
    decreases n,
{
    if n > 0 {
        let m = (n - 1) as nat;
        lemma_stands_at(text, key, i, m);
        assert(text.subrange(i, i + n) =~= text.subrange(i, i + m).push(text[i + m]));
        assert(key.take(n as int) =~= key.take(m as int).push(key[m as int]));
    } else {
        assert(text.subrange(i, i + n) =~= key.take(n as int));
    }
}

/// The byte of a decimal digit.
spec fn is_digit(b: u8) -> bool {
    48 <= b <= 57
}

/// The number `v` stands at `i` in `n` digits, at most five.
spec fn digits_at(text: Seq<u8>, i: int, n: int, v: nat) -> bool {
    &&& 1 <= n <= 5
    &&& is_digit(text[i])
    &&& n >= 2 ==> is_digit(text[i + 1])
    &&& n >= 3 ==> is_digit(text[i + 2])
    &&& n >= 4 ==> is_digit(text[i + 3])
    &&& n >= 5 ==> is_digit(text[i + 4])
    &&& !is_digit(text[i + n])
    &&& n == 1 ==> v == text[i] - 48
    &&& n == 2 ==> v == 10 * (text[i] - 48) + (text[i + 1] - 48)
    &&& n == 3 ==> v == 100 * (text[i] - 48) + 10 * (text[i + 1] - 48) + (text[i + 2] - 48)
    &&& n == 4 ==> v == 1000 * (text[i] - 48) + 100 * (text[i + 1] - 48) + 10 * (text[i + 2] - 48)
        + (text[i + 3] - 48)
    &&& n == 5 ==> v == 10000 * (text[i] - 48) + 1000 * (text[i + 1] - 48) + 100 * (text[i + 2]
        - 48) + 10 * (text[i + 3] - 48) + (text[i + 4] - 48)
}

/// The line at `i` has the name `key` and a value of `n` digits, `v`.
#[verifier::opaque]
spec fn entry_at(text: Seq<u8>, key: Seq<u8>, i: int, n: int, v: nat) -> bool {
    let at = i + key.len() + 1;
    &&& 0 <= i
    &&& at + n < text.len()
    &&& stands_at(text, key, i, key.len())
    &&& text[at - 1] == 44
    &&& digits_at(text, at, n, v)
}

/// A line with another name is passed over; the names differ at `d`.
proof fn lemma_other_entry(
    text: Seq<u8>,
    name: Seq<u8>,
    i: int,
    n: int,
    v: nat,
    next: int,
    key: Seq<u8>,
    d: int,
)
    requires
        entry_at(text, name, i, n, v),
        0 <= d < key.len(),
        d < name.len(),
        name[d] != key[d],
        past_next(text, 10, i) == next,
        i < next,
    ensures
        named_value(text, key, i) == named_value(text, key, next),
{
    reveal(entry_at);
    lemma_stands_at(text, name, i, name.len());
    assert(text.subrange(i, i + name.len())[d] == name.take(name.len() as int)[d]);
    if row_is_named(text, key, i) {
        assert(text.subrange(i, i + key.len())[d] == key[d]);
    }
}

/// The line with the name.
proof fn lemma_entry(text: Seq<u8>, key: Seq<u8>, i: int, n: int, v: nat)
    requires
        entry_at(text, key, i, n, v),
    ensures
        named_value(text, key, i) == v,
{
    reveal(entry_at);
    lemma_stands_at(text, key, i, key.len());
    assert(key.take(key.len() as int) =~= key);
    lemma_digits_at(text, i + key.len() + 1, n, v);
}

/// A number in at most five digits is read as such.
proof fn lemma_digits_at(text: Seq<u8>, i: int, n: int, v: nat)
    requires
        0 <= i,
        i + n < text.len(),
        digits_at(text, i, n, v),
    ensures
        number_at(text, i) == v,
{
    reveal_with_fuel(digits_end, 7);
    reveal_with_fuel(digits_value, 7);
}

/// Eight bytes without a line end.
proof fn lemma_skip_eight(text: Seq<u8>, i: int)
    requires
        0 <= i,
        i + 8 <= text.len(),
        text[i] != 10,
        text[i + 1] != 10,
        text[i + 2] != 10,
        text[i + 3] != 10,
        text[i + 4] != 10,
        text[i + 5] != 10,
        text[i + 6] != 10,
        text[i + 7] != 10,
    ensures
        past_next(text, 10, i) == past_next(text, 10, i + 8),
{
    reveal_with_fuel(past_next, 9);
}

/// Where the lines of the table text start.
#[verifier::rlimit(40)]
proof fn lemma_csv_lines()
    ensures
        past_next(csv_bytes(), 10, 0) == 16,
        past_next(csv_bytes(), 10, 16) == 42,
        past_next(csv_bytes(), 10, 42) == 81,
        past_next(csv_bytes(), 10, 81) == 111,
        past_next(csv_bytes(), 10, 111) == 163,
        past_next(csv_bytes(), 10, 163) == 214,
        past_next(csv_bytes(), 10, 214) == 242,
        past_next(csv_bytes(), 10, 242) == 282,
{
    reveal_strlit(
        "name,value,role\nmodel_elements,64,symbols\nrange_overflow_total_width,65536,total\nrange_overflow_shift,16,shift\nksum_pivot_divisor,32,\"pivot = max(KSum / this, 1)\"\nstage1_filter_weight,31,\"order-1, x*weight>>shift\"\nstage1_filter_shift,5,shift\npredictor_history_seed,317,order-1 seed\n",
    );
    is_ascii_chars_encode_utf8(SCALARS_CSV@);
    let text = csv_bytes();
    lemma_skip_eight(text, 0);
    assert(past_next(text, 10, 8) == 16) by {
        reveal_with_fuel(past_next, 9);
    }
    lemma_skip_eight(text, 16);
    lemma_skip_eight(text, 24);
    lemma_skip_eight(text, 32);
    assert(past_next(text, 10, 40) == 42) by {
        reveal_with_fuel(past_next, 3);
    }
    lemma_skip_eight(text, 42);
    lemma_skip_eight(text, 50);
    lemma_skip_eight(text, 58);
    lemma_skip_eight(text, 66);
    assert(past_next(text, 10, 74) == 81) by {
        reveal_with_fuel(past_next, 8);
    }
    lemma_skip_eight(text, 81);
    lemma_skip_eight(text, 89);
    lemma_skip_eight(text, 97);
    assert(past_next(text, 10, 105) == 111) by {
        reveal_with_fuel(past_next, 7);
    }
    lemma_skip_eight(text, 111);
    lemma_skip_eight(text, 119);
    lemma_skip_eight(text, 127);
    lemma_skip_eight(text, 135);
    lemma_skip_eight(text, 143);
    lemma_skip_eight(text, 151);
    assert(past_next(text, 10, 159) == 163) by {
        reveal_with_fuel(past_next, 5);
    }
    lemma_skip_eight(text, 163);
    lemma_skip_eight(text, 171);
    lemma_skip_eight(text, 179);
    lemma_skip_eight(text, 187);
    lemma_skip_eight(text, 195);
    lemma_skip_eight(text, 203);
    assert(past_next(text, 10, 211) == 214) by {
        reveal_with_fuel(past_next, 4);
    }
    lemma_skip_eight(text, 214);
    lemma_skip_eight(text, 222);
    lemma_skip_eight(text, 230);
    assert(past_next(text, 10, 238) == 242) by {
        reveal_with_fuel(past_next, 5);
    }
    lemma_skip_eight(text, 242);
    lemma_skip_eight(text, 250);
    lemma_skip_eight(text, 258);
    lemma_skip_eight(text, 266);
    assert(past_next(text, 10, 274) == 282) by {
        reveal_with_fuel(past_next, 9);
    }
}

/// The first entries of the table text.
#[verifier::rlimit(40)]
proof fn lemma_csv_first_entries()
    ensures
        entry_at(csv_bytes(), "model_elements".spec_bytes(), 16, 2, 64),
        entry_at(csv_bytes(), "range_overflow_total_width".spec_bytes(), 42, 5, 65536),
        entry_at(csv_bytes(), "range_overflow_shift".spec_bytes(), 81, 2, 16),
{
    reveal_strlit(
        "name,value,role\nmodel_elements,64,symbols\nrange_overflow_total_width,65536,total\nrange_overflow_shift,16,shift\nksum_pivot_divisor,32,\"pivot = max(KSum / this, 1)\"\nstage1_filter_weight,31,\"order-1, x*weight>>shift\"\nstage1_filter_shift,5,shift\npredictor_history_seed,317,order-1 seed\n",
    );
    is_ascii_chars_encode_utf8(SCALARS_CSV@);
    let text = csv_bytes();
    assert(entry_at(text, "model_elements".spec_bytes(), 16, 2, 64)) by {
        reveal(entry_at);
        reveal_strlit("model_elements");
        is_ascii_chars_encode_utf8("model_elements"@);
        reveal_with_fuel(stands_at, 15);
    }
    assert(entry_at(text, "range_overflow_total_width".spec_bytes(), 42, 5, 65536)) by {
        reveal(entry_at);
        reveal_strlit("range_overflow_total_width");
        is_ascii_chars_encode_utf8("range_overflow_total_width"@);
        reveal_with_fuel(stands_at, 27);
    }
    assert(entry_at(text, "range_overflow_shift".spec_bytes(), 81, 2, 16)) by {
        reveal(entry_at);
        reveal_strlit("range_overflow_shift");
        is_ascii_chars_encode_utf8("range_overflow_shift"@);
        reveal_with_fuel(stands_at, 21);
    }
}

/// The other entries of the table text.
#[verifier::rlimit(40)]
proof fn lemma_csv_last_entries()
    ensures
        entry_at(csv_bytes(), "ksum_pivot_divisor".spec_bytes(), 111, 2, 32),
        entry_at(csv_bytes(), "stage1_filter_weight".spec_bytes(), 163, 2, 31),
        entry_at(csv_bytes(), "stage1_filter_shift".spec_bytes(), 214, 1, 5),
        entry_at(csv_bytes(), "predictor_history_seed".spec_bytes(), 242, 3, 317),
{
    reveal_strlit(
        "name,value,role\nmodel_elements,64,symbols\nrange_overflow_total_width,65536,total\nrange_overflow_shift,16,shift\nksum_pivot_divisor,32,\"pivot = max(KSum / this, 1)\"\nstage1_filter_weight,31,\"order-1, x*weight>>shift\"\nstage1_filter_shift,5,shift\npredictor_history_seed,317,order-1 seed\n",
    );
    is_ascii_chars_encode_utf8(SCALARS_CSV@);
    let text = csv_bytes();
    assert(entry_at(text, "ksum_pivot_divisor".spec_bytes(), 111, 2, 32)) by {
        reveal(entry_at);
        reveal_strlit("ksum_pivot_divisor");
        is_ascii_chars_encode_utf8("ksum_pivot_divisor"@);
        reveal_with_fuel(stands_at, 19);
    }
    assert(entry_at(text, "stage1_filter_weight".spec_bytes(), 163, 2, 31)) by {
        reveal(entry_at);
        reveal_strlit("stage1_filter_weight");
        is_ascii_chars_encode_utf8("stage1_filter_weight"@);
        reveal_with_fuel(stands_at, 21);
    }
    assert(entry_at(text, "stage1_filter_shift".spec_bytes(), 214, 1, 5)) by {
        reveal(entry_at);
        reveal_strlit("stage1_filter_shift");
        is_ascii_chars_encode_utf8("stage1_filter_shift"@);
        reveal_with_fuel(stands_at, 20);
    }
    assert(entry_at(text, "predictor_history_seed".spec_bytes(), 242, 3, 317)) by {
        reveal(entry_at);
        reveal_strlit("predictor_history_seed");
        is_ascii_chars_encode_utf8("predictor_history_seed"@);
        reveal_with_fuel(stands_at, 23);
    }
}

/// Every scalar is what [`parse_named_value`] finds in the table text
/// under its name.
pub proof fn law_scalars_are_their_text()
    ensures
        ({
            let text = SCALARS_CSV.spec_bytes();
            let from = past_next(text, 10, 0);
            &&& named_value(text, "model_elements".spec_bytes(), from) == MODEL_ELEMENTS
            &&& named_value(text, "range_overflow_total_width".spec_bytes(), from) == RANGE_OVERFLOW_TOTAL_WIDTH
            &&& named_value(text, "range_overflow_shift".spec_bytes(), from) == RANGE_OVERFLOW_SHIFT
            &&& named_value(text, "ksum_pivot_divisor".spec_bytes(), from) == KSUM_PIVOT_DIVISOR
            &&& named_value(text, "stage1_filter_weight".spec_bytes(), from) == STAGE1_FILTER_WEIGHT
            &&& named_value(text, "stage1_filter_shift".spec_bytes(), from) == STAGE1_FILTER_SHIFT
            &&& named_value(text, "predictor_history_seed".spec_bytes(), from) == PREDICTOR_HISTORY_SEED
        }),
{
    let text = csv_bytes();
    lemma_csv_lines();
    lemma_csv_first_entries();
    lemma_csv_last_entries();
    let k0 = "model_elements".spec_bytes();
    reveal_strlit("model_elements");
    is_ascii_chars_encode_utf8("model_elements"@);
    let k1 = "range_overflow_total_width".spec_bytes();
    reveal_strlit("range_overflow_total_width");
    is_ascii_chars_encode_utf8("range_overflow_total_width"@);
    let k2 = "range_overflow_shift".spec_bytes();
    reveal_strlit("range_overflow_shift");
    is_ascii_chars_encode_utf8("range_overflow_shift"@);
    let k3 = "ksum_pivot_divisor".spec_bytes();
    reveal_strlit("ksum_pivot_divisor");
    is_ascii_chars_encode_utf8("ksum_pivot_divisor"@);
    let k4 = "stage1_filter_weight".spec_bytes();
    reveal_strlit("stage1_filter_weight");
    is_ascii_chars_encode_utf8("stage1_filter_weight"@);
    let k5 = "stage1_filter_shift".spec_bytes();
    reveal_strlit("stage1_filter_shift");
    is_ascii_chars_encode_utf8("stage1_filter_shift"@);
    let k6 = "predictor_history_seed".spec_bytes();
    reveal_strlit("predictor_history_seed");
    is_ascii_chars_encode_utf8("predictor_history_seed"@);
    lemma_entry(text, k0, 16, 2, 64);
    lemma_other_entry(text, k0, 16, 2, 64, 42, k1, 0);
    lemma_entry(text, k1, 42, 5, 65536);
    lemma_other_entry(text, k0, 16, 2, 64, 42, k2, 0);
    lemma_other_entry(text, k1, 42, 5, 65536, 81, k2, 15);
    lemma_entry(text, k2, 81, 2, 16);
    lemma_other_entry(text, k0, 16, 2, 64, 42, k3, 0);
    lemma_other_entry(text, k1, 42, 5, 65536, 81, k3, 0);
    lemma_other_entry(text, k2, 81, 2, 16, 111, k3, 0);
    lemma_entry(text, k3, 111, 2, 32);
    lemma_other_entry(text, k0, 16, 2, 64, 42, k4, 0);
    lemma_other_entry(text, k1, 42, 5, 65536, 81, k4, 0);
    lemma_other_entry(text, k2, 81, 2, 16, 111, k4, 0);
    lemma_other_entry(text, k3, 111, 2, 32, 163, k4, 0);
    lemma_entry(text, k4, 163, 2, 31);
    lemma_other_entry(text, k0, 16, 2, 64, 42, k5, 0);
    lemma_other_entry(text, k1, 42, 5, 65536, 81, k5, 0);
    lemma_other_entry(text, k2, 81, 2, 16, 111, k5, 0);
    lemma_other_entry(text, k3, 111, 2, 32, 163, k5, 0);
    lemma_other_entry(text, k4, 163, 2, 31, 214, k5, 14);
    lemma_entry(text, k5, 214, 1, 5);
    lemma_other_entry(text, k0, 16, 2, 64, 42, k6, 0);
    lemma_other_entry(text, k1, 42, 5, 65536, 81, k6, 0);
    lemma_other_entry(text, k2, 81, 2, 16, 111, k6, 0);
    lemma_other_entry(text, k3, 111, 2, 32, 163, k6, 0);
    lemma_other_entry(text, k4, 163, 2, 31, 214, k6, 0);
    lemma_other_entry(text, k5, 214, 1, 5, 242, k6, 0);
    lemma_entry(text, k6, 242, 3, 317);
}

/// The order-1 integer prediction `x * 31 / 32`, rounded down.
pub fn stage1_predict(x: i32) -> (r: i32)
    ensures
        r == (x * STAGE1_FILTER_WEIGHT) / 32,
{
    let product: i64 = x as i64 * STAGE1_FILTER_WEIGHT as i64;
    assert(product == x * 31);
    if product >= 0 {
        (product as u64 / 32) as i32
    } else {
        let up: u64 = (-product) as u64 + 31;
        -((up / 32) as i32)
    }
}

/// The pivot that a running magnitude sum selects.
pub open spec fn pivot_of(ksum: nat) -> nat {
    if ksum / 32 == 0 {
        1
    } else {
        ksum / 32
    }
}

/// The pivot of the running magnitude sum `ksum`: `max(ksum / 32, 1)`.
pub fn ksum_pivot(ksum: u64) -> (r: u64)
    ensures
        r == pivot_of(ksum as nat),
{
    let quotient = ksum / KSUM_PIVOT_DIVISOR as u64;
    if quotient == 0 {
        1
    } else {
        quotient
    }
}

/// The pivot is never zero and grows with the sum.
pub proof fn law_pivot_positive_and_monotone(a: nat, b: nat)
    requires
        a <= b,
    ensures
        1 <= pivot_of(a) <= pivot_of(b),
{
}

} // verus!
