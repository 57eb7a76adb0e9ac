//! The adaptive-filter cascade of each compression level.

use vstd::prelude::*;
use vstd::slice::*;
use vstd::string::*;
use vstd::utf8::is_ascii_chars_encode_utf8;

use crate::freq_model::{digits_end, digits_value, number_at, past_next, read_number, skip_past};
use crate::header::{level_code, CompressionLevel};

verus! {

/// One stage of a cascade: an adaptive filter of `order` taps with a
/// fractional `shift`.
#[derive(Debug, Clone, Copy, PartialEq, Eq, Hash, Structural)]
pub struct FilterStage {
    /// The number of the compression level that the stage belongs to.
    pub level_code: u16,
    /// Position of the stage within its cascade.
    pub filter_index: u8,
    /// Number of taps; zero means that no filter runs.
    pub order: u16,
    /// Fractional shift.
    pub shift: u8,
}

/// Number of rows of the stage table.
pub const ROWS: usize = 8;

/// The stages of all levels, one per line.
pub const FILTER_CONFIG_CSV: &'static str =
    "level_code,filter_index,order,shift\n1000,0,0,0\n2000,0,16,11\n3000,0,64,11\n4000,0,256,13\n4000,1,32,10\n5000,0,1280,15\n5000,1,256,13\n5000,2,16,11\n";

/// The stages of all levels: level code, filter index, order and shift.
pub const FILTER_STAGES: [(u16, u8, u16, u8); 8] = [
    (1000, 0, 0, 0),
    (2000, 0, 16, 11),
    (3000, 0, 64, 11),
    (4000, 0, 256, 13),
    (4000, 1, 32, 10),
    (5000, 0, 1280, 15),
    (5000, 1, 256, 13),
    (5000, 2, 16, 11),
];

/// The stage in row `row` of the table.
pub open spec fn table_stage(row: int) -> FilterStage {
    let (level_code, filter_index, order, shift) = FILTER_STAGES@[row];
    FilterStage { level_code, filter_index, order, shift }
}

/// The stages of all levels.
pub open spec fn table_stages() -> Seq<FilterStage> {
    Seq::new(8, |row: int| table_stage(row))
}

/// The stages of all levels.
pub fn filter_stages() -> (r: Vec<FilterStage>)
    ensures
        r@ == table_stages(),
{
    let mut out: Vec<FilterStage> = Vec::new();
    let mut i: usize = 0;
    while i < ROWS
        invariant
            i <= 8,
            out@ == table_stages().take(i as int),
        decreases 8 - i,
    {
        let (level_code, filter_index, order, shift) = FILTER_STAGES[i];
        out.push(FilterStage { level_code, filter_index, order, shift });
        i = i + 1;
        assert(out@ =~= table_stages().take(i as int));
    }
    assert(table_stages().take(8) =~= table_stages());
    out
}

/// The largest number of stages in a cascade.
pub const MAX_CASCADE_DEPTH: usize = 3;

// ---------------------------------------------------------------------
// Table text
// ---------------------------------------------------------------------

/// A field separator: a comma or a line end.
pub open spec fn is_separator(b: u8) -> bool {
    b == 44 || b == 13 || b == 10
}

/// The end of the run of separators that starts at `i`.
pub open spec fn separators_end(text: Seq<u8>, i: int) -> int
    decreases text.len() - i,
{
    if 0 <= i < text.len() && is_separator(text[i]) {
        separators_end(text, i + 1)
    } else {
        i
    }
}

/// The start of field `f`, counted over all rows after the header line.
pub open spec fn field_start(text: Seq<u8>, f: nat) -> int
    decreases f,
{
    if f == 0 {
        past_next(text, 10, 0)
    } else {
        separators_end(text, digits_end(text, field_start(text, (f - 1) as nat)))
    }
}

/// The number in field `f`.
pub open spec fn field_value(text: Seq<u8>, f: nat) -> nat {
    number_at(text, field_start(text, f))
}

/// The stage in row `row`, all zeros where the text has ended.
pub open spec fn row_stage(text: Seq<u8>, row: nat) -> FilterStage {
    if field_start(text, 4 * row) < text.len() {
        FilterStage {
            level_code: (field_value(text, 4 * row) % 0x1_0000) as u16,
            filter_index: (field_value(text, 4 * row + 1) % 256) as u8,
            order: (field_value(text, 4 * row + 2) % 0x1_0000) as u16,
            shift: (field_value(text, 4 * row + 3) % 256) as u8,
        }
    } else {
        FilterStage { level_code: 0, filter_index: 0, order: 0, shift: 0 }
    }
}

fn skip_separators(text: &[u8], from: usize) -> (i: usize)
    requires
        from <= text@.len(),
    ensures
        i == separators_end(text@, from as int),
        from <= i <= text@.len(),
{
    let mut i: usize = from;
    while i < text.len() && (text[i] == 44 || text[i] == 13 || text[i] == 10)
        invariant
            from <= i <= text@.len(),
            separators_end(text@, i as int) == separators_end(text@, from as int),
        decreases text@.len() - i,
    {
        i = i + 1;
    }
    i
}

/// Reads field `f` at `i`: its number and the start of the next field.
fn read_field(text: &[u8], i: usize, Ghost(f): Ghost<nat>) -> (r: (u32, usize))
    requires
        i <= text@.len(),
        i == field_start(text@, f),
        field_value(text@, f) <= u32::MAX,
    ensures
        r.0 == field_value(text@, f),
        r.1 == field_start(text@, f + 1),
        r.1 <= text@.len(),
{
    let (v, end) = read_number(text, i);
    (v, skip_separators(text, end))
}

/// Past the end of the text there are no more fields.
proof fn lemma_fields_stay_ended(text: Seq<u8>, a: nat, b: nat)
    requires
        a <= b,
        field_start(text, a) >= text.len(),
        field_start(text, a) >= 0,
    ensures
        field_start(text, b) >= text.len(),
        field_start(text, b) >= 0,
    decreases b,
{
    if a < b {
        lemma_fields_stay_ended(text, a, (b - 1) as nat);
    }
}

/// Reads the eight rows of a `level_code,filter_index,order,shift` table
/// under a header line; lines may end in CR LF or LF, and rows that are
/// missing are zeros.
pub fn parse_stages(csv: &str) -> (r: Vec<FilterStage>)
    requires
        csv.spec_bytes().len() < usize::MAX,
        forall|f: nat| f < 32 ==> #[trigger] field_value(csv.spec_bytes(), f) <= u32::MAX,
    ensures
        r@.len() == 8,
        forall|row: int|
            0 <= row < 8 ==> #[trigger] r@[row] == row_stage(csv.spec_bytes(), row as nat),
{
    let text = csv.as_bytes();
    let mut out: Vec<FilterStage> = Vec::new();
    let mut i: usize = skip_past(text, 10, 0);
    while i < text.len() && out.len() < ROWS
        invariant
            text@ == csv.spec_bytes(),
            out@.len() <= 8,
            i == field_start(text@, 4 * out@.len()),
            forall|f: nat| f < 32 ==> #[trigger] field_value(csv.spec_bytes(), f) <= u32::MAX,
            forall|row: int|
                0 <= row < out@.len() ==> #[trigger] out@[row] == row_stage(text@, row as nat),
        decreases 8 - out@.len(),
    {
        let ghost f = 4 * out@.len();
        let ghost row = out@.len();
        let (a, i1) = read_field(text, i, Ghost(f));
        let (b, i2) = read_field(text, i1, Ghost(f + 1));
        let (c, i3) = read_field(text, i2, Ghost(f + 2));
        let (d, i4) = read_field(text, i3, Ghost(f + 3));
        let stage = FilterStage {
            level_code: (a % 0x1_0000) as u16,
            filter_index: (b % 256) as u8,
            order: (c % 0x1_0000) as u16,
            shift: (d % 256) as u8,
        };
        assert(stage == row_stage(text@, row));
        out.push(stage);
        i = i4;
    }
    while out.len() < ROWS
        invariant
            text@ == csv.spec_bytes(),
            out@.len() <= 8,
            out@.len() < 8 ==> field_start(text@, 4 * out@.len()) >= text@.len(),
            forall|row: int|
                0 <= row < out@.len() ==> #[trigger] out@[row] == row_stage(text@, row as nat),
        decreases 8 - out@.len(),
    {
        proof {
            lemma_fields_stay_ended(text@, 4 * out@.len(), 4 * out@.len() + 4);
        }
        out.push(FilterStage { level_code: 0, filter_index: 0, order: 0, shift: 0 });
    }
    out
}

/// A field of `n` digits at `s`, with one separator behind it.
#[verifier::opaque]
spec fn field_shape(text: Seq<u8>, s: int, n: int) -> bool {
    &&& 0 <= s
    &&& s + n < text.len()
    &&& 1 <= n <= 4
    &&& 48 <= text[s] <= 57
    &&& n >= 2 ==> 48 <= text[s + 1] <= 57
    &&& n >= 3 ==> 48 <= text[s + 2] <= 57
    &&& n >= 4 ==> 48 <= text[s + 3] <= 57
    &&& is_separator(text[s + n])
    &&& s + n + 1 < text.len() ==> !is_separator(text[s + n + 1])
}

/// The number that `n` digits at `s` write.
#[verifier::opaque]
spec fn short_number(text: Seq<u8>, s: int, n: int) -> nat {
    let a = (text[s] - 48) as nat;
    let b = (text[s + 1] - 48) as nat;
    let c = (text[s + 2] - 48) as nat;
    let d = (text[s + 3] - 48) as nat;
    if n == 1 {
        a
    } else if n == 2 {
        10 * a + b
    } else if n == 3 {
        100 * a + 10 * b + c
    } else {
        1000 * a + 100 * b + 10 * c + d
    }
}

proof fn lemma_field_at(text: Seq<u8>, f: nat, s: int, n: int)
    requires
        field_start(text, f) == s,
        field_shape(text, s, n),
    ensures
        field_value(text, f) == short_number(text, s, n),
        field_value(text, f) <= 9999,
        field_start(text, f + 1) == s + n + 1,
        s < text.len(),
{
    reveal(field_shape);
    reveal(short_number);
    reveal_with_fuel(digits_end, 6);
    reveal_with_fuel(digits_value, 6);
    reveal_with_fuel(separators_end, 3);
}

/// The bytes of the table text.
spec fn csv_bytes() -> Seq<u8> {
    FILTER_CONFIG_CSV.spec_bytes()
}

/// The rows of the table text start behind the header line.
proof fn lemma_csv_header()
    ensures
        field_start(csv_bytes(), 0) == 36,
{
    reveal_strlit(
        "level_code,filter_index,order,shift\n1000,0,0,0\n2000,0,16,11\n3000,0,64,11\n4000,0,256,13\n4000,1,32,10\n5000,0,1280,15\n5000,1,256,13\n5000,2,16,11\n",
    );
    is_ascii_chars_encode_utf8(FILTER_CONFIG_CSV@);
    reveal_with_fuel(past_next, 37);
}

/// Where the fields of a row stand, and what they write.
#[verifier::opaque]
spec fn row_shape(
    text: Seq<u8>,
    s: int,
    n1: int,
    n2: int,
    n3: int,
    stage: FilterStage,
) -> bool {
    &&& field_shape(text, s, 4)
    &&& field_shape(text, s + 5, n1)
    &&& field_shape(text, s + 6 + n1, n2)
    &&& field_shape(text, s + 7 + n1 + n2, n3)
    &&& short_number(text, s, 4) == stage.level_code
    &&& short_number(text, s + 5, n1) == stage.filter_index
    &&& short_number(text, s + 6 + n1, n2) == stage.order
    &&& short_number(text, s + 7 + n1 + n2, n3) == stage.shift
}

/// The shapes of all rows.
proof fn lemma_csv_rows()
    ensures
        row_shape(csv_bytes(), 36, 1, 1, 1, table_stage(0)),
        row_shape(csv_bytes(), 47, 1, 2, 2, table_stage(1)),
        row_shape(csv_bytes(), 60, 1, 2, 2, table_stage(2)),
        row_shape(csv_bytes(), 73, 1, 3, 2, table_stage(3)),
        row_shape(csv_bytes(), 87, 1, 2, 2, table_stage(4)),
        row_shape(csv_bytes(), 100, 1, 4, 2, table_stage(5)),
        row_shape(csv_bytes(), 115, 1, 3, 2, table_stage(6)),
        row_shape(csv_bytes(), 129, 1, 2, 2, table_stage(7)),
{
    reveal_strlit(
        "level_code,filter_index,order,shift\n1000,0,0,0\n2000,0,16,11\n3000,0,64,11\n4000,0,256,13\n4000,1,32,10\n5000,0,1280,15\n5000,1,256,13\n5000,2,16,11\n",
    );
    is_ascii_chars_encode_utf8(FILTER_CONFIG_CSV@);
    reveal(row_shape);
    reveal(field_shape);
    reveal(short_number);
}

/// A row of known shape is read as its stage.
proof fn lemma_row_read(
    text: Seq<u8>,
    row: nat,
    s: int,
    n1: int,
    n2: int,
    n3: int,
    stage: FilterStage,
)
    requires
        field_start(text, 4 * row) == s,
        row_shape(text, s, n1, n2, n3, stage),
    ensures
        field_start(text, 4 * (row + 1)) == s + 8 + n1 + n2 + n3,
        row_stage(text, row) == stage,
        field_value(text, 4 * row) <= u32::MAX,
        field_value(text, 4 * row + 1) <= u32::MAX,
        field_value(text, 4 * row + 2) <= u32::MAX,
        field_value(text, 4 * row + 3) <= u32::MAX,
{
    reveal(row_shape);
    lemma_field_at(text, 4 * row, s, 4);
    lemma_field_at(text, 4 * row + 1, s + 5, n1);
    lemma_field_at(text, 4 * row + 2, s + 6 + n1, n2);
    lemma_field_at(text, 4 * row + 3, s + 7 + n1 + n2, n3);
}

/// The table is what [`parse_stages`] makes of its text: every field is a
/// number of 32 bits, and every row is that of [`FILTER_STAGES`].
pub proof fn law_table_is_its_text(row: nat, f: nat)
    requires
        row < 8,
        f < 32,
    ensures
        field_value(FILTER_CONFIG_CSV.spec_bytes(), f) <= u32::MAX,
        row_stage(FILTER_CONFIG_CSV.spec_bytes(), row) == table_stages()[row as int],
{
    lemma_csv_header();
    lemma_csv_rows();
    lemma_row_read(csv_bytes(), 0, 36, 1, 1, 1, table_stage(0));
    lemma_row_read(csv_bytes(), 1, 47, 1, 2, 2, table_stage(1));
    lemma_row_read(csv_bytes(), 2, 60, 1, 2, 2, table_stage(2));
    lemma_row_read(csv_bytes(), 3, 73, 1, 3, 2, table_stage(3));
    lemma_row_read(csv_bytes(), 4, 87, 1, 2, 2, table_stage(4));
    lemma_row_read(csv_bytes(), 5, 100, 1, 4, 2, table_stage(5));
    lemma_row_read(csv_bytes(), 6, 115, 1, 3, 2, table_stage(6));
    lemma_row_read(csv_bytes(), 7, 129, 1, 2, 2, table_stage(7));
}

// ---------------------------------------------------------------------
// Cascades
// ---------------------------------------------------------------------

/// The first row of `level` in the table.
pub open spec fn first_row(level: CompressionLevel) -> int {
    match level {
        CompressionLevel::Fast => 0,
        CompressionLevel::Normal => 1,
        CompressionLevel::High => 2,
        CompressionLevel::ExtraHigh => 3,
        CompressionLevel::Insane => 5,
    }
}

/// The number of stages of `level`.
pub open spec fn stage_count(level: CompressionLevel) -> nat {
    match level {
        CompressionLevel::Fast => 1,
        CompressionLevel::Normal => 1,
        CompressionLevel::High => 1,
        CompressionLevel::ExtraHigh => 2,
        CompressionLevel::Insane => 3,
    }
}

/// The stages of `level`, by ascending `filter_index`.
pub open spec fn level_stages(level: CompressionLevel) -> Seq<FilterStage> {
    table_stages().subrange(first_row(level), first_row(level) + stage_count(level))
}

/// The stages of a level are exactly the table rows that carry its number,
/// and their indices count up from zero.
pub proof fn law_level_stages(level: CompressionLevel)
    ensures
        level_stages(level).len() == stage_count(level),
        1 <= stage_count(level) <= MAX_CASCADE_DEPTH,
        forall|row: int|
            0 <= row < 8 ==> ((#[trigger] table_stages()[row]).level_code == level_code(level)
                <==> first_row(level) <= row < first_row(level) + stage_count(level)),
        forall|k: int|
            0 <= k < stage_count(level) ==> (#[trigger] level_stages(level)[k]).filter_index == k,
        forall|k: int|
            0 <= k < stage_count(level) ==> {
                let s = #[trigger] level_stages(level)[k];
                s.order == 0 || (s.order % 16 == 0 && 10 <= s.shift <= 15)
            },
{
}

/// The stages of `level`, in order.
pub fn cascade_for_level(level: CompressionLevel) -> (r: Vec<FilterStage>)
    ensures
        r@ == level_stages(level),
{
    let code = level.as_u16();
    let table = filter_stages();
    let mut out: Vec<FilterStage> = Vec::new();
    let mut i: usize = 0;
    proof {
        law_level_stages(level);
    }
    let ghost lo = first_row(level);
    let ghost hi = first_row(level) + stage_count(level);
    while i < ROWS
        invariant
            i <= 8,
            code == level_code(level),
            table@ == table_stages(),
            lo == first_row(level),
            hi == lo + stage_count(level),
            0 <= lo <= hi <= 8,
            i <= lo ==> out@.len() == 0,
            lo <= i <= hi ==> out@ == table_stages().subrange(lo, i as int),
            i >= hi ==> out@ == table_stages().subrange(lo, hi),
            forall|row: int|
                0 <= row < 8 ==> ((#[trigger] table_stages()[row]).level_code == level_code(level)
                    <==> lo <= row < hi),
        decreases 8 - i,
    {
        let s = table[i];
        assert(s == table_stages()[i as int]);
        if s.level_code == code {
            out.push(s);
            assert(out@ =~= table_stages().subrange(lo, i as int + 1));
        }
        i = i + 1;
        assert(i == lo ==> out@ =~= table_stages().subrange(lo, i as int));
    }
    out
}

/// The cascade of one compression level, held inline.
#[derive(Debug, Clone, Copy, PartialEq, Eq, Hash)]
pub struct FilterCascade {
    pub level: CompressionLevel,
    pub stages: [FilterStage; 3],
    pub len: usize,
}

/// A level has one cascade.
pub proof fn law_one_cascade_per_level(a: FilterCascade, b: FilterCascade)
    requires
        a.wf(),
        b.wf(),
        a.level == b.level,
    ensures
        a == b,
{
    assert forall|k: int| 0 <= k < 3 implies a.stages@[k] == b.stages@[k] by {
        if k < a.len {
            assert(a.stages@[k] == a.stages@.take(a.len as int)[k]);
            assert(b.stages@[k] == b.stages@.take(b.len as int)[k]);
        }
    }
    assert(a.stages@ =~= b.stages@);
    assert(a.stages =~= b.stages);
}

/// The cascade of `level`.
pub open spec fn cascade_of(level: CompressionLevel) -> FilterCascade {
    choose|c: FilterCascade| #[trigger] c.wf() && c.level == level
}

/// The sum of the orders of `stages`.
pub open spec fn order_sum(stages: Seq<FilterStage>) -> nat
    decreases stages.len(),
{
    if stages.len() == 0 {
        0
    } else {
        order_sum(stages.drop_last()) + stages.last().order as nat
    }
}

impl FilterCascade {
    /// The first `len` entries are the stages of the level; the others
    /// carry its number and are zero otherwise.
    pub open spec fn wf(&self) -> bool {
        &&& self.len == stage_count(self.level)
        &&& self.len <= 3
        &&& self.stages@.take(self.len as int) == level_stages(self.level)
        &&& forall|k: int| self.len <= k < 3 ==> #[trigger] self.stages@[k] == (FilterStage {
            level_code: level_code(self.level),
            filter_index: 0,
            order: 0,
            shift: 0,
        })
    }

    /// The cascade of `level`.
    pub fn for_level(level: CompressionLevel) -> (r: Self)
        ensures
            r == cascade_of(level),
            r.wf(),
            r.level == level,
    {
        let found = cascade_for_level(level);
        let none = FilterStage {
            level_code: level.as_u16(),
            filter_index: 0,
            order: 0,
            shift: 0,
        };
        proof {
            law_level_stages(level);
        }
        let len: usize = found.len();
        let stages: [FilterStage; 3] = [
            found[0],
            if len > 1 {
                found[1]
            } else {
                none
            },
            if len > 2 {
                found[2]
            } else {
                none
            },
        ];
        assert(stages@.take(len as int) =~= found@);
        let r = FilterCascade { level, stages, len };
        proof {
            assert(r.wf());
            law_one_cascade_per_level(r, cascade_of(level));
        }
        r
    }

    /// The compression level.
    pub fn level(&self) -> (r: CompressionLevel)
        ensures
            r == self.level,
    {
        self.level
    }

    /// The stages, in order.
    pub fn stages(&self) -> (r: &[FilterStage])
        requires
            self.wf(),
        ensures
            r@ == level_stages(self.level),
    {
        slice_subrange(self.stages.as_slice(), 0, self.len)
    }

    /// Number of stages.
    pub fn len(&self) -> (r: usize)
        requires
            self.wf(),
        ensures
            r == stage_count(self.level),
    {
        self.len
    }

    /// Whether no filter runs: every stage has order zero.
    pub fn is_empty(&self) -> (r: bool)
        requires
            self.wf(),
        ensures
            r == (forall|k: int|
                0 <= k < level_stages(self.level).len() ==> (#[trigger] level_stages(
                    self.level,
                )[k]).order == 0),
            r == (self.level == CompressionLevel::Fast),
    {
        let stages = self.stages();
        let mut i: usize = 0;
        while i < stages.len()
            invariant
                i <= stages@.len(),
                stages@ == level_stages(self.level),
                forall|k: int| 0 <= k < i ==> (#[trigger] stages@[k]).order == 0,
            decreases stages@.len() - i,
        {
            if stages[i].order != 0 {
                return false;
            }
            i = i + 1;
        }
        assert(level_stages(self.level)[0].order == 0);
        true
    }

    /// The stage at position `index`.
    pub fn stage(&self, index: usize) -> (r: Option<FilterStage>)
        requires
            self.wf(),
        ensures
            r == (if index < level_stages(self.level).len() {
                Some(level_stages(self.level)[index as int])
            } else {
                None
            }),
    {
        let stages = self.stages();
        if index < stages.len() {
            Some(stages[index])
        } else {
            None
        }
    }

    /// The sum of the orders of all stages.
    pub fn total_order(&self) -> (r: usize)
        requires
            self.wf(),
        ensures
            r == order_sum(level_stages(self.level)),
    {
        let stages = self.stages();
        let mut sum: usize = 0;
        let mut i: usize = 0;
        proof {
            law_level_stages(self.level);
        }
        while i < stages.len()
            invariant
                i <= stages@.len() <= 3,
                stages@ == level_stages(self.level),
                sum == order_sum(stages@.take(i as int)),
                sum <= i * 0xFFFF,
            decreases stages@.len() - i,
        {
            assert(stages@.take(i as int + 1).drop_last() =~= stages@.take(i as int));
            sum = sum + stages[i].order as usize;
            i = i + 1;
        }
        assert(stages@.take(i as int) =~= stages@);
        sum
    }

    /// The largest order of a stage.
    pub fn max_order(&self) -> (r: u16)
        requires
            self.wf(),
        ensures
            forall|k: int|
                0 <= k < level_stages(self.level).len() ==> (#[trigger] level_stages(
                    self.level,
                )[k]).order <= r,
            exists|k: int|
                0 <= k < level_stages(self.level).len() && (#[trigger] level_stages(
                    self.level,
                )[k]).order == r,
    {
        let stages = self.stages();
        proof {
            law_level_stages(self.level);
        }
        let mut best: u16 = stages[0].order;
        let mut i: usize = 1;
        while i < stages.len()
            invariant
                1 <= i <= stages@.len(),
                stages@ == level_stages(self.level),
                forall|k: int| 0 <= k < i ==> (#[trigger] stages@[k]).order <= best,
                exists|k: int| 0 <= k < i && (#[trigger] stages@[k]).order == best,
            decreases stages@.len() - i,
        {
            if stages[i].order > best {
                best = stages[i].order;
            }
            i = i + 1;
        }
        best
    }
}

} // verus!
