//! The eight bytes that open every file: the magic, the version and the
//! compression level.

use vstd::prelude::*;
use vstd::string::*;
use vstd::utf8::{encode_utf8, is_ascii_chars_encode_utf8};

use crate::bytes::{le16_at, le16_bytes, read_le16};
use crate::error::{Error, Result};
use crate::text::{append_decimal, decimal_text};

verus! {

/// The magic that opens every file, `"MAC "`.
pub const MAGIC: [u8; 4] = [77, 65, 67, 32];

/// Length of the header prefix.
pub const HEADER_PREFIX_LEN: usize = 8;

/// File name extension of the format.
pub const FILE_EXTENSION: &'static str = "ape";

/// Encoder profile, from the fastest to the slowest.
#[derive(Debug, Clone, Copy, PartialEq, Eq, Ord, Hash, Structural)]
pub enum CompressionLevel {
    /// 1000, "fast".
    Fast,
    /// 2000, "normal".
    Normal,
    /// 3000, "high".
    High,
    /// 4000, "extra high".
    ExtraHigh,
    /// 5000, "insane".
    Insane,
}

/// The number that stands for `level` in a file.
pub open spec fn level_code(level: CompressionLevel) -> u16 {
    match level {
        CompressionLevel::Fast => 1000,
        CompressionLevel::Normal => 2000,
        CompressionLevel::High => 3000,
        CompressionLevel::ExtraHigh => 4000,
        CompressionLevel::Insane => 5000,
    }
}

/// The level that a number in a file stands for.
pub open spec fn level_of_code(raw: u16) -> Result<CompressionLevel> {
    if raw == 1000 {
        Ok(CompressionLevel::Fast)
    } else if raw == 2000 {
        Ok(CompressionLevel::Normal)
    } else if raw == 3000 {
        Ok(CompressionLevel::High)
    } else if raw == 4000 {
        Ok(CompressionLevel::ExtraHigh)
    } else if raw == 5000 {
        Ok(CompressionLevel::Insane)
    } else {
        Err(Error::UnknownCompressionLevel(raw))
    }
}

/// The label of `level`.
pub open spec fn level_label(level: CompressionLevel) -> Seq<char> {
    match level {
        CompressionLevel::Fast => "fast"@,
        CompressionLevel::Normal => "normal"@,
        CompressionLevel::High => "high"@,
        CompressionLevel::ExtraHigh => "extra high"@,
        CompressionLevel::Insane => "insane"@,
    }
}

/// The label of `level` in ASCII.
pub open spec fn label_bytes(level: CompressionLevel) -> Seq<u8> {
    match level {
        CompressionLevel::Fast => seq![102u8, 97, 115, 116],
        CompressionLevel::Normal => seq![110u8, 111, 114, 109, 97, 108],
        CompressionLevel::High => seq![104u8, 105, 103, 104],
        CompressionLevel::ExtraHigh => seq![101u8, 120, 116, 114, 97, 32, 104, 105, 103, 104],
        CompressionLevel::Insane => seq![105u8, 110, 115, 97, 110, 101],
    }
}

/// An ASCII white-space character.
pub open spec fn is_blank(b: u8) -> bool {
    b == 32 || 9 <= b <= 13
}

/// The lower-case form of an ASCII letter; other bytes are unchanged.
pub open spec fn lower(b: u8) -> u8 {
    if 65 <= b <= 90 {
        (b + 32) as u8
    } else {
        b
    }
}

/// `text` without the white space at both ends.
pub open spec fn trimmed(text: Seq<u8>) -> Seq<u8>
    decreases text.len(),
{
    if text.len() > 0 && is_blank(text[0]) {
        trimmed(text.drop_first())
    } else if text.len() > 0 && is_blank(text.last()) {
        trimmed(text.drop_last())
    } else {
        text
    }
}

/// `text`, trimmed and in lower case, is the label of `level`.
pub open spec fn names_level(text: Seq<u8>, level: CompressionLevel) -> bool {
    trimmed(text).map_values(|b: u8| lower(b)) == label_bytes(level)
}

/// The level that a label names.
pub open spec fn level_of_label(text: Seq<u8>) -> Result<CompressionLevel> {
    if names_level(text, CompressionLevel::Fast) {
        Ok(CompressionLevel::Fast)
    } else if names_level(text, CompressionLevel::Normal) {
        Ok(CompressionLevel::Normal)
    } else if names_level(text, CompressionLevel::High) {
        Ok(CompressionLevel::High)
    } else if names_level(text, CompressionLevel::ExtraHigh) {
        Ok(CompressionLevel::ExtraHigh)
    } else if names_level(text, CompressionLevel::Insane) {
        Ok(CompressionLevel::Insane)
    } else {
        Err(Error::UnknownCompressionLabel)
    }
}

/// The bounds of `text` without the white space at both ends.
fn trim_bounds(text: &[u8]) -> (r: (usize, usize))
    ensures
        r.0 <= r.1 <= text@.len(),
        text@.subrange(r.0 as int, r.1 as int) == trimmed(text@),
{
    let mut lo: usize = 0;
    let mut hi: usize = text.len();
    assert(text@.subrange(0, hi as int) =~= text@);
    loop
        invariant
            lo <= hi <= text@.len(),
            trimmed(text@.subrange(lo as int, hi as int)) == trimmed(text@),
        decreases hi - lo,
    {
        let ghost rest = text@.subrange(lo as int, hi as int);
        if lo < hi && (text[lo] == 32 || (9 <= text[lo] && text[lo] <= 13)) {
            assert(rest[0] == text@[lo as int]);
            assert(rest.drop_first() =~= text@.subrange(lo as int + 1, hi as int));
            lo = lo + 1;
        } else if lo < hi && (text[hi - 1] == 32 || (9 <= text[hi - 1] && text[hi - 1] <= 13)) {
            assert(rest[0] == text@[lo as int]);
            assert(rest.last() == text@[hi - 1]);
            assert(rest.drop_last() =~= text@.subrange(lo as int, hi - 1));
            hi = hi - 1;
        } else {
            proof {
                if lo < hi {
                    assert(rest[0] == text@[lo as int]);
                    assert(rest.last() == text@[hi - 1]);
                }
            }
            return (lo, hi);
        }
    }
}

/// Whether `text[lo..hi]`, in lower case, is `label`.
fn matches_label(text: &[u8], lo: usize, hi: usize, label: &[u8]) -> (r: bool)
    requires
        lo <= hi <= text@.len(),
    ensures
        r == (text@.subrange(lo as int, hi as int).map_values(|b: u8| lower(b)) == label@),
{
    let ghost lowered = text@.subrange(lo as int, hi as int).map_values(|b: u8| lower(b));
    if hi - lo != label.len() {
        assert(lowered.len() != label@.len());
        return false;
    }
    let mut k: usize = 0;
    while k < label.len()
        invariant
            k <= label@.len(),
            lo + label@.len() == hi <= text@.len(),
            lowered == text@.subrange(lo as int, hi as int).map_values(|b: u8| lower(b)),
            forall|j: int| 0 <= j < k ==> lowered[j] == label@[j],
        decreases label@.len() - k,
    {
        let b = text[lo + k];
        let low: u8 = if 65 <= b && b <= 90 {
            b + 32
        } else {
            b
        };
        assert(lowered[k as int] == low);
        if low != label[k] {
            return false;
        }
        k = k + 1;
    }
    assert(lowered =~= label@);
    true
}

impl CompressionLevel {
    /// All levels, from the fastest to the slowest.
    pub const ALL: [CompressionLevel; 5] = [
        CompressionLevel::Fast,
        CompressionLevel::Normal,
        CompressionLevel::High,
        CompressionLevel::ExtraHigh,
        CompressionLevel::Insane,
    ];

    /// All levels, from the fastest to the slowest.
    pub fn iter() -> (r: Vec<CompressionLevel>)
        ensures
            r@ == seq![
                CompressionLevel::Fast,
                CompressionLevel::Normal,
                CompressionLevel::High,
                CompressionLevel::ExtraHigh,
                CompressionLevel::Insane,
            ],
    {
        let mut all: Vec<CompressionLevel> = Vec::new();
        all.push(CompressionLevel::Fast);
        all.push(CompressionLevel::Normal);
        all.push(CompressionLevel::High);
        all.push(CompressionLevel::ExtraHigh);
        all.push(CompressionLevel::Insane);
        assert(all@ =~= seq![
            CompressionLevel::Fast,
            CompressionLevel::Normal,
            CompressionLevel::High,
            CompressionLevel::ExtraHigh,
            CompressionLevel::Insane,
        ]);
        all
    }

    /// The number that stands for the level in a file.
    pub fn as_u16(self) -> (r: u16)
        ensures
            r == level_code(self),
    {
        match self {
            CompressionLevel::Fast => 1000,
            CompressionLevel::Normal => 2000,
            CompressionLevel::High => 3000,
            CompressionLevel::ExtraHigh => 4000,
            CompressionLevel::Insane => 5000,
        }
    }

    /// The level that a number in a file stands for.
    pub fn from_u16(raw: u16) -> (r: Result<Self>)
        ensures
            r == level_of_code(raw),
    {
        if raw == 1000 {
            Ok(CompressionLevel::Fast)
        } else if raw == 2000 {
            Ok(CompressionLevel::Normal)
        } else if raw == 3000 {
            Ok(CompressionLevel::High)
        } else if raw == 4000 {
            Ok(CompressionLevel::ExtraHigh)
        } else if raw == 5000 {
            Ok(CompressionLevel::Insane)
        } else {
            Err(Error::UnknownCompressionLevel(raw))
        }
    }

    /// Human-readable label.
    pub fn label(self) -> (r: &'static str)
        ensures
            r@ == level_label(self),
    {
        match self {
            CompressionLevel::Fast => "fast",
            CompressionLevel::Normal => "normal",
            CompressionLevel::High => "high",
            CompressionLevel::ExtraHigh => "extra high",
            CompressionLevel::Insane => "insane",
        }
    }

    /// The level that the ASCII label `text` names, in upper or lower
    /// case, with ASCII white space at both ends ignored.
    pub fn from_label_bytes(text: &[u8]) -> (r: Result<Self>)
        ensures
            r == level_of_label(text@),
    {
        let (lo, hi) = trim_bounds(text);
        if matches_label(text, lo, hi, &[102u8, 97, 115, 116]) {
            Ok(CompressionLevel::Fast)
        } else if matches_label(text, lo, hi, &[110u8, 111, 114, 109, 97, 108]) {
            Ok(CompressionLevel::Normal)
        } else if matches_label(text, lo, hi, &[104u8, 105, 103, 104]) {
            Ok(CompressionLevel::High)
        } else if matches_label(
            text,
            lo,
            hi,
            &[101u8, 120, 116, 114, 97, 32, 104, 105, 103, 104],
        ) {
            Ok(CompressionLevel::ExtraHigh)
        } else if matches_label(text, lo, hi, &[105u8, 110, 115, 97, 110, 101]) {
            Ok(CompressionLevel::Insane)
        } else {
            Err(Error::UnknownCompressionLabel)
        }
    }

    /// The level that the label `text` names, in upper or lower case,
    /// with ASCII white space at both ends ignored.
    pub fn from_label(text: &str) -> (r: Result<Self>)
        ensures
            r == level_of_label(text.spec_bytes()),
    {
        Self::from_label_bytes(text.as_bytes())
    }

    /// The label and the number, such as `normal (2000)`.
    pub fn display_text(self) -> (s: String)
        ensures
            s@ == level_text(self),
    {
        let mut s = self.label().to_owned();
        s.append(" (");
        append_decimal(&mut s, self.as_u16() as u64);
        s.append(")");
        s
    }
}

/// The label and the number of `level`.
pub open spec fn level_text(level: CompressionLevel) -> Seq<char> {
    level_label(level) + " ("@ + decimal_text(level_code(level) as nat) + ")"@
}

impl Default for CompressionLevel {
    /// The normal level.
    fn default() -> (r: Self)
        ensures
            r == CompressionLevel::Normal,
    {
        CompressionLevel::Normal
    }
}

impl PartialOrd for CompressionLevel {
    fn partial_cmp(&self, other: &Self) -> (r: Option<core::cmp::Ordering>) {
        let a: u16 = self.as_u16();
        let b: u16 = other.as_u16();
        if a < b {
            Some(core::cmp::Ordering::Less)
        } else if a == b {
            Some(core::cmp::Ordering::Equal)
        } else {
            Some(core::cmp::Ordering::Greater)
        }
    }
}

impl vstd::std_specs::cmp::PartialOrdSpecImpl for CompressionLevel {
    open spec fn obeys_partial_cmp_spec() -> bool {
        true
    }

    /// Levels are ordered by their numbers.
    open spec fn partial_cmp_spec(&self, other: &Self) -> Option<core::cmp::Ordering> {
        if level_code(*self) < level_code(*other) {
            Some(core::cmp::Ordering::Less)
        } else if level_code(*self) == level_code(*other) {
            Some(core::cmp::Ordering::Equal)
        } else {
            Some(core::cmp::Ordering::Greater)
        }
    }
}

impl From<CompressionLevel> for u16 {
    fn from(level: CompressionLevel) -> (r: u16) {
        level.as_u16()
    }
}

impl vstd::std_specs::convert::FromSpecImpl<CompressionLevel> for u16 {
    open spec fn obeys_from_spec() -> bool {
        true
    }

    open spec fn from_spec(level: CompressionLevel) -> u16 {
        level_code(level)
    }
}

impl TryFrom<u16> for CompressionLevel {
    type Error = Error;

    fn try_from(raw: u16) -> (r: Result<Self>) {
        Self::from_u16(raw)
    }
}

impl vstd::std_specs::convert::TryFromSpecImpl<u16> for CompressionLevel {
    open spec fn obeys_try_from_spec() -> bool {
        true
    }

    open spec fn try_from_spec(raw: u16) -> Result<CompressionLevel> {
        level_of_code(raw)
    }
}

impl core::str::FromStr for CompressionLevel {
    type Err = Error;

    fn from_str(s: &str) -> (r: Result<Self>)
        ensures
            r == level_of_label(s.spec_bytes()),
    {
        Self::from_label(s)
    }
}

/// The number of a level gives the level back, and no other number gives
/// a level.
pub proof fn law_level_code_round_trip(level: CompressionLevel, raw: u16)
    ensures
        level_of_code(level_code(level)) == Ok::<CompressionLevel, Error>(level),
        level_of_code(raw) is Ok ==> level_code(level_of_code(raw)->Ok_0) == raw,
{
}

/// The label of a level, in ASCII.
proof fn lemma_label_bytes(level: CompressionLevel)
    ensures
        encode_utf8(level_label(level)) == label_bytes(level),
{
    reveal_strlit("fast");
    reveal_strlit("normal");
    reveal_strlit("high");
    reveal_strlit("extra high");
    reveal_strlit("insane");
    is_ascii_chars_encode_utf8(level_label(level));
    assert(encode_utf8(level_label(level)) =~= label_bytes(level));
}

/// The label of a level names that level and no other.
pub proof fn law_label_round_trip(level: CompressionLevel)
    ensures
        level_of_label(encode_utf8(level_label(level))) == Ok::<CompressionLevel, Error>(level),
{
    lemma_label_bytes(level);
    let text = label_bytes(level);
    assert(trimmed(text) == text);
    assert(text.map_values(|b: u8| lower(b)) =~= text);
    let f = label_bytes(CompressionLevel::Fast);
    let n = label_bytes(CompressionLevel::Normal);
    let h = label_bytes(CompressionLevel::High);
    let x = label_bytes(CompressionLevel::ExtraHigh);
    let i = label_bytes(CompressionLevel::Insane);
    assert(f[0] == 102 && n[0] == 110 && h[0] == 104 && x[0] == 101 && i[0] == 105);
}

// ---------------------------------------------------------------------
// Header prefix
// ---------------------------------------------------------------------

/// The parsed header prefix.
#[derive(Debug, Clone, Copy, PartialEq, Eq, Hash, Structural)]
pub struct HeaderPrefix {
    /// Version, `major * 1000 + minor * 10`: 3920 is version 3.92.
    pub version_raw: u16,
    /// Compression level.
    pub compression_level: CompressionLevel,
    /// Where the part of the header that depends on the version starts.
    pub header_tail_offset: usize,
}

/// The prefix for a version and a level.
pub open spec fn prefix_of(version_raw: u16, level: CompressionLevel) -> HeaderPrefix {
    HeaderPrefix { version_raw, compression_level: level, header_tail_offset: 8 }
}

/// The eight bytes of a prefix.
pub open spec fn prefix_bytes(version_raw: u16, level: CompressionLevel) -> Seq<u8> {
    MAGIC@ + le16_bytes(version_raw as nat) + le16_bytes(level_code(level) as nat)
}

/// What the first eight bytes of `bytes` stand for.
pub open spec fn parsed_prefix(bytes: Seq<u8>) -> Result<HeaderPrefix> {
    if bytes.len() < 8 {
        Err(Error::Truncated)
    } else if bytes.take(4) != MAGIC@ {
        Err(Error::InvalidMagic)
    } else {
        match level_of_code(le16_at(bytes, 6) as u16) {
            Err(e) => Err(e),
            Ok(level) => Ok(prefix_of(le16_at(bytes, 4) as u16, level)),
        }
    }
}

/// Whether `bytes` opens with the magic.
pub fn starts_with_magic(bytes: &[u8]) -> (r: bool)
    ensures
        r == (bytes@.len() >= 4 && bytes@.take(4) == MAGIC@),
{
    if bytes.len() < 4 {
        return false;
    }
    let same = bytes[0] == 77 && bytes[1] == 65 && bytes[2] == 67 && bytes[3] == 32;
    proof {
        let head = bytes@.take(4);
        assert(head[0] == bytes@[0] && head[1] == bytes@[1] && head[2] == bytes@[2] && head[3]
            == bytes@[3]);
        if same {
            assert(head =~= MAGIC@);
        } else {
            assert(head != MAGIC@);
        }
    }
    same
}

/// The numeral of `n` with at least two digits.
pub open spec fn two_digit_text(n: nat) -> Seq<char> {
    if n < 10 {
        seq!['0'] + decimal_text(n)
    } else {
        decimal_text(n)
    }
}

/// The text that [`HeaderPrefix::display_text`] returns.
pub open spec fn prefix_text(h: HeaderPrefix) -> Seq<char> {
    "MAC v"@ + decimal_text((h.version_raw / 1000) as nat) + "."@ + two_digit_text(
        ((h.version_raw % 1000) / 10) as nat,
    ) + " (raw="@ + decimal_text(h.version_raw as nat) + ") "@ + level_text(h.compression_level)
}

impl HeaderPrefix {
    /// The prefix for a version and a level.
    pub fn new(version_raw: u16, level: CompressionLevel) -> (r: Self)
        ensures
            r == prefix_of(version_raw, level),
    {
        HeaderPrefix { version_raw, compression_level: level, header_tail_offset: HEADER_PREFIX_LEN }
    }

    /// The major and minor version.
    pub fn version(&self) -> (r: (u16, u16))
        ensures
            r.0 == self.version_raw / 1000,
            r.1 == (self.version_raw % 1000) / 10,
    {
        (self.version_raw / 1000, (self.version_raw % 1000) / 10)
    }

    /// The major version.
    pub fn major(&self) -> (r: u16)
        ensures
            r == self.version_raw / 1000,
    {
        self.version_raw / 1000
    }

    /// The minor version.
    pub fn minor(&self) -> (r: u16)
        ensures
            r == (self.version_raw % 1000) / 10,
    {
        (self.version_raw % 1000) / 10
    }

    /// Parses the prefix at the start of `bytes`.
    pub fn parse(bytes: &[u8]) -> (r: Result<Self>)
        ensures
            r == parsed_prefix(bytes@),
    {
        if bytes.len() < HEADER_PREFIX_LEN {
            return Err(Error::Truncated);
        }
        if !starts_with_magic(bytes) {
            return Err(Error::InvalidMagic);
        }
        let version_raw = read_le16(bytes, 4);
        match CompressionLevel::from_u16(read_le16(bytes, 6)) {
            Err(e) => Err(e),
            Ok(level) => Ok(HeaderPrefix::new(version_raw, level)),
        }
    }

    /// The eight bytes of the prefix.
    pub fn encode_prefix(&self) -> (r: [u8; 8])
        ensures
            r@ == prefix_bytes(self.version_raw, self.compression_level),
    {
        let v = self.version_raw;
        let c = self.compression_level.as_u16();
        let out: [u8; 8] = [
            77,
            65,
            67,
            32,
            (v % 256) as u8,
            (v / 256) as u8,
            (c % 256) as u8,
            (c / 256) as u8,
        ];
        proof {
            reveal(le16_bytes);
        }
        assert(out@ =~= prefix_bytes(self.version_raw, self.compression_level));
        out
    }

    /// One line of text, such as `MAC v3.92 (raw=3920) normal (2000)`.
    pub fn display_text(&self) -> (s: String)
        ensures
            s@ == prefix_text(*self),
    {
        let mut s = "MAC v".to_owned();
        append_decimal(&mut s, self.major() as u64);
        s.append(".");
        proof {
            reveal_strlit("0");
        }
        if self.minor() < 10 {
            s.append("0");
            assert("0"@ =~= seq!['0']);
        }
        let ghost lead = s@;
        append_decimal(&mut s, self.minor() as u64);
        proof {
            let front = "MAC v"@ + decimal_text((self.version_raw / 1000) as nat) + "."@;
            assert(s@ =~= front + two_digit_text(((self.version_raw % 1000) / 10) as nat));
        }
        s.append(" (raw=");
        append_decimal(&mut s, self.version_raw as u64);
        s.append(") ");
        s.append(self.compression_level.display_text().as_str());
        s
    }
}

/// Parsing the bytes of a prefix, whatever follows them, gives the prefix
/// back.
pub proof fn law_prefix_round_trip(version_raw: u16, level: CompressionLevel, tail: Seq<u8>)
    ensures
        parsed_prefix(prefix_bytes(version_raw, level) + tail) == Ok::<HeaderPrefix, Error>(
            prefix_of(version_raw, level),
        ),
{
    reveal(le16_bytes);
    let bytes = prefix_bytes(version_raw, level) + tail;
    assert(bytes.take(4) =~= MAGIC@);
    assert(le16_at(bytes, 4) == version_raw);
    assert(le16_at(bytes, 6) == level_code(level));
}

} // verus!
