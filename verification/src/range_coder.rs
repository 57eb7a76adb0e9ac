//! Carryless byte-oriented range coder.
//!
//! The compressed payload is a bit array that is read eight bits at a
//! time. The decoder keeps three registers: `range`, the width of the
//! current interval; `low`, the offset of the code inside it; and
//! `buffer`, a rolling window over the input whose low bit is carried
//! over to the next read, so that `low` absorbs a contiguous bit prefix
//! of the stream: seven bits when the registers are primed, eight more
//! at each refill.
//!
//! The encoder is the arithmetic mirror. It accumulates `v * range`
//! where the decoder recovers `v = low / range`, emits the top byte of
//! its 31-bit window at each renormalisation and propagates carries back
//! through the bytes it has already emitted.
//!
//! A corrupt stream may leave `low >= range` or drive `range` to zero.
//! Register arithmetic wraps, so such a stream yields arbitrary values;
//! an empty interval is reported as [`Error::CorruptStream`].

use vstd::arithmetic::power2::*;
use vstd::bits::*;
use vstd::prelude::*;

use crate::error::{Error, Result};

verus! {

/// Coder register width in bits.
pub const CODE_BITS: u32 = 32;

/// High mark of the coder interval, `2^31`.
pub const TOP_VALUE: u32 = 0x8000_0000;

/// Position of the byte that the encoder emits within its 31-bit window.
pub const SHIFT_BITS: u32 = CODE_BITS - 9;

/// Number of bits that the first input byte contributes to `low`.
pub const EXTRA_BITS: u32 = (CODE_BITS - 2) % 8 + 1;

/// Both directions renormalise while `range` is at most this, `2^23`.
pub const BOTTOM_VALUE: u32 = 0x0080_0000;

/// `2^32`, the modulus of the coder registers.
pub open spec fn word_modulus() -> nat {
    0x1_0000_0000
}

// ---------------------------------------------------------------------
// Byte input
// ---------------------------------------------------------------------

/// The buffer index of the `j`-th byte in reading order: the identity,
/// or the order reversed within each group of four.
pub open spec fn stored_index(le_words: bool, j: int) -> int {
    if le_words {
        (j / 4) * 4 + (3 - j % 4)
    } else {
        j
    }
}

/// The `j`-th byte in reading order, zero past the end of the buffer.
pub open spec fn ordered_byte(data: Seq<u8>, le_words: bool, j: int) -> nat {
    let p = stored_index(le_words, j);
    if 0 <= p < data.len() {
        data[p] as nat
    } else {
        0
    }
}

/// The eight bits that start at bit `i`, most significant bit first.
#[verifier::opaque]
pub open spec fn byte_at_bit(data: Seq<u8>, le_words: bool, i: nat) -> nat {
    let pair = ordered_byte(data, le_words, i as int / 8) * 256 + ordered_byte(
        data,
        le_words,
        i as int / 8 + 1,
    );
    (pair / pow2((8 - i % 8) as nat)) % 256
}

/// Eight bits are less than 256.
pub proof fn lemma_byte_bound(data: Seq<u8>, le_words: bool, i: nat)
    ensures
        byte_at_bit(data, le_words, i) < 256,
{
    reveal(byte_at_bit);
}

/// What a [`BitInput`] stands for.
pub ghost struct BitModel {
    pub data: Seq<u8>,
    pub le_words: bool,
    pub bit_pos: nat,
    pub overrun: nat,
}

impl BitModel {
    /// The byte that the next read returns.
    pub open spec fn next_byte(self) -> nat {
        byte_at_bit(self.data, self.le_words, self.bit_pos)
    }

    /// The input after one byte read. Reads that start at or past the
    /// end of the buffer are counted, up to `u32::MAX`.
    pub open spec fn advanced(self) -> BitModel {
        BitModel {
            bit_pos: self.bit_pos + 8,
            overrun: if self.bit_pos / 8 >= self.data.len() && self.overrun < u32::MAX {
                self.overrun + 1
            } else {
                self.overrun
            },
            ..self
        }
    }

    /// The 32 bits that the next four byte reads return, the first byte
    /// on top.
    pub open spec fn next_word(self) -> nat {
        ((self.next_byte() * 256 + self.advanced_by(1).next_byte()) * 256 + self.advanced_by(
            2,
        ).next_byte()) * 256 + self.advanced_by(3).next_byte()
    }

    /// The input after `n` byte reads.
    pub open spec fn advanced_by(self, n: nat) -> BitModel
        decreases n,
    {
        if n == 0 {
            self
        } else {
            self.advanced_by((n - 1) as nat).advanced()
        }
    }
}

/// A big-endian bit array over a byte buffer, read eight bits at a time.
///
/// Reads past the end of the buffer return zero bits and are counted in
/// [`BitInput::overrun_bytes`]: the range decoder reads a few bytes ahead
/// of the last symbol.
#[derive(Debug, Clone)]
pub struct BitInput<'a> {
    pub data: &'a [u8],
    pub bit_pos: u64,
    pub overrun: u32,
    pub le_words: bool,
}

impl<'a> View for BitInput<'a> {
    type V = BitModel;

    open spec fn view(&self) -> BitModel {
        BitModel {
            data: self.data@,
            le_words: self.le_words,
            bit_pos: self.bit_pos as nat,
            overrun: self.overrun as nat,
        }
    }
}

impl<'a> BitInput<'a> {
    /// A bit array over `data` in buffer order, positioned at `start_bit`.
    pub fn new(data: &'a [u8], start_bit: u64) -> (r: Self)
        ensures
            r@ == (BitModel {
                data: data@,
                le_words: false,
                bit_pos: start_bit as nat,
                overrun: 0,
            }),
    {
        BitInput { data, bit_pos: start_bit, overrun: 0, le_words: false }
    }

    /// A bit array over 32-bit words that are stored little-endian: the
    /// byte order is reversed within each group of four.
    pub fn new_le_words(data: &'a [u8], start_bit: u64) -> (r: Self)
        ensures
            r@ == (BitModel {
                data: data@,
                le_words: true,
                bit_pos: start_bit as nat,
                overrun: 0,
            }),
    {
        BitInput { data, bit_pos: start_bit, overrun: 0, le_words: true }
    }

    /// The `j`-th byte in reading order, zero past the end.
    fn byte_in_order(&self, j: u64) -> (b: u8)
        requires
            j <= 0x2000_0000_0000_0000,
        ensures
            b == ordered_byte(self.data@, self.le_words, j as int),
    {
        let p: u64 = if self.le_words {
            (j / 4) * 4 + (3 - j % 4)
        } else {
            j
        };
        if p < self.data.len() as u64 {
            self.data[p as usize]
        } else {
            0
        }
    }

    /// Reads the eight bits at the current bit index and moves past them.
    pub fn read_byte(&mut self) -> (b: u8)
        requires
            old(self).bit_pos <= u64::MAX - 8,
        ensures
            b == old(self)@.next_byte(),
            final(self)@ == old(self)@.advanced(),
    {
        proof {
            reveal(byte_at_bit);
        }
        let i = self.bit_pos;
        let hi = self.byte_in_order(i / 8);
        let lo = self.byte_in_order(i / 8 + 1);
        let pair: u32 = hi as u32 * 256 + lo as u32;
        let shift: u32 = 8 - (i % 8) as u32;
        proof {
            lemma_u32_shr_is_div(pair, shift);
        }
        let byte: u8 = ((pair >> shift) % 256) as u8;
        if i / 8 >= self.data.len() as u64 {
            self.overrun = self.overrun.saturating_add(1);
        }
        self.bit_pos = i + 8;
        byte
    }

    /// Reads 32 bits, most significant bit first.
    pub fn read_u32(&mut self) -> (w: u32)
        requires
            old(self).bit_pos <= u64::MAX - 32,
        ensures
            w == old(self)@.next_word(),
            final(self)@ == old(self)@.advanced_by(4),
    {
        proof {
            reveal_with_fuel(BitModel::advanced_by, 5);
        }
        let b0 = self.read_byte();
        let b1 = self.read_byte();
        let b2 = self.read_byte();
        let b3 = self.read_byte();
        ((b0 as u32 * 256 + b1 as u32) * 256 + b2 as u32) * 256 + b3 as u32
    }

    /// Current bit index.
    pub fn bit_pos(&self) -> (r: u64)
        ensures
            r == self@.bit_pos,
    {
        self.bit_pos
    }

    /// Number of byte reads that started at or past the end of the buffer.
    pub fn overrun_bytes(&self) -> (r: u32)
        ensures
            r == self@.overrun,
    {
        self.overrun
    }
}

// ---------------------------------------------------------------------
// Decoder
// ---------------------------------------------------------------------

/// What a [`RangeDecoder`] stands for.
pub ghost struct DecoderModel {
    pub input: BitModel,
    pub low: nat,
    pub range: nat,
    pub buffer: nat,
}

impl DecoderModel {
    /// The registers after one input byte has been absorbed.
    pub open spec fn refilled(self) -> DecoderModel {
        let buffer = (self.buffer * 256 + self.input.next_byte()) % word_modulus();
        DecoderModel {
            input: self.input.advanced(),
            buffer,
            low: (self.low * 256 + (buffer / 2) % 256) % word_modulus(),
            range: self.range * 256,
        }
    }

    /// The registers once `range` is above [`BOTTOM_VALUE`]; an empty
    /// interval stays as it is.
    pub open spec fn renormalized(self) -> DecoderModel
        decreases
            if self.range <= BOTTOM_VALUE {
                (BOTTOM_VALUE + 1 - self.range) as nat
            } else {
                0
            },
    {
        if 0 < self.range <= BOTTOM_VALUE {
            self.refilled().renormalized()
        } else {
            self
        }
    }

    /// Renormalised registers with `range` replaced.
    pub open spec fn scaled(self, range: nat) -> DecoderModel {
        DecoderModel { range, ..self.renormalized() }
    }

    /// The value that the interval of the scaled registers selects.
    pub open spec fn quotient(self) -> nat {
        self.low / self.range
    }

    /// The registers after `cumfreq` parts have been taken off and the
    /// interval has been widened to `width` parts.
    #[verifier::opaque]
    pub open spec fn consumed(self, cumfreq: nat, width: nat) -> DecoderModel {
        DecoderModel {
            low: ((self.low - (self.range * cumfreq) % word_modulus()) % (
            word_modulus() as int)) as nat,
            range: (self.range * width) % word_modulus(),
            ..self
        }
    }

    /// Outcome of [`RangeDecoder::decode_culfreq`].
    #[verifier::opaque]
    pub open spec fn culfreq(self, shift: nat) -> (DecoderModel, Result<u32>) {
        let d = self.scaled(self.renormalized().range / pow2(shift));
        if d.range == 0 {
            (d, Err(Error::CorruptStream("range underflow in decode_culfreq")))
        } else {
            (d, Ok(d.quotient() as u32))
        }
    }

    /// Outcome of [`RangeDecoder::decode_bits`].
    #[verifier::opaque]
    pub open spec fn bits(self, shift: nat) -> (DecoderModel, Result<u32>) {
        let d = self.scaled(self.renormalized().range / pow2(shift));
        if d.range == 0 {
            (d, Err(Error::CorruptStream("range underflow in decode_bits")))
        } else {
            (DecoderModel { low: d.low % d.range, ..d }, Ok(d.quotient() as u32))
        }
    }

    /// Outcome of [`RangeDecoder::decode_base`].
    #[verifier::opaque]
    pub open spec fn base(self, divisor: nat) -> (DecoderModel, Result<u32>) {
        if divisor == 0 {
            (self, Err(Error::CorruptStream("zero divisor in decode_base")))
        } else {
            let d = self.scaled(self.renormalized().range / divisor);
            if d.range == 0 {
                (d, Err(Error::CorruptStream("range underflow in decode_base")))
            } else {
                (DecoderModel { low: d.low % d.range, ..d }, Ok(d.quotient() as u32))
            }
        }
    }
}

/// Registers just primed over `input`.
pub open spec fn primed(input: BitModel) -> DecoderModel {
    DecoderModel {
        input: input.advanced(),
        buffer: input.next_byte(),
        low: input.next_byte() / 2,
        range: 128,
    }
}

/// Range decoder: the `low` and `range` registers and the rolling
/// `buffer` window over the byte input.
#[derive(Debug, Clone)]
pub struct RangeDecoder<'a> {
    pub input: BitInput<'a>,
    pub low: u32,
    pub range: u32,
    pub buffer: u32,
}

impl<'a> View for RangeDecoder<'a> {
    type V = DecoderModel;

    open spec fn view(&self) -> DecoderModel {
        DecoderModel {
            input: self.input@,
            low: self.low as nat,
            range: self.range as nat,
            buffer: self.buffer as nat,
        }
    }
}

/// Rolling a byte into a 32-bit register drops its top byte.
proof fn lemma_roll_in(x: nat, b: nat)
    requires
        b < 256,
    ensures
        (x * 256 + b) % word_modulus() == (x % 0x0100_0000) * 256 + b,
{
}

/// Renormalising reads at most three bytes.
pub proof fn lemma_renormalized_reads(d: DecoderModel)
    ensures
        d.input.bit_pos <= d.renormalized().input.bit_pos <= d.input.bit_pos + 24,
        d.renormalized().input.data == d.input.data,
        d.renormalized().input.le_words == d.input.le_words,
        d.range == 0 ==> d.renormalized() == d,
        0 < d.range ==> d.renormalized().range > BOTTOM_VALUE,
        0 < d.range <= TOP_VALUE ==> d.renormalized().range <= TOP_VALUE,
        d.low < word_modulus() ==> d.renormalized().low < word_modulus(),
{
    reveal_with_fuel(DecoderModel::renormalized, 5);
}

impl<'a> RangeDecoder<'a> {
    /// Primes the registers over `data`, from its first byte on.
    pub fn new(data: &'a [u8]) -> (r: Self)
        ensures
            r@ == primed(BitModel { data: data@, le_words: false, bit_pos: 0, overrun: 0 }),
    {
        Self::with_input(BitInput::new(data, 0))
    }

    /// Primes the registers over `input`: the first byte fills `buffer`,
    /// its top [`EXTRA_BITS`] bits fill `low`.
    pub fn with_input(input: BitInput<'a>) -> (r: Self)
        requires
            input.bit_pos <= u64::MAX - 8,
        ensures
            r@ == primed(input@),
    {
        let mut input = input;
        let first = input.read_byte();
        RangeDecoder { input, buffer: first as u32, low: first as u32 / 2, range: 128 }
    }

    /// Absorbs input bytes until `range` is above [`BOTTOM_VALUE`].
    fn normalize(&mut self)
        requires
            old(self).input.bit_pos <= u64::MAX - 24,
        ensures
            final(self)@ == old(self)@.renormalized(),
            final(self).input.bit_pos <= old(self).input.bit_pos + 24,
    {
        proof {
            lemma_renormalized_reads(self@);
        }
        while 0 < self.range && self.range <= BOTTOM_VALUE
            invariant
                self@.renormalized() == old(self)@.renormalized(),
                old(self).input.bit_pos <= u64::MAX - 24,
                old(self)@.renormalized().input.bit_pos <= old(self).input.bit_pos + 24,
            decreases
                if self.range <= BOTTOM_VALUE {
                    BOTTOM_VALUE + 1 - self.range
                } else {
                    0
                },
        {
            let ghost before = self@;
            proof {
                lemma_renormalized_reads(before.refilled());
                lemma_byte_bound(
                    before.input.data,
                    before.input.le_words,
                    before.input.bit_pos,
                );
                lemma_roll_in(before.buffer, before.input.next_byte());
                lemma_roll_in(before.low, (before.refilled().buffer / 2) % 256);
            }
            let byte = self.input.read_byte();
            self.buffer = (self.buffer % 0x0100_0000) * 256 + byte as u32;
            self.low = (self.low % 0x0100_0000) * 256 + (self.buffer / 2) % 256;
            self.range = self.range * 256;
            assert(self.buffer == before.refilled().buffer);
            assert(self.low == before.refilled().low);
            assert(self@ == before.refilled());
        }
    }

    /// Renormalises, divides `range` by `2^shift` and returns
    /// `low / range` without taking it off the interval. The caller
    /// looks the value up and narrows with [`RangeDecoder::consume`].
    pub fn decode_culfreq(&mut self, shift: u32) -> (r: Result<u32>)
        requires
            shift < 32,
            old(self).input.bit_pos <= u64::MAX - 24,
        ensures
            (final(self)@, r) == old(self)@.culfreq(shift as nat),
            final(self).input.bit_pos <= old(self).input.bit_pos + 24,
    {
        proof {
            reveal(DecoderModel::culfreq);
        }
        self.normalize();
        proof {
            lemma_u32_shr_is_div(self.range, shift);
        }
        self.range = self.range >> shift;
        if self.range == 0 {
            return Err(Error::CorruptStream("range underflow in decode_culfreq"));
        }
        Ok(self.low / self.range)
    }

    /// Takes `cumfreq` parts off the interval and widens it to `width`
    /// parts. Follows a [`RangeDecoder::decode_culfreq`].
    pub fn consume(&mut self, cumfreq: u32, width: u32)
        ensures
            final(self)@ == old(self)@.consumed(cumfreq as nat, width as nat),
            final(self).input == old(self).input,
    {
        proof {
            reveal(DecoderModel::consumed);
        }
        self.low = self.low.wrapping_sub(self.range.wrapping_mul(cumfreq));
        self.range = self.range.wrapping_mul(width);
    }

    /// Renormalises, then reads and takes off a `shift`-bit value.
    pub fn decode_bits(&mut self, shift: u32) -> (r: Result<u32>)
        requires
            shift < 32,
            old(self).input.bit_pos <= u64::MAX - 24,
        ensures
            (final(self)@, r) == old(self)@.bits(shift as nat),
            final(self).input.bit_pos <= old(self).input.bit_pos + 24,
    {
        proof {
            reveal(DecoderModel::bits);
        }
        self.normalize();
        proof {
            lemma_u32_shr_is_div(self.range, shift);
        }
        self.range = self.range >> shift;
        if self.range == 0 {
            return Err(Error::CorruptStream("range underflow in decode_bits"));
        }
        let v = self.low / self.range;
        self.low = self.low % self.range;
        Ok(v)
    }

    /// Renormalises, then reads and takes off a value in
    /// `[0, divisor)`.
    pub fn decode_base(&mut self, divisor: u32) -> (r: Result<u32>)
        requires
            old(self).input.bit_pos <= u64::MAX - 24,
        ensures
            (final(self)@, r) == old(self)@.base(divisor as nat),
            final(self).input.bit_pos <= old(self).input.bit_pos + 24,
    {
        proof {
            reveal(DecoderModel::base);
        }
        if divisor == 0 {
            return Err(Error::CorruptStream("zero divisor in decode_base"));
        }
        self.normalize();
        self.range = self.range / divisor;
        if self.range == 0 {
            return Err(Error::CorruptStream("range underflow in decode_base"));
        }
        let v = self.low / self.range;
        self.low = self.low % self.range;
        Ok(v)
    }

    /// Bit index of the underlying input.
    pub fn bit_pos(&self) -> (r: u64)
        ensures
            r == self@.input.bit_pos,
    {
        self.input.bit_pos()
    }

    /// Zero-filled byte reads past the end of the input.
    pub fn overrun_bytes(&self) -> (r: u32)
        ensures
            r == self@.input.overrun,
    {
        self.input.overrun_bytes()
    }
}

// ---------------------------------------------------------------------
// Encoder
// ---------------------------------------------------------------------

/// The byte string read as a big-endian number, plus one; an all-ones
/// string wraps to zeros.
pub open spec fn bumped(bytes: Seq<u8>) -> Seq<u8>
    decreases bytes.len(),
{
    if bytes.len() == 0 {
        bytes
    } else if bytes.last() == 0xFF {
        bumped(bytes.drop_last()).push(0)
    } else {
        bytes.drop_last().push((bytes.last() + 1) as u8)
    }
}

/// What a [`RangeEncoder`] stands for.
pub ghost struct EncoderModel {
    pub low: nat,
    pub range: nat,
    pub out: Seq<u8>,
}

impl EncoderModel {
    /// The top byte of the 31-bit window moves to the output.
    pub open spec fn shifted(self) -> EncoderModel {
        EncoderModel {
            low: (self.low % 0x0080_0000) * 256,
            out: self.out.push((self.low / 0x0080_0000) as u8),
            ..self
        }
    }

    /// The registers once `range` is above [`BOTTOM_VALUE`]; an empty
    /// interval stays as it is.
    pub open spec fn renormalized(self) -> EncoderModel
        decreases
            if self.range <= BOTTOM_VALUE {
                (BOTTOM_VALUE + 1 - self.range) as nat
            } else {
                0
            },
    {
        if 0 < self.range <= BOTTOM_VALUE {
            EncoderModel { range: self.range * 256, ..self.shifted() }.renormalized()
        } else {
            self
        }
    }

    /// The window advanced by `amount`, a carry going into the output.
    pub open spec fn raised(self, amount: nat) -> EncoderModel {
        let sum = (self.low + amount) % word_modulus();
        EncoderModel {
            low: sum % (TOP_VALUE as nat),
            out: if sum >= TOP_VALUE {
                bumped(self.out)
            } else {
                self.out
            },
            ..self
        }
    }

    /// Renormalised registers with `range` replaced and the window
    /// advanced by `v` of the new units.
    pub open spec fn placed(self, v: nat, range: nat) -> EncoderModel {
        EncoderModel { range, ..self.renormalized() }.raised((v * range) % word_modulus())
    }

    /// The registers after [`RangeEncoder::encode_bits`].
    #[verifier::opaque]
    pub open spec fn bits(self, v: nat, shift: nat) -> EncoderModel {
        self.placed(v, self.renormalized().range / pow2(shift))
    }

    /// The registers after [`RangeEncoder::encode_base`].
    #[verifier::opaque]
    pub open spec fn base(self, v: nat, divisor: nat) -> EncoderModel {
        self.placed(v, self.renormalized().range / divisor)
    }

    /// The registers after [`RangeEncoder::encode_interval`].
    #[verifier::opaque]
    pub open spec fn interval(self, cumfreq: nat, width: nat, shift: nat) -> EncoderModel {
        let e = self.placed(cumfreq, self.renormalized().range / pow2(shift));
        EncoderModel { range: (e.range * width) % word_modulus(), ..e }
    }

    /// The bytes that [`RangeEncoder::finish`] returns.
    pub open spec fn flushed(self) -> Seq<u8> {
        self.shifted().shifted().shifted().shifted().out
    }
}

/// The registers of a fresh encoder.
pub open spec fn fresh_encoder() -> EncoderModel {
    EncoderModel { low: 0, range: TOP_VALUE as nat, out: Seq::empty() }
}

/// Range encoder: the `low` and `range` registers and the bytes emitted
/// so far.
#[derive(Debug, Clone, Default)]
pub struct RangeEncoder {
    pub low: u32,
    pub range: u32,
    pub out: Vec<u8>,
}

impl View for RangeEncoder {
    type V = EncoderModel;

    open spec fn view(&self) -> EncoderModel {
        EncoderModel { low: self.low as nat, range: self.range as nat, out: self.out@ }
    }
}

impl RangeEncoder {
    /// Fresh encoder: an empty window and the full range.
    pub fn new() -> (r: Self)
        ensures
            r@ == fresh_encoder(),
            r.wf(),
    {
        RangeEncoder { low: 0, range: TOP_VALUE, out: Vec::new() }
    }

    /// The window fits in 31 bits.
    pub open spec fn wf(&self) -> bool {
        self.low < TOP_VALUE
    }

    /// Emits window bytes until `range` is above [`BOTTOM_VALUE`].
    fn normalize(&mut self)
        requires
            old(self).wf(),
        ensures
            final(self)@ == old(self)@.renormalized(),
            final(self).wf(),
    {
        while 0 < self.range && self.range <= BOTTOM_VALUE
            invariant
                self@.renormalized() == old(self)@.renormalized(),
                self.wf(),
            decreases
                if self.range <= BOTTOM_VALUE {
                    BOTTOM_VALUE + 1 - self.range
                } else {
                    0
                },
        {
            self.shift_low();
            self.range = self.range * 256;
        }
    }

    /// Moves the top byte of the window to the output.
    fn shift_low(&mut self)
        requires
            old(self).wf(),
        ensures
            final(self)@ == old(self)@.shifted(),
            final(self).wf(),
            final(self).range == old(self).range,
    {
        self.out.push((self.low / BOTTOM_VALUE) as u8);
        self.low = (self.low % BOTTOM_VALUE) * 256;
    }

    /// Adds one to the emitted bytes, read as a big-endian number.
    fn bump_out(&mut self)
        ensures
            final(self)@ == (EncoderModel { out: bumped(old(self).out@), ..old(self)@ }),
    {
        let mut i: usize = self.out.len();
        let ghost start = self.out@;
        proof {
            assert(start.take(i as int) =~= start);
            assert(bumped(start) + start.skip(i as int) =~= bumped(start));
        }
        while i > 0
            invariant
                start == old(self).out@,
                i <= start.len(),
                self.out@.len() == start.len(),
                self.low == old(self).low,
                self.range == old(self).range,
                self.out@.take(i as int) == start.take(i as int),
                bumped(start) == bumped(start.take(i as int)) + self.out@.skip(i as int),
            decreases i,
        {
            i = i - 1;
            let b = self.out[i];
            let ghost head = start.take(i as int + 1);
            let ghost prev = self.out@;
            assert(head.drop_last() =~= start.take(i as int));
            assert(head.last() == b) by {
                assert(prev.take(i as int + 1)[i as int] == head[i as int]);
            }
            if b == 0xFF {
                self.out[i] = 0;
                assert(bumped(head) == bumped(start.take(i as int)).push(0));
                assert(bumped(start.take(i as int)).push(0) + prev.skip(i as int + 1)
                    =~= bumped(start.take(i as int)) + self.out@.skip(i as int));
                assert(self.out@.take(i as int) =~= start.take(i as int)) by {
                    assert forall|k: int| 0 <= k < i implies self.out@[k] == start[k] by {
                        assert(prev.take(i as int + 1)[k] == start.take(i as int + 1)[k]);
                    }
                }
            } else {
                self.out[i] = b + 1;
                proof {
                    assert(bumped(head) == start.take(i as int).push((b + 1) as u8));
                    assert(bumped(start) == start.take(i as int).push((b + 1) as u8) + prev.skip(
                        i as int + 1,
                    ));
                    assert forall|k: int| 0 <= k < i implies self.out@[k] == start[k] by {
                        assert(prev.take(i as int + 1)[k] == start.take(i as int + 1)[k]);
                    }
                    assert(self.out@ =~= bumped(start));
                }
                return ;
            }
        }
        proof {
            assert(bumped(start.take(0)) =~= Seq::<u8>::empty());
            assert(self.out@ =~= bumped(start));
        }
    }

    /// Advances the window by `amount`, a carry going into the output.
    fn add_low(&mut self, amount: u32)
        requires
            old(self).wf(),
        ensures
            final(self)@ == old(self)@.raised(amount as nat),
            final(self).wf(),
    {
        let sum: u32 = self.low.wrapping_add(amount);
        if sum >= TOP_VALUE {
            self.bump_out();
        }
        self.low = sum % TOP_VALUE;
    }

    /// Encodes `v` in `[0, 2^shift)`, to be read back by
    /// [`RangeDecoder::decode_bits`].
    pub fn encode_bits(&mut self, v: u32, shift: u32)
        requires
            old(self).wf(),
            shift < 32,
            v < pow2(shift as nat) || shift == 0,
        ensures
            final(self)@ == old(self)@.bits(v as nat, shift as nat),
            final(self).wf(),
    {
        proof {
            reveal(EncoderModel::bits);
        }
        self.normalize();
        proof {
            lemma_u32_shr_is_div(self.range, shift);
        }
        self.range = self.range >> shift;
        self.add_low(v.wrapping_mul(self.range));
    }

    /// Encodes `v` in `[0, divisor)`, to be read back by
    /// [`RangeDecoder::decode_base`].
    pub fn encode_base(&mut self, v: u32, divisor: u32)
        requires
            old(self).wf(),
            v < divisor,
        ensures
            final(self)@ == old(self)@.base(v as nat, divisor as nat),
            final(self).wf(),
    {
        proof {
            reveal(EncoderModel::base);
        }
        self.normalize();
        self.range = self.range / divisor;
        self.add_low(v.wrapping_mul(self.range));
    }

    /// Encodes a symbol that occupies `[cumfreq, cumfreq + width)` of a
    /// model with total `2^shift`, to be read back by
    /// [`RangeDecoder::decode_culfreq`] and [`RangeDecoder::consume`].
    pub fn encode_interval(&mut self, cumfreq: u32, width: u32, shift: u32)
        requires
            old(self).wf(),
            shift < 32,
        ensures
            final(self)@ == old(self)@.interval(cumfreq as nat, width as nat, shift as nat),
            final(self).wf(),
    {
        proof {
            reveal(EncoderModel::interval);
        }
        self.normalize();
        proof {
            lemma_u32_shr_is_div(self.range, shift);
        }
        self.range = self.range >> shift;
        self.add_low(cumfreq.wrapping_mul(self.range));
        self.range = self.range.wrapping_mul(width);
    }

    /// Flushes the window, four bytes, and returns the byte stream.
    pub fn finish(self) -> (bytes: Vec<u8>)
        requires
            self.wf(),
        ensures
            bytes@ == self@.flushed(),
    {
        let mut e = self;
        e.shift_low();
        e.shift_low();
        e.shift_low();
        e.shift_low();
        e.out
    }
}

} // verus!
