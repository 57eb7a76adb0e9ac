//! Why the range decoder reads back what the range encoder wrote.
//!
//! The bytes emitted so far together with the 31-bit window form one
//! number, the encoder's total. Every step narrows the half-open interval
//! `[total, total + range)`, scaled by 256 at each emitted byte, and the
//! flushed stream lies inside all of them. The decoder's `low` is the
//! distance of the stream, read to the same number of bits, from the
//! total.

use vstd::arithmetic::div_mod::*;
use vstd::arithmetic::mul::*;
use vstd::arithmetic::power2::*;
use vstd::prelude::*;

use crate::error::Error;
use crate::range_coder::{
    bumped, byte_at_bit, fresh_encoder, lemma_byte_bound, ordered_byte, primed, word_modulus, BitModel, DecoderModel,
    EncoderModel, BOTTOM_VALUE, TOP_VALUE,
};

verus! {

/// The byte string as a big-endian number.
pub open spec fn bytes_value(s: Seq<u8>) -> nat
    decreases s.len(),
{
    if s.len() == 0 {
        0
    } else {
        bytes_value(s.drop_last()) * 256 + s.last() as nat
    }
}

/// `256^n`.
pub open spec fn pow256(n: nat) -> nat
    decreases n,
{
    if n == 0 {
        1
    } else {
        256 * pow256((n - 1) as nat)
    }
}

/// The first `m` bytes of the bit array from the current position on, as
/// a big-endian number.
pub open spec fn stream_prefix(i: BitModel, m: nat) -> nat
    decreases m,
{
    if m == 0 {
        0
    } else {
        stream_prefix(i, (m - 1) as nat) * 256 + byte_at_bit(
            i.data,
            i.le_words,
            i.bit_pos + 8 * (m - 1) as nat,
        )
    }
}

/// The bit array continues with the bytes `s` at the current position.
pub open spec fn stream_starts_with(i: BitModel, s: Seq<u8>) -> bool {
    forall|j: int|
        0 <= j < s.len() ==> #[trigger] byte_at_bit(
            i.data,
            i.le_words,
            (i.bit_pos + 8 * j) as nat,
        ) == s[j]
}

/// The number that the emitted bytes and the window stand for.
pub open spec fn total(e: EncoderModel) -> nat {
    bytes_value(e.out) * 0x8000_0000 + e.low
}

/// The interval is not empty and a carry cannot leave the emitted bytes.
pub open spec fn sound(e: EncoderModel) -> bool {
    &&& e.low < TOP_VALUE
    &&& 0 < e.range <= TOP_VALUE
    &&& total(e) + e.range <= 0x8000_0000 * pow256(e.out.len())
}

/// The stream, cut to the precision of `e`.
pub open spec fn code(i: BitModel, e: EncoderModel) -> nat {
    stream_prefix(i, e.out.len() + 4) / 2
}

/// The stream lies inside the interval of `e`.
pub open spec fn covers(e: EncoderModel, i: BitModel) -> bool {
    &&& sound(e)
    &&& total(e) <= code(i, e) < total(e) + e.range
}

/// The decoder registers hold the distance of the stream, `m` bytes in,
/// from `base`.
pub open spec fn tracks(d: DecoderModel, i: BitModel, m: nat, base: nat) -> bool {
    &&& d.input.data == i.data
    &&& d.input.le_words == i.le_words
    &&& d.input.bit_pos == i.bit_pos + 8 * m
    &&& d.low + base == stream_prefix(i, m) / 2
    &&& d.buffer % 2 == stream_prefix(i, m) % 2
}

/// After renormalisation the decoder mirrors the encoder: the same range,
/// and `low` is the distance of the stream from the total.
pub open spec fn in_step(d: DecoderModel, e: EncoderModel, i: BitModel) -> bool {
    let dn = d.renormalized();
    let en = e.renormalized();
    &&& dn.range == en.range
    &&& tracks(dn, i, en.out.len() + 4, total(en))
}

/// The decoder has read no further than a flush of `e` would reach, and
/// no read was past the end of the buffer unless the position now is.
pub open spec fn reads_behind(d: DecoderModel, e: EncoderModel, i: BitModel) -> bool {
    &&& d.input.bit_pos <= i.bit_pos + 8 * (e.out.len() + 4)
    &&& d.input.bit_pos <= 8 * i.data.len() ==> d.input.overrun == i.overrun
}

/// A decoder that is in step with an encoder over a stream.
pub open spec fn paired(d: DecoderModel, e: EncoderModel, i: BitModel) -> bool {
    &&& sound(e)
    &&& in_step(d, e, i)
    &&& d.renormalized().buffer < word_modulus()
    &&& reads_behind(d, e, i)
}

// ---------------------------------------------------------------------
// Totals
// ---------------------------------------------------------------------

proof fn lemma_push_value(s: Seq<u8>, b: u8)
    ensures
        bytes_value(s.push(b)) == bytes_value(s) * 256 + b,
{
    assert(s.push(b).drop_last() =~= s);
}

proof fn lemma_bumped_value(s: Seq<u8>)
    requires
        bytes_value(s) + 1 < pow256(s.len()),
    ensures
        bumped(s).len() == s.len(),
        bytes_value(bumped(s)) == bytes_value(s) + 1,
    decreases s.len(),
{
    if s.len() > 0 {
        let head = s.drop_last();
        if s.last() == 0xFF {
            assert(bytes_value(head) + 1 < pow256(head.len()));
            lemma_bumped_value(head);
            lemma_push_value(bumped(head), 0);
        } else {
            lemma_push_value(head, (s.last() + 1) as u8);
        }
    }
}

proof fn lemma_shifted_total(e: EncoderModel)
    requires
        e.low < TOP_VALUE,
    ensures
        e.shifted().low < TOP_VALUE,
        total(e.shifted()) == total(e) * 256,
        e.shifted().out.len() == e.out.len() + 1,
{
    let b = (e.low / 0x0080_0000) as u8;
    lemma_push_value(e.out, b);
    assert(e.low == (e.low / 0x0080_0000) * 0x0080_0000 + e.low % 0x0080_0000);
}

/// One emitted byte: the encoder with its window moved on and its range
/// scaled.
spec fn stepped(e: EncoderModel) -> EncoderModel {
    EncoderModel { range: e.range * 256, ..e.shifted() }
}

proof fn lemma_code_step(i: BitModel, m: nat)
    ensures
        stream_prefix(i, m + 1) / 2 == (stream_prefix(i, m) / 2) * 256 + (stream_prefix(i, m) % 2)
            * 128 + byte_at_bit(i.data, i.le_words, i.bit_pos + 8 * m) / 2,
        byte_at_bit(i.data, i.le_words, i.bit_pos + 8 * m) < 256,
        stream_prefix(i, m + 1) % 2 == byte_at_bit(i.data, i.le_words, i.bit_pos + 8 * m) % 2,
{
    let p = stream_prefix(i, m);
    let b = byte_at_bit(i.data, i.le_words, i.bit_pos + 8 * m);
    lemma_byte_bound(i.data, i.le_words, i.bit_pos + 8 * m);
    assert(stream_prefix(i, m + 1) == p * 256 + b);
    assert(p == (p / 2) * 2 + p % 2);
}

proof fn lemma_stepped(e: EncoderModel, i: BitModel)
    requires
        sound(e),
        e.range <= BOTTOM_VALUE,
    ensures
        sound(stepped(e)),
        covers(e, i) <==> covers(stepped(e), i),
{
    lemma_shifted_total(e);
    lemma_code_step(i, e.out.len() + 4);
    assert(pow256(e.out.len() + 1) == 256 * pow256(e.out.len()));
}

/// Renormalisation keeps soundness and does not move the stream in or out
/// of the interval.
pub proof fn lemma_renormalized_covers(e: EncoderModel, i: BitModel)
    requires
        sound(e),
    ensures
        sound(e.renormalized()),
        e.renormalized().range > BOTTOM_VALUE,
        e.renormalized().renormalized() == e.renormalized(),
        covers(e, i) <==> covers(e.renormalized(), i),
    decreases BOTTOM_VALUE + 256 * BOTTOM_VALUE - e.range,
{
    if e.range <= BOTTOM_VALUE {
        lemma_stepped(e, i);
        lemma_renormalized_covers(stepped(e), i);
    }
}

// ---------------------------------------------------------------------
// Decoder registers
// ---------------------------------------------------------------------

/// The nine low bits of the rolling window.
proof fn lemma_window(buffer: nat, b: nat)
    requires
        b < 256,
    ensures
        (((buffer * 256 + b) % 0x1_0000_0000) / 2) % 256 == (buffer % 2) * 128 + b / 2,
        ((buffer * 256 + b) % 0x1_0000_0000) % 2 == b % 2,
{
    let x = (buffer * 256 + b) as int;
    let k = x / 0x1_0000_0000;
    let q = (buffer / 2) as int;
    let r = (buffer % 2) as int;
    let c = (b / 2) as int;
    let y = x % 0x1_0000_0000;
    let half = 256 * (q - 0x80_0000 * k) + (128 * r + c);
    lemma_fundamental_div_mod(x, 0x1_0000_0000);
    lemma_fundamental_div_mod_converse(y, 2, half, (b % 2) as int);
    lemma_fundamental_div_mod_converse(half, 256, q - 0x80_0000 * k, 128 * r + c);
}

proof fn lemma_refilled(d: DecoderModel, i: BitModel, m: nat, base: nat)
    requires
        tracks(d, i, m, base),
        d.low < d.range <= BOTTOM_VALUE,
        d.buffer < word_modulus(),
    ensures
        tracks(d.refilled(), i, m + 1, base * 256),
        d.refilled().low < d.refilled().range,
        d.refilled().buffer < word_modulus(),
{
    let b = d.input.next_byte();
    lemma_code_step(i, m);
    lemma_window(d.buffer, b);
    let x = (d.buffer % 2) * 128 + b / 2;
    assert(d.refilled().low == d.low * 256 + x);
}

/// Renormalising counts no read past the end unless it ends there.
proof fn lemma_renormalized_overrun(d: DecoderModel)
    ensures
        d.input.bit_pos <= d.renormalized().input.bit_pos,
        d.renormalized().input.data == d.input.data,
        d.renormalized().input.bit_pos <= 8 * d.input.data.len()
            ==> d.renormalized().input.overrun == d.input.overrun,
{
    reveal_with_fuel(DecoderModel::renormalized, 5);
}

/// The two renormalisations run in step.
proof fn lemma_renormalize_together(d: DecoderModel, e: EncoderModel, i: BitModel)
    requires
        covers(e, i),
        d.range == e.range,
        d.buffer < word_modulus(),
        tracks(d, i, e.out.len() + 4, total(e)),
    ensures
        in_step(d, e, i),
        d.renormalized().buffer < word_modulus(),
    decreases BOTTOM_VALUE + 256 * BOTTOM_VALUE - e.range,
{
    if e.range <= BOTTOM_VALUE {
        lemma_refilled(d, i, e.out.len() + 4, total(e));
        lemma_shifted_total(e);
        lemma_stepped(e, i);
        lemma_renormalize_together(d.refilled(), stepped(e), i);
    }
}

/// Freshly primed registers are in step with a fresh encoder, whatever
/// the stream holds, and the fresh interval covers every stream.
pub proof fn lemma_fresh_in_step(i: BitModel)
    ensures
        covers(fresh_encoder(), i),
        paired(primed(i), fresh_encoder(), i),
{
    let e = fresh_encoder();
    assert(total(e) == 0);
    assert(pow256(0) == 1);
    let d0 = primed(i);
    assert(stream_prefix(i, 1) == i.next_byte()) by {
        assert(stream_prefix(i, 0) == 0);
    }
    lemma_byte_bound(i.data, i.le_words, i.bit_pos);
    assert(tracks(d0, i, 1, 0));
    lemma_refilled(d0, i, 1, 0);
    let d1 = d0.refilled();
    lemma_refilled(d1, i, 2, 0);
    let d2 = d1.refilled();
    lemma_refilled(d2, i, 3, 0);
    let d3 = d2.refilled();
    assert(d0.renormalized() == d3) by {
        reveal_with_fuel(DecoderModel::renormalized, 4);
    }
    assert(e.renormalized() == e);
}

// ---------------------------------------------------------------------
// One coded value
// ---------------------------------------------------------------------

/// Placing `v` units of `r`, and keeping `keep` of the interval, narrows
/// the interval of the renormalised encoder.
proof fn lemma_placed(e: EncoderModel, v: nat, r: nat, keep: nat, i: BitModel)
    requires
        sound(e),
        keep > 0,
        v * r + keep <= e.renormalized().range,
    ensures
        ({
            let after = EncoderModel { range: keep, ..e.placed(v, r) };
            let en = e.renormalized();
            &&& sound(after)
            &&& total(after) == total(en) + v * r
            &&& after.out.len() == en.out.len()
            &&& covers(after, i) ==> covers(en, i) && covers(e, i)
        }),
{
    let en = e.renormalized();
    lemma_renormalized_covers(e, i);
    let amount = v * r;
    assert(amount % word_modulus() == amount);
    let sum = en.low + amount;
    let start = EncoderModel { range: r, ..en };
    let after = EncoderModel { range: keep, ..e.placed(v, r) };
    assert(sum % word_modulus() == sum);
    if sum >= TOP_VALUE {
        assert(bytes_value(en.out) + 1 < pow256(en.out.len()));
        lemma_bumped_value(en.out);
    }
    assert(total(after) == total(en) + amount);
}

/// The decoder side of a placed value: `low` falls into the `v`-th unit.
proof fn lemma_unit(low: nat, v: nat, r: nat)
    requires
        r > 0,
        v * r <= low < v * r + r,
    ensures
        low / r == v,
        low % r == low - v * r,
{
    lemma_fundamental_div_mod_converse(low as int, r as int, v as int, low - v * r);
}

/// What an encoder wrote with a unit range `r`, the decoder reads back.
proof fn lemma_placed_round_trip(
    d: DecoderModel,
    e: EncoderModel,
    i: BitModel,
    v: nat,
    r: nat,
    keep: nat,
)
    requires
        paired(d, e, i),
        keep > 0,
        v * r + keep <= e.renormalized().range,
        covers(EncoderModel { range: keep, ..e.placed(v, r) }, i),
    ensures
        covers(e, i),
        v * r <= d.renormalized().low < v * r + keep,
        d.renormalized().low < word_modulus(),
        ({
            let dn = d.renormalized();
            let after = EncoderModel { range: keep, ..e.placed(v, r) };
            let rest = DecoderModel { low: (dn.low - v * r) as nat, range: keep, ..dn };
            paired(rest, after, i)
        }),
{
    lemma_placed(e, v, r, keep, i);
    let dn = d.renormalized();
    let after = EncoderModel { range: keep, ..e.placed(v, r) };
    let rest = DecoderModel { low: (dn.low - v * r) as nat, range: keep, ..dn };
    lemma_renormalized_covers(e, i);
    lemma_renormalized_overrun(d);
    lemma_renormalize_together(rest, after, i);
}


/// A value of `[0, 2^shift)` is read back as it was written, as long as
/// the interval does not become empty; with `shift <= 23` it never does.
pub proof fn lemma_bits_round_trip(
    d: DecoderModel,
    e: EncoderModel,
    i: BitModel,
    v: nat,
    shift: nat,
)
    requires
        paired(d, e, i),
        v < pow2(shift),
        e.renormalized().range / pow2(shift) > 0,
        covers(e.bits(v, shift), i),
    ensures
        covers(e, i),
        d.bits(shift).1 == Ok::<u32, Error>(v as u32),
        v <= u32::MAX,
        paired(d.bits(shift).0, e.bits(v, shift), i),
{
    reveal(DecoderModel::bits);
    reveal(EncoderModel::bits);
    lemma_pow2_pos(shift);
    lemma_base_core(d, e, i, v, pow2(shift));
}

/// A value of `[0, divisor)` is read back as it was written, as long as
/// the interval does not become empty.
pub proof fn lemma_base_round_trip(
    d: DecoderModel,
    e: EncoderModel,
    i: BitModel,
    v: nat,
    divisor: nat,
)
    requires
        paired(d, e, i),
        v < divisor,
        e.renormalized().range / divisor > 0,
        covers(e.base(v, divisor), i),
    ensures
        covers(e, i),
        d.base(divisor).1 == Ok::<u32, Error>(v as u32),
        v <= u32::MAX,
        paired(d.base(divisor).0, e.base(v, divisor), i),
{
    reveal(DecoderModel::base);
    reveal(EncoderModel::base);
    lemma_base_core(d, e, i, v, divisor);
}

proof fn lemma_base_core(d: DecoderModel, e: EncoderModel, i: BitModel, v: nat, parts: nat)
    requires
        paired(d, e, i),
        v < parts,
        e.renormalized().range / parts > 0,
        covers(e.placed(v, e.renormalized().range / parts), i),
    ensures
        covers(e, i),
        ({
            let r = e.renormalized().range / parts;
            let dn = d.renormalized();
            let rest = DecoderModel { low: dn.low % r, range: r, ..dn };
            &&& dn.range / parts == r
            &&& r <= u32::MAX
            &&& dn.low / r == v
            &&& v <= u32::MAX
            &&& paired(rest, e.placed(v, r), i)
        }),
{
    let en = e.renormalized();
    let dn = d.renormalized();
    let r = en.range / parts;
    lemma_renormalized_covers(e, i);
    assert(v * r + r <= en.range) by {
        assert(v * r + r == (v + 1) * r) by (nonlinear_arith);
        assert((v + 1) * r <= parts * r) by (nonlinear_arith)
            requires
                v + 1 <= parts,
        ;
        assert(parts * r <= en.range) by {
            lemma_fundamental_div_mod(en.range as int, parts as int);
        }
    }
    assert(EncoderModel { range: r, ..e.placed(v, r) } == e.placed(v, r));
    lemma_placed(e, v, r, r, i);
    lemma_placed_round_trip(d, e, i, v, r, r);
    lemma_unit(dn.low, v, r);
    assert(v <= dn.low) by (nonlinear_arith)
        requires
            v * r <= dn.low,
            r >= 1,
    ;
    assert(r <= en.range) by (nonlinear_arith)
        requires
            v * r + r <= en.range,
    ;
}

/// A distance inside `width` units from the `cumfreq`-th on.
proof fn lemma_part_of(low: nat, cumfreq: nat, width: nat, r: nat)
    requires
        r > 0,
        cumfreq * r <= low < cumfreq * r + r * width,
    ensures
        cumfreq <= low / r < cumfreq + width,
        low / r <= low,
{
    let cf = low / r;
    lemma_fundamental_div_mod(low as int, r as int);
    lemma_mod_bound(low as int, r as int);
    assert(r * cf == cf * r) by (nonlinear_arith);
    assert(cumfreq <= cf) by (nonlinear_arith)
        requires
            cumfreq * r <= low,
            low < cf * r + r,
            r > 0,
    {
        if cumfreq >= cf + 1 {
            assert(cumfreq * r >= (cf + 1) * r);
        }
    }
    assert(cf < cumfreq + width) by (nonlinear_arith)
        requires
            low < cumfreq * r + r * width,
            cf * r <= low,
            r > 0,
    {
        if cf >= cumfreq + width {
            assert(cf * r >= (cumfreq + width) * r);
        }
    }
    assert(cf <= low) by (nonlinear_arith)
        requires
            cf * r <= low,
            r >= 1,
    ;
}

/// A symbol that occupies `[cumfreq, cumfreq + width)` of `2^shift` is
/// read back: the decoder sees a value of that interval, and taking the
/// symbol off leaves both sides in step.
pub proof fn lemma_interval_round_trip(
    d: DecoderModel,
    e: EncoderModel,
    i: BitModel,
    cumfreq: nat,
    width: nat,
    shift: nat,
)
    requires
        paired(d, e, i),
        width > 0,
        cumfreq + width <= pow2(shift),
        e.renormalized().range / pow2(shift) > 0,
        covers(e.interval(cumfreq, width, shift), i),
    ensures
        covers(e, i),
        d.culfreq(shift).1 is Ok,
        cumfreq <= d.culfreq(shift).1->Ok_0 < cumfreq + width,
        paired(
            d.culfreq(shift).0.consumed(cumfreq, width),
            e.interval(cumfreq, width, shift),
            i,
        ),
{
    lemma_pow2_pos(shift);
    let parts = pow2(shift);
    let en = e.renormalized();
    let dn = d.renormalized();
    let r = en.range / parts;
    let keep = r * width;
    lemma_renormalized_covers(e, i);
    lemma_parts_fit(en.range, cumfreq, width, parts);
    assert(e.interval(cumfreq, width, shift) == EncoderModel { range: keep, ..e.placed(
        cumfreq,
        r,
    ) }) by {
        reveal(EncoderModel::interval);
    }
    lemma_placed_round_trip(d, e, i, cumfreq, r, keep);
    lemma_part_of(dn.low, cumfreq, width, r);
    let scaled = d.scaled(r);
    assert(d.culfreq(shift) == (scaled, Ok::<u32, Error>((dn.low / r) as u32))) by {
        reveal(DecoderModel::culfreq);
    }
    lemma_consumed_exact(scaled, cumfreq, width);
}

/// Taking parts off that are there.
proof fn lemma_consumed_exact(d: DecoderModel, cumfreq: nat, width: nat)
    requires
        cumfreq * d.range <= d.low < word_modulus(),
        d.range * width < word_modulus(),
    ensures
        d.consumed(cumfreq, width) == (DecoderModel {
            low: (d.low - cumfreq * d.range) as nat,
            range: d.range * width,
            ..d
        }),
{
    reveal(DecoderModel::consumed);
    assert(d.range * cumfreq == cumfreq * d.range) by (nonlinear_arith);
    let taken = cumfreq * d.range;
    assert(taken >= 0) by (nonlinear_arith)
        requires
            taken == cumfreq * d.range,
            cumfreq >= 0,
            d.range >= 0,
    ;
    assert(taken % word_modulus() == taken);
    assert((d.low - taken) % (word_modulus() as int) == d.low - taken);
}

/// `width` of `parts` units, from the `v`-th on, fit into a range.
proof fn lemma_parts_fit(range: nat, v: nat, width: nat, parts: nat)
    requires
        0 < range <= TOP_VALUE,
        width > 0,
        v + width <= parts,
        range / parts > 0,
    ensures
        ({
            let r = range / parts;
            &&& v * r + r * width <= range
            &&& r * width > 0
            &&& (r * width) % word_modulus() == r * width
            &&& (r * v) % word_modulus() == v * r
            &&& width == 1 ==> r * width == r
        }),
{
    let r = range / parts;
    assert(v * r + r * width == (v + width) * r) by (nonlinear_arith);
    assert((v + width) * r <= parts * r) by (nonlinear_arith)
        requires
            v + width <= parts,
    ;
    lemma_fundamental_div_mod(range as int, parts as int);
    assert(r * width > 0) by (nonlinear_arith)
        requires
            r > 0,
            width > 0,
    ;
    assert(r * v == v * r) by (nonlinear_arith);
    assert(v * r >= 0) by (nonlinear_arith)
        requires
            v >= 0,
            r >= 0,
    ;
}

// ---------------------------------------------------------------------
// Whole streams
// ---------------------------------------------------------------------

proof fn lemma_prefix_value(i: BitModel, s: Seq<u8>, m: nat)
    requires
        stream_starts_with(i, s),
        m <= s.len(),
    ensures
        stream_prefix(i, m) == bytes_value(s.take(m as int)),
    decreases m,
{
    if m > 0 {
        let k = (m - 1) as nat;
        lemma_prefix_value(i, s, k);
        assert(s.take(m as int) =~= s.take(k as int).push(s[k as int]));
        lemma_push_value(s.take(k as int), s[k as int]);
        assert(byte_at_bit(i.data, i.le_words, (i.bit_pos + 8 * (k as int)) as nat) == s[k as int]);
    }
}

/// Four shifts empty the window.
proof fn lemma_four_shifts(l0: nat)
    ensures
        ({
            let l1 = (l0 % 0x80_0000) * 256;
            let l2 = (l1 % 0x80_0000) * 256;
            let l3 = (l2 % 0x80_0000) * 256;
            (l3 % 0x80_0000) * 256 == 0
        }),
{
    let b = l0 % 0x80_0000;
    let d = b % 0x8000;
    let c = b / 0x8000;
    assert(b * 256 == c * 0x80_0000 + d * 256);
    assert((b * 256) % 0x80_0000 == d * 256);
    let f = d / 0x80;
    let g = d % 0x80;
    assert(d * 0x1_0000 == f * 0x80_0000 + g * 0x1_0000);
    assert((d * 0x1_0000) % 0x80_0000 == g * 0x1_0000);
    assert((g * 0x100_0000) % 0x80_0000 == 0);
}

/// A stream that starts with the flushed bytes of an encoder lies inside
/// its last interval.
pub proof fn lemma_flushed_covers(e: EncoderModel, i: BitModel)
    requires
        sound(e),
        stream_starts_with(i, e.flushed()),
    ensures
        covers(e, i),
        e.flushed().len() == e.out.len() + 4,
{
    let e1 = e.shifted();
    let e2 = e1.shifted();
    let e3 = e2.shifted();
    let e4 = e3.shifted();
    lemma_shifted_total(e);
    lemma_shifted_total(e1);
    lemma_shifted_total(e2);
    lemma_shifted_total(e3);
    lemma_four_shifts(e.low);
    assert(e4.low == 0);
    assert(total(e4) == total(e) * 0x1_0000_0000);
    let s = e.flushed();
    assert(s.take(s.len() as int) =~= s);
    lemma_prefix_value(i, s, s.len());
    assert(bytes_value(s) * 0x8000_0000 == total(e) * 0x1_0000_0000);
    assert(bytes_value(s) == 2 * total(e));
}

/// A value handed to a [`crate::range_coder::RangeEncoder`].
pub ghost enum CodedValue {
    /// `v` in `[0, 2^shift)`.
    Bits { v: nat, shift: nat },
    /// `v` in `[0, divisor)`.
    Base { v: nat, divisor: nat },
    /// The symbol at `[cumfreq, cumfreq + width)` of `2^shift`.
    Interval { cumfreq: nat, width: nat, shift: nat },
}

impl CodedValue {
    /// The value lies in the range that it is coded with.
    pub open spec fn in_range(self) -> bool {
        match self {
            CodedValue::Bits { v, shift } => v < pow2(shift),
            CodedValue::Base { v, divisor } => v < divisor,
            CodedValue::Interval { cumfreq, width, shift } => width > 0 && cumfreq + width <= pow2(
                shift,
            ),
        }
    }

    /// The number of parts that the interval is cut into.
    pub open spec fn parts(self) -> nat {
        match self {
            CodedValue::Bits { v, shift } => pow2(shift),
            CodedValue::Base { v, divisor } => divisor,
            CodedValue::Interval { cumfreq, width, shift } => pow2(shift),
        }
    }

    /// The encoder after this value.
    pub open spec fn write(self, e: EncoderModel) -> EncoderModel {
        match self {
            CodedValue::Bits { v, shift } => e.bits(v, shift),
            CodedValue::Base { v, divisor } => e.base(v, divisor),
            CodedValue::Interval { cumfreq, width, shift } => e.interval(cumfreq, width, shift),
        }
    }

    /// The decoder after this value.
    pub open spec fn read(self, d: DecoderModel) -> DecoderModel {
        match self {
            CodedValue::Bits { v, shift } => d.bits(shift).0,
            CodedValue::Base { v, divisor } => d.base(divisor).0,
            CodedValue::Interval { cumfreq, width, shift } => d.culfreq(shift).0.consumed(
                cumfreq,
                width,
            ),
        }
    }

    /// What the decoder reports is this value; for a symbol, a number
    /// inside its interval.
    pub open spec fn is_read_by(self, d: DecoderModel) -> bool {
        match self {
            CodedValue::Bits { v, shift } => d.bits(shift).1 == Ok::<u32, Error>(v as u32) && v
                <= u32::MAX,
            CodedValue::Base { v, divisor } => d.base(divisor).1 == Ok::<u32, Error>(v as u32) && v
                <= u32::MAX,
            CodedValue::Interval { cumfreq, width, shift } => {
                &&& d.culfreq(shift).1 is Ok
                &&& cumfreq <= d.culfreq(shift).1->Ok_0 < cumfreq + width
            },
        }
    }
}

/// The encoder after all `values`.
pub open spec fn write_all(values: Seq<CodedValue>, e: EncoderModel) -> EncoderModel
    decreases values.len(),
{
    if values.len() == 0 {
        e
    } else {
        values.last().write(write_all(values.drop_last(), e))
    }
}

/// The decoder after all `values`.
pub open spec fn read_all(values: Seq<CodedValue>, d: DecoderModel) -> DecoderModel
    decreases values.len(),
{
    if values.len() == 0 {
        d
    } else {
        values.last().read(read_all(values.drop_last(), d))
    }
}

/// Writing one value.
pub proof fn lemma_write_one(a: CodedValue, e: EncoderModel)
    ensures
        write_all(seq![a], e) == a.write(e),
{
    assert(seq![a].drop_last() =~= Seq::<CodedValue>::empty());
    assert(write_all(Seq::<CodedValue>::empty(), e) == e);
}

/// Writing two values.
pub proof fn lemma_write_two(a: CodedValue, b: CodedValue, e: EncoderModel)
    ensures
        write_all(seq![a, b], e) == b.write(a.write(e)),
{
    lemma_write_one(a, e);
    assert(seq![a, b].drop_last() =~= seq![a]);
}

/// Writing three values.
pub proof fn lemma_write_three(a: CodedValue, b: CodedValue, c: CodedValue, e: EncoderModel)
    ensures
        write_all(seq![a, b, c], e) == c.write(b.write(a.write(e))),
{
    lemma_write_two(a, b, e);
    assert(seq![a, b, c].drop_last() =~= seq![a, b]);
}

/// Writing two runs of values.
pub proof fn lemma_write_concat(a: Seq<CodedValue>, b: Seq<CodedValue>, e: EncoderModel)
    ensures
        write_all(a + b, e) == write_all(b, write_all(a, e)),
    decreases b.len(),
{
    if b.len() == 0 {
        assert(a + b =~= a);
    } else {
        lemma_write_concat(a, b.drop_last(), e);
        assert((a + b).drop_last() =~= a + b.drop_last());
    }
}

/// A normalised range can be cut into up to `2^23` parts.
proof fn lemma_room(range: nat, parts: nat)
    requires
        range > BOTTOM_VALUE,
        0 < parts <= BOTTOM_VALUE,
    ensures
        range / parts > 0,
{
    lemma_div_is_ordered_by_denominator(range as int, parts as int, range as int);
    lemma_div_by_self(range as int);
}

/// `2^shift` parts for a small `shift`.
pub proof fn lemma_few_parts(shift: nat)
    requires
        shift <= 23,
    ensures
        0 < pow2(shift) <= BOTTOM_VALUE,
{
    lemma2_to64();
    lemma_pow2_pos(shift);
    if shift < 23 {
        lemma_pow2_strictly_increases(shift, 23);
    }
    assert(pow2(23) == 0x0080_0000);
}

/// Writing keeps the encoder sound unless it empties the interval, which
/// a value of up to `2^23` parts never does.
pub proof fn lemma_write_sound(value: CodedValue, e: EncoderModel, i: BitModel)
    requires
        sound(e),
        value.in_range(),
        value.parts() <= BOTTOM_VALUE || value.write(e).range > 0,
    ensures
        sound(value.write(e)),
        e.renormalized().range / value.parts() > 0,
        covers(value.write(e), i) ==> covers(e, i),
{
    reveal(EncoderModel::bits);
    reveal(EncoderModel::base);
    reveal(EncoderModel::interval);
    lemma_renormalized_covers(e, i);
    let en = e.renormalized();
    let parts = value.parts();
    if parts <= BOTTOM_VALUE {
        lemma_room(en.range, parts);
    }
    match value {
        CodedValue::Bits { v, shift } => {
            lemma_written_parts(e, v, 1, parts, i);
        },
        CodedValue::Base { v, divisor } => {
            lemma_written_parts(e, v, 1, parts, i);
        },
        CodedValue::Interval { cumfreq, width, shift } => {
            let r = en.range / parts;
            if r == 0 {
                assert(r * width == 0) by (nonlinear_arith)
                    requires
                        r == 0,
                ;
            }
            lemma_written_parts(e, cumfreq, width, parts, i);
        },
    }
}

proof fn lemma_written_parts(e: EncoderModel, v: nat, width: nat, parts: nat, i: BitModel)
    requires
        sound(e),
        width > 0,
        v + width <= parts,
        e.renormalized().range / parts > 0,
    ensures
        ({
            let r = e.renormalized().range / parts;
            let p = e.placed(v, r);
            let after = EncoderModel { range: (r * width) % word_modulus(), ..p };
            &&& p.range == r
            &&& sound(after)
            &&& covers(after, i) ==> covers(e, i)
            &&& width == 1 ==> after == p
        }),
{
    lemma_renormalized_covers(e, i);
    let en = e.renormalized();
    let r = en.range / parts;
    let keep = r * width;
    lemma_parts_fit(en.range, v, width, parts);
    lemma_placed(e, v, r, keep, i);
}

/// Reading a value back, one step.
pub proof fn lemma_value_round_trip(value: CodedValue, d: DecoderModel, e: EncoderModel, i: BitModel)
    requires
        paired(d, e, i),
        value.in_range(),
        covers(value.write(e), i),
    ensures
        value.is_read_by(d),
        covers(e, i),
        paired(value.read(d), value.write(e), i),
{
    lemma_write_sound(value, e, i);
    match value {
        CodedValue::Bits { v, shift } => {
            lemma_bits_round_trip(d, e, i, v, shift);
        },
        CodedValue::Base { v, divisor } => {
            lemma_base_round_trip(d, e, i, v, divisor);
        },
        CodedValue::Interval { cumfreq, width, shift } => {
            lemma_interval_round_trip(d, e, i, cumfreq, width, shift);
        },
    }
}

/// An interval that has become empty stays empty.
pub proof fn lemma_empty_stays_empty(value: CodedValue, e: EncoderModel)
    requires
        e.range == 0,
        value.parts() > 0,
    ensures
        value.write(e).range == 0,
{
    reveal(EncoderModel::bits);
    reveal(EncoderModel::base);
    reveal(EncoderModel::interval);
    assert(e.renormalized() == e);
    lemma_basic_div(0, value.parts() as int);
    match value {
        CodedValue::Bits { v, shift } => {},
        CodedValue::Base { v, divisor } => {},
        CodedValue::Interval { cumfreq, width, shift } => {
            assert(0 * width == 0) by (nonlinear_arith);
        },
    }
}

/// All values lie in their ranges.
pub open spec fn all_in_range(values: Seq<CodedValue>) -> bool {
    forall|k: int| 0 <= k < values.len() ==> (#[trigger] values[k]).in_range()
}

/// No value is cut into more than `2^23` parts.
pub open spec fn all_roomy(values: Seq<CodedValue>) -> bool {
    forall|k: int| 0 <= k < values.len() ==> (#[trigger] values[k]).parts() <= BOTTOM_VALUE
}

/// Writing values keeps the encoder sound unless they empty the interval,
/// which values of up to `2^23` parts never do.
pub proof fn lemma_write_all_sound(values: Seq<CodedValue>, e: EncoderModel, i: BitModel)
    requires
        sound(e),
        all_in_range(values),
        all_roomy(values) || write_all(values, e).range > 0,
    ensures
        sound(write_all(values, e)),
        covers(write_all(values, e), i) ==> covers(e, i),
    decreases values.len(),
{
    if values.len() > 0 {
        let head = values.drop_last();
        assert forall|k: int| 0 <= k < head.len() implies (#[trigger] head[k]).in_range() by {
            assert(head[k] == values[k]);
        }
        if all_roomy(values) {
            assert forall|k: int| 0 <= k < head.len() implies (#[trigger] head[k]).parts()
                <= BOTTOM_VALUE by {
                assert(head[k] == values[k]);
            }
        } else if write_all(head, e).range == 0 {
            assert(values.last().parts() > 0);
            lemma_empty_stays_empty(values.last(), write_all(head, e));
        }
        lemma_write_all_sound(head, e, i);
        lemma_write_sound(values.last(), write_all(head, e), i);
    }
}

/// Reading values back, one after the other.
pub proof fn lemma_read_all(values: Seq<CodedValue>, d: DecoderModel, e: EncoderModel, i: BitModel)
    requires
        paired(d, e, i),
        all_in_range(values),
        covers(write_all(values, e), i),
    ensures
        covers(e, i),
        paired(read_all(values, d), write_all(values, e), i),
        forall|k: int|
            0 <= k < values.len() ==> (#[trigger] values[k]).is_read_by(
                read_all(values.take(k), d),
            ),
    decreases values.len(),
{
    if values.len() > 0 {
        let head = values.drop_last();
        assert forall|k: int| 0 <= k < head.len() implies (#[trigger] head[k]).in_range() by {
            assert(head[k] == values[k]);
        }
        if write_all(head, e).range == 0 {
            assert(values.last().parts() > 0);
            lemma_empty_stays_empty(values.last(), write_all(head, e));
        }
        lemma_write_all_sound(head, e, i);
        lemma_write_sound(values.last(), write_all(head, e), i);
        lemma_read_all(head, d, e, i);
        lemma_value_round_trip(values.last(), read_all(head, d), write_all(head, e), i);
        assert forall|k: int| 0 <= k < values.len() implies (#[trigger] values[k]).is_read_by(
            read_all(values.take(k), d),
        ) by {
            if k < head.len() {
                assert(head[k] == values[k]);
                assert(head.take(k) =~= values.take(k));
            } else {
                assert(values.take(k) =~= head);
            }
        }
    }
}

/// An empty interval stays empty through a run of values.
pub proof fn lemma_empty_through(values: Seq<CodedValue>, e: EncoderModel)
    requires
        e.range == 0,
        all_in_range(values),
    ensures
        write_all(values, e).range == 0,
    decreases values.len(),
{
    if values.len() > 0 {
        let head = values.drop_last();
        assert forall|k: int| 0 <= k < head.len() implies (#[trigger] head[k]).in_range() by {
            assert(head[k] == values[k]);
        }
        lemma_empty_through(head, e);
        assert(values[values.len() - 1].in_range());
        lemma_empty_stays_empty(values.last(), write_all(head, e));
    }
}

/// A stream inside the interval after two runs of values is inside the
/// one after the first.
pub proof fn lemma_covers_between(
    a: Seq<CodedValue>,
    b: Seq<CodedValue>,
    e: EncoderModel,
    i: BitModel,
)
    requires
        sound(e),
        all_in_range(a),
        all_in_range(b),
        covers(write_all(b, write_all(a, e)), i),
    ensures
        covers(write_all(a, e), i),
        covers(e, i),
{
    let mid = write_all(a, e);
    if mid.range == 0 {
        lemma_empty_through(b, mid);
    }
    lemma_write_all_sound(a, e, i);
    lemma_write_all_sound(b, mid, i);
}

/// Adding one to a byte string keeps its length.
proof fn lemma_bumped_len(s: Seq<u8>)
    ensures
        bumped(s).len() == s.len(),
    decreases s.len(),
{
    if s.len() > 0 {
        lemma_bumped_len(s.drop_last());
    }
}

/// Renormalising takes back no output.
proof fn lemma_renormalized_grows(e: EncoderModel)
    ensures
        e.out.len() <= e.renormalized().out.len(),
{
    reveal_with_fuel(EncoderModel::renormalized, 5);
}

/// Writing values takes back no output.
pub proof fn lemma_output_grows(values: Seq<CodedValue>, e: EncoderModel)
    ensures
        e.out.len() <= write_all(values, e).out.len(),
    decreases values.len(),
{
    if values.len() > 0 {
        let mid = write_all(values.drop_last(), e);
        lemma_output_grows(values.drop_last(), e);
        lemma_renormalized_grows(mid);
        lemma_bumped_len(mid.renormalized().out);
        reveal(EncoderModel::bits);
        reveal(EncoderModel::base);
        reveal(EncoderModel::interval);
    }
}

/// After the first values the decoder is in step, behind the flush of
/// all values.
proof fn lemma_read_prefix(values: Seq<CodedValue>, k: int, i: BitModel)
    requires
        all_in_range(values),
        0 <= k <= values.len(),
        write_all(values, fresh_encoder()).range > 0,
        covers(write_all(values, fresh_encoder()), i),
    ensures
        paired(
            read_all(values.take(k), primed(i)),
            write_all(values.take(k), fresh_encoder()),
            i,
        ),
        write_all(values.take(k), fresh_encoder()).out.len() <= write_all(
            values,
            fresh_encoder(),
        ).out.len(),
{
    let a = values.take(k);
    let b = values.skip(k);
    assert(a + b =~= values);
    lemma_write_concat(a, b, fresh_encoder());
    lemma_fresh_in_step(i);
    assert forall|j: int| 0 <= j < b.len() implies (#[trigger] b[j]).in_range() by {
        assert(b[j] == values[k + j]);
    }
    lemma_covers_between(a, b, fresh_encoder(), i);
    lemma_read_all(a, primed(i), fresh_encoder(), i);
    lemma_output_grows(b, write_all(a, fresh_encoder()));
}

/// Whatever a fresh encoder writes, a decoder that is primed over the
/// flushed bytes reads back, value by value, in the order of writing, as
/// long as the values did not empty the interval. What follows the
/// flushed bytes in the stream makes no difference. The decoder never
/// reads past the flushed bytes.
pub proof fn law_range_coder_round_trip(values: Seq<CodedValue>, i: BitModel)
    requires
        all_in_range(values),
        write_all(values, fresh_encoder()).range > 0,
        stream_starts_with(i, write_all(values, fresh_encoder()).flushed()),
    ensures
        forall|k: int|
            0 <= k < values.len() ==> (#[trigger] values[k]).is_read_by(
                read_all(values.take(k), primed(i)),
            ),
        forall|k: int|
            0 <= k <= values.len() ==> (#[trigger] read_all(
                values.take(k),
                primed(i),
            )).input.bit_pos <= i.bit_pos + 8 * write_all(values, fresh_encoder()).flushed().len(),
        forall|k: int|
            0 <= k <= values.len() && i.bit_pos + 8 * write_all(
                values,
                fresh_encoder(),
            ).flushed().len() <= 8 * i.data.len() ==> (#[trigger] read_all(
                values.take(k),
                primed(i),
            )).input.overrun == i.overrun,
{
    let e = write_all(values, fresh_encoder());
    lemma_fresh_in_step(i);
    lemma_write_all_sound(values, fresh_encoder(), i);
    lemma_flushed_covers(e, i);
    lemma_read_all(values, primed(i), fresh_encoder(), i);
    assert forall|k: int| 0 <= k <= values.len() implies {
        let d = #[trigger] read_all(values.take(k), primed(i));
        &&& d.input.bit_pos <= i.bit_pos + 8 * e.flushed().len()
        &&& i.bit_pos + 8 * e.flushed().len() <= 8 * i.data.len() ==> d.input.overrun == i.overrun
    } by {
        lemma_read_prefix(values, k, i);
    }
}

/// The bit array over `bytes`, from the first bit on.
pub open spec fn input_over(bytes: Seq<u8>) -> BitModel {
    BitModel { data: bytes, le_words: false, bit_pos: 0, overrun: 0 }
}

/// A byte string is what a bit array over it starts with.
pub proof fn lemma_input_over(bytes: Seq<u8>)
    ensures
        stream_starts_with(input_over(bytes), bytes),
{
    let i = input_over(bytes);
    assert forall|j: int| 0 <= j < bytes.len() implies #[trigger] byte_at_bit(
        i.data,
        i.le_words,
        (i.bit_pos + 8 * j) as nat,
    ) == bytes[j] by {
        lemma_aligned_byte(bytes, false, j as nat);
    }
}

/// The flush covers what the decoder reads ahead: reading back what
/// [`crate::range_coder::RangeEncoder::finish`] returned needs no byte
/// past its end.
pub proof fn law_flush_covers_the_lookahead(values: Seq<CodedValue>, k: int)
    requires
        all_in_range(values),
        write_all(values, fresh_encoder()).range > 0,
        0 <= k <= values.len(),
    ensures
        ({
            let bytes = write_all(values, fresh_encoder()).flushed();
            let d = read_all(values.take(k), primed(input_over(bytes)));
            &&& k < values.len() ==> values[k].is_read_by(d)
            &&& d.input.bit_pos <= 8 * bytes.len()
            &&& d.input.overrun == 0
        }),
{
    let bytes = write_all(values, fresh_encoder()).flushed();
    lemma_input_over(bytes);
    law_range_coder_round_trip(values, input_over(bytes));
}

/// The values of a run of arbitrary radices.
pub open spec fn base_values(values: Seq<nat>, divisors: Seq<nat>) -> Seq<CodedValue> {
    Seq::new(values.len(), |k: int| CodedValue::Base { v: values[k], divisor: divisors[k] })
}

/// A run of values below arbitrary radices of up to `2^23` is read back
/// from the flushed bytes, without a read past their end. A radix of zero
/// is refused and changes nothing.
pub proof fn law_base_sequence_round_trip(values: Seq<nat>, divisors: Seq<nat>, k: int)
    requires
        values.len() == divisors.len(),
        forall|j: int| 0 <= j < values.len() ==> #[trigger] values[j] < divisors[j],
        forall|j: int| 0 <= j < divisors.len() ==> #[trigger] divisors[j] <= BOTTOM_VALUE,
        0 <= k < values.len(),
    ensures
        ({
            let parts = base_values(values, divisors);
            let bytes = write_all(parts, fresh_encoder()).flushed();
            let d = read_all(parts.take(k), primed(input_over(bytes)));
            let next = read_all(parts.take(k + 1), primed(input_over(bytes)));
            &&& d.base(divisors[k]) == (next, Ok::<u32, Error>(values[k] as u32))
            &&& values[k] <= u32::MAX
            &&& d.input.overrun == 0
            &&& next.input.overrun == 0
            &&& next.input.bit_pos <= 8 * bytes.len()
            &&& d.base(0) == (
                d,
                Err::<u32, Error>(Error::CorruptStream("zero divisor in decode_base")),
            )
        }),
{
    let parts = base_values(values, divisors);
    assert forall|j: int| 0 <= j < parts.len() implies (#[trigger] parts[j]).in_range()
        && parts[j].parts() <= BOTTOM_VALUE by {
        assert(values[j] < divisors[j]);
        assert(divisors[j] <= BOTTOM_VALUE);
    }
    law_small_values_keep_the_interval(parts);
    law_flush_covers_the_lookahead(parts, k);
    law_flush_covers_the_lookahead(parts, k + 1);
    assert(parts.take(k + 1).drop_last() =~= parts.take(k));
    assert(parts.take(k + 1).last() == parts[k]);
    reveal(DecoderModel::base);
}

/// Values of up to `2^23` parts, such as fields of up to 23 bits, never
/// empty the interval.
pub proof fn law_small_values_keep_the_interval(values: Seq<CodedValue>)
    requires
        all_in_range(values),
        all_roomy(values),
    ensures
        write_all(values, fresh_encoder()).range > 0,
{
    let i = BitModel { data: Seq::empty(), le_words: false, bit_pos: 0, overrun: 0 };
    lemma_fresh_in_step(i);
    lemma_write_all_sound(values, fresh_encoder(), i);
}

/// A byte-aligned position reads whole bytes of the buffer.
pub proof fn lemma_aligned_byte(data: Seq<u8>, le_words: bool, j: nat)
    ensures
        byte_at_bit(data, le_words, 8 * j) == ordered_byte(data, le_words, j as int),
{
    reveal(byte_at_bit);
    lemma2_to64();
    assert((8 * j) as int / 8 == j as int);
    assert((8 * j) % 8 == 0);
    let a = ordered_byte(data, le_words, j as int);
    let b = ordered_byte(data, le_words, j as int + 1);
    assert((a * 256 + b) / 256 == a);
}

/// Fields of eight bits.
pub open spec fn byte_fields(bytes: Seq<u8>) -> Seq<CodedValue> {
    Seq::new(bytes.len(), |k: int| CodedValue::Bits { v: bytes[k] as nat, shift: 8 })
}

proof fn lemma_byte_field(e: EncoderModel, b: u8)
    requires
        e.range == 0x8000_0000 && e.low == 0 || e.range == 0x80_0000 && e.low % 0x80_0000 == 0
            && e.low < 0x8000_0000,
    ensures
        ({
            let next = e.bits(b as nat, 8);
            &&& next.range == 0x80_0000
            &&& next.low == b * 0x80_0000
            &&& e.range == 0x8000_0000 ==> next.out == e.out
            &&& e.range == 0x80_0000 ==> next.out == e.out.push((e.low / 0x80_0000) as u8)
        }),
{
    reveal(EncoderModel::bits);
    reveal_with_fuel(EncoderModel::renormalized, 3);
    lemma2_to64();
    assert(b * 0x80_0000 < 0x8000_0000);
}

proof fn lemma_byte_fields(bytes: Seq<u8>)
    requires
        bytes.len() > 0,
    ensures
        ({
            let e = write_all(byte_fields(bytes), fresh_encoder());
            &&& e.range == 0x80_0000
            &&& e.low == bytes.last() * 0x80_0000
            &&& e.out == bytes.drop_last()
        }),
    decreases bytes.len(),
{
    let head = bytes.drop_last();
    let fields = byte_fields(bytes);
    assert(fields.drop_last() =~= byte_fields(head));
    assert(fields.last() == (CodedValue::Bits { v: bytes.last() as nat, shift: 8 }));
    let e = write_all(byte_fields(head), fresh_encoder());
    if head.len() == 0 {
        assert(head =~= Seq::<u8>::empty());
        assert(e == fresh_encoder());
    } else {
        lemma_byte_fields(head);
        assert(head.drop_last().push(head.last()) =~= head);
        assert((head.last() * 0x80_0000) / 0x80_0000 == head.last());
        assert((head.last() * 0x80_0000) % 0x80_0000 == 0);
    }
    lemma_byte_field(e, bytes.last());
}

/// Fields of eight bits are coded as they are: the stream of any bytes is
/// these bytes, and three zeros from the flush.
pub proof fn law_bytes_are_coded_as_they_are(bytes: Seq<u8>)
    requires
        bytes.len() > 0,
    ensures
        write_all(byte_fields(bytes), fresh_encoder()).flushed() == bytes + seq![0u8, 0, 0],
{
    lemma_byte_fields(bytes);
    let e = write_all(byte_fields(bytes), fresh_encoder());
    assert((bytes.last() * 0x80_0000) / 0x80_0000 == bytes.last());
    assert((bytes.last() * 0x80_0000) % 0x80_0000 == 0);
    assert(e.flushed() =~= bytes.drop_last().push(bytes.last()) + seq![0u8, 0, 0]);
    assert(bytes.drop_last().push(bytes.last()) =~= bytes);
}

/// One value below a radix, coded alone: the stream is a number of 32
/// bits, twice as many units as the value says, a unit being the largest
/// whole part of `2^31` that fits the radix. Nothing coded is zeros.
pub proof fn law_one_value_stream(v: nat, divisor: nat)
    requires
        v < divisor <= BOTTOM_VALUE,
    ensures
        ({
            let stream = CodedValue::Base { v, divisor }.write(fresh_encoder()).flushed();
            &&& stream.len() == 4
            &&& bytes_value(stream) == 2 * (v * (0x8000_0000nat / divisor))
        }),
        fresh_encoder().flushed() == seq![0u8, 0, 0, 0],
{
    reveal(EncoderModel::base);
    let f = fresh_encoder();
    assert(f.renormalized() == f);
    let value = CodedValue::Base { v, divisor };
    let i = input_over(Seq::empty());
    lemma_fresh_in_step(i);
    lemma_write_sound(value, f, i);
    let e = value.write(f);
    let r = 0x8000_0000nat / divisor;
    lemma_fundamental_div_mod(0x8000_0000, divisor as int);
    assert(v * r + r <= 0x8000_0000) by (nonlinear_arith)
        requires
            v + 1 <= divisor,
            divisor * r <= 0x8000_0000,
            r >= 0,
    ;
    lemma_room(0x8000_0000, divisor);
    lemma_placed(f, v, r, r, i);
    assert(total(e) == v * r);
    let s = e.flushed();
    lemma_input_over(s);
    lemma_flushed_value(e);
    assert(f.flushed() =~= seq![0u8, 0, 0, 0]);
}

/// The flushed bytes as a number.
proof fn lemma_flushed_value(e: EncoderModel)
    requires
        sound(e),
    ensures
        bytes_value(e.flushed()) == 2 * total(e),
        e.flushed().len() == e.out.len() + 4,
{
    let e1 = e.shifted();
    let e2 = e1.shifted();
    let e3 = e2.shifted();
    let e4 = e3.shifted();
    lemma_shifted_total(e);
    lemma_shifted_total(e1);
    lemma_shifted_total(e2);
    lemma_shifted_total(e3);
    lemma_four_shifts(e.low);
    assert(e4.low == 0);
    assert(total(e4) == total(e) * 0x1_0000_0000);
    assert(bytes_value(e.flushed()) * 0x8000_0000 == total(e) * 0x1_0000_0000);
}

/// A window of eight bits that moves by one.
proof fn lemma_window_moves(a: u32, b: u32, c: u32, p: int)
    requires
        a < 256,
        b < 256,
        c < 256,
        p == 2 || p == 4 || p == 8 || p == 16 || p == 32 || p == 64 || p == 128 || p == 256,
    ensures
        ((a * 256 + b) / (p / 2)) % 256 == (2 * (((a * 256 + b) / p) % 256)) % 256 + (((b * 256
            + c) / p) % 256) / 128,
{
    let x = (a * 256 + b) as u32;
    let y = (b * 256 + c) as u32;
    assert(x % 256 == b && y / 256 == b);
    if p == 2 {
        assert((x / 1) % 256 == (2 * ((x / 2) % 256)) % 256 + ((y / 2) % 256) / 128)
            by (bit_vector)
            requires
                x % 256 == y / 256,
                x < 0x1_0000,
                y < 0x1_0000,
        ;
    } else if p == 4 {
        assert((x / 2) % 256 == (2 * ((x / 4) % 256)) % 256 + ((y / 4) % 256) / 128)
            by (bit_vector)
            requires
                x % 256 == y / 256,
                x < 0x1_0000,
                y < 0x1_0000,
        ;
    } else if p == 8 {
        assert((x / 4) % 256 == (2 * ((x / 8) % 256)) % 256 + ((y / 8) % 256) / 128)
            by (bit_vector)
            requires
                x % 256 == y / 256,
                x < 0x1_0000,
                y < 0x1_0000,
        ;
    } else if p == 16 {
        assert((x / 8) % 256 == (2 * ((x / 16) % 256)) % 256 + ((y / 16) % 256) / 128)
            by (bit_vector)
            requires
                x % 256 == y / 256,
                x < 0x1_0000,
                y < 0x1_0000,
        ;
    } else if p == 32 {
        assert((x / 16) % 256 == (2 * ((x / 32) % 256)) % 256 + ((y / 32) % 256) / 128)
            by (bit_vector)
            requires
                x % 256 == y / 256,
                x < 0x1_0000,
                y < 0x1_0000,
        ;
    } else if p == 64 {
        assert((x / 32) % 256 == (2 * ((x / 64) % 256)) % 256 + ((y / 64) % 256) / 128)
            by (bit_vector)
            requires
                x % 256 == y / 256,
                x < 0x1_0000,
                y < 0x1_0000,
        ;
    } else if p == 128 {
        assert((x / 64) % 256 == (2 * ((x / 128) % 256)) % 256 + ((y / 128) % 256) / 128)
            by (bit_vector)
            requires
                x % 256 == y / 256,
                x < 0x1_0000,
                y < 0x1_0000,
        ;
    } else {
        assert((x / 128) % 256 == (2 * ((x / 256) % 256)) % 256 + ((y / 256) % 256) / 128)
            by (bit_vector)
            requires
                x % 256 == y / 256,
                x < 0x1_0000,
                y < 0x1_0000,
        ;
    }
}

/// The eight bits at bit `r` of two bytes.
#[verifier::opaque]
spec fn window(a: nat, b: nat, r: nat) -> nat {
    ((a * 256 + b) / pow2((8 - r) as nat)) % 256
}

proof fn lemma_windows(a: nat, b: nat, c: nat, r: nat)
    requires
        a < 256,
        b < 256,
        c < 256,
        r < 8,
    ensures
        r < 7 ==> window(a, b, r + 1) == (2 * window(a, b, r)) % 256 + window(b, c, r) / 128,
        r == 7 ==> window(b, c, 0) == (2 * window(a, b, r)) % 256 + window(b, c, r) / 128,
{
    reveal(window);
    lemma2_to64();
    let (s, t, u) = (a as u32, b as u32, c as u32);
    if r == 0 {
        lemma_window_moves(s, t, u, 256);
    } else if r == 1 {
        lemma_window_moves(s, t, u, 128);
    } else if r == 2 {
        lemma_window_moves(s, t, u, 64);
    } else if r == 3 {
        lemma_window_moves(s, t, u, 32);
    } else if r == 4 {
        lemma_window_moves(s, t, u, 16);
    } else if r == 5 {
        lemma_window_moves(s, t, u, 8);
    } else if r == 6 {
        lemma_window_moves(s, t, u, 4);
    } else {
        lemma_window_moves(s, t, u, 2);
        assert((b * 256 + c) / 256 == b);
        assert((a * 256 + b) % 256 == b);
    }
}

/// The eight bits at bit `i`, as a window.
proof fn lemma_byte_is_window(data: Seq<u8>, le_words: bool, i: nat, j: int, r: nat)
    requires
        i == 8 * j + r,
        r < 8,
    ensures
        byte_at_bit(data, le_words, i) == window(
            ordered_byte(data, le_words, j),
            ordered_byte(data, le_words, j + 1),
            r,
        ),
{
    reveal(byte_at_bit);
    reveal(window);
    assert(i as int / 8 == j && i % 8 == r);
}

/// The bits of an input follow each other: the eight bits one place
/// further are the same without the first, and the first of the eight
/// bits behind them.
pub proof fn law_bits_are_contiguous(data: Seq<u8>, le_words: bool, i: nat)
    ensures
        byte_at_bit(data, le_words, i + 1) == (2 * byte_at_bit(data, le_words, i)) % 256
            + byte_at_bit(data, le_words, i + 8) / 128,
{
    let j = i as int / 8;
    let r = i % 8;
    let a = ordered_byte(data, le_words, j);
    let b = ordered_byte(data, le_words, j + 1);
    let c = ordered_byte(data, le_words, j + 2);
    lemma_windows(a, b, c, r);
    lemma_byte_is_window(data, le_words, i, j, r);
    lemma_byte_is_window(data, le_words, i + 8, j + 1, r);
    if r == 7 {
        lemma_byte_is_window(data, le_words, i + 1, j + 1, 0);
    } else {
        lemma_byte_is_window(data, le_words, i + 1, j, r + 1);
    }
}

} // verus!
