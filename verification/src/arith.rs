//! Wrapping 32-bit arithmetic, and division with a definite rounding.

use vstd::arithmetic::div_mod::*;
use vstd::arithmetic::power2::*;
use vstd::bits::*;
use vstd::prelude::*;

verus! {

/// The number in the range of `i32` that equals `x` modulo `2^32`.
pub open spec fn wrap32(x: int) -> int {
    (x + 0x8000_0000) % 0x1_0000_0000 - 0x8000_0000
}

/// Wrapping is the identity on the range of `i32`, and depends on the
/// residue only.
pub proof fn lemma_wrap32(x: int)
    ensures
        i32::MIN <= wrap32(x) <= i32::MAX,
        i32::MIN <= x <= i32::MAX ==> wrap32(x) == x,
{
}

/// Wrapping forgets multiples of `2^32`.
pub proof fn lemma_wrap32_multiple(x: int, k: int)
    ensures
        wrap32(x + k * 0x1_0000_0000) == wrap32(x),
{
    lemma_mod_multiples_vanish(k, x + 0x8000_0000, 0x1_0000_0000);
}

/// A wrapped sum can be wrapped once.
pub proof fn lemma_wrap32_sum(x: int, y: int)
    ensures
        wrap32(wrap32(x) + y) == wrap32(x + y),
        wrap32(y + wrap32(x)) == wrap32(x + y),
        wrap32(y - wrap32(x)) == wrap32(y - x),
        wrap32(wrap32(x) - y) == wrap32(x - y),
{
    let q = (x + 0x8000_0000) / 0x1_0000_0000;
    lemma_fundamental_div_mod(x + 0x8000_0000, 0x1_0000_0000);
    assert(wrap32(x) == x - q * 0x1_0000_0000);
    lemma_wrap32_multiple(x + y, -q);
    lemma_wrap32_multiple(y - x, q);
    lemma_wrap32_multiple(x - y, -q);
}

/// Adding what was taken away gives the number back.
pub proof fn lemma_wrap32_undo(x: int, y: int)
    requires
        i32::MIN <= x <= i32::MAX,
    ensures
        wrap32(wrap32(x - y) + y) == x,
        wrap32(wrap32(x + y) - y) == x,
{
    lemma_wrap32_sum(x - y, y);
    lemma_wrap32_sum(x + y, y);
    lemma_wrap32(x);
}

/// `x + y`, wrapped.
pub fn wrapping_sum(x: i32, y: i32) -> (r: i32)
    ensures
        r == wrap32(x + y),
{
    x.wrapping_add(y)
}

/// `x - y`, wrapped.
pub fn wrapping_difference(x: i32, y: i32) -> (r: i32)
    ensures
        r == wrap32(x - y),
{
    x.wrapping_sub(y)
}

/// `x * y`, wrapped.
pub fn wrapping_product(x: i32, y: i32) -> (r: i32)
    ensures
        r == wrap32(x * y),
{
    let r = x.wrapping_mul(y);
    proof {
        let p = x * y;
        assert(r == vstd::wrapping::i32_specs::signed_crop(p));
    }
    r
}

/// The number in the range of `i64` that equals `x` modulo `2^64`.
pub open spec fn wrap64(x: int) -> int {
    (x + 0x8000_0000_0000_0000) % 0x1_0000_0000_0000_0000 - 0x8000_0000_0000_0000
}

/// Wrapping to 64 bits first does not change the low 32 bits.
pub proof fn lemma_wrap64(x: int, y: int)
    ensures
        i64::MIN <= wrap64(x) <= i64::MAX,
        i64::MIN <= x <= i64::MAX ==> wrap64(x) == x,
        wrap64(wrap64(x) + y) == wrap64(x + y),
        wrap32(wrap64(x)) == wrap32(x),
{
    let q = (x + 0x8000_0000_0000_0000) / 0x1_0000_0000_0000_0000;
    assert(wrap64(x) == x - q * 0x1_0000_0000_0000_0000);
    assert((x + 0x8000_0000 - (q * 0x1_0000_0000) * 0x1_0000_0000) % 0x1_0000_0000 == (x
        + 0x8000_0000) % 0x1_0000_0000) by {
        lemma_mod_multiples_vanish(-(q * 0x1_0000_0000), x + 0x8000_0000, 0x1_0000_0000);
    }
}

/// The low 32 bits of `x`, as a signed number.
pub fn narrow(x: i64) -> (r: i32)
    ensures
        r == wrap32(x as int),
{
    let low: u64 = if x >= 0 {
        x as u64 % 0x1_0000_0000
    } else {
        0xFFFF_FFFF - ((-1 - x) as u64 % 0x1_0000_0000)
    };
    assert(low == x as int % 0x1_0000_0000);
    if low >= 0x8000_0000 {
        (low as i64 - 0x1_0000_0000) as i32
    } else {
        low as i32
    }
}

/// `x / y`, rounded toward zero.
pub open spec fn trunc_div(x: int, y: int) -> int {
    if x >= 0 {
        x / y
    } else {
        -((-x) / y)
    }
}

/// `x / y`, rounded toward zero.
pub fn div_toward_zero(x: i32, y: i32) -> (r: i32)
    requires
        y > 1,
    ensures
        r == trunc_div(x as int, y as int),
{
    if x >= 0 {
        (x as u32 / y as u32) as i32
    } else {
        let up: u32 = (-(x as i64)) as u32;
        proof {
            lemma_div_is_ordered_by_denominator(up as int, 2, y as int);
        }
        -((up / y as u32) as i32)
    }
}

/// `x / 2^s`, rounded down: an arithmetic shift.
pub open spec fn floor_shift(x: int, s: nat) -> int {
    x / (pow2(s) as int)
}

/// `x / 2^s`, rounded down.
pub fn shift_down(x: i32, s: u32) -> (r: i32)
    requires
        s < 32,
    ensures
        r == floor_shift(x as int, s as nat),
{
    proof {
        lemma_pow2_pos(s as nat);
    }
    if x >= 0 {
        proof {
            lemma_u32_shr_is_div(x as u32, s);
            lemma_div_nonincreasing(x as int, pow2(s as nat) as int);
        }
        (x as u32 >> s) as i32
    } else {
        let up: u32 = (-1 - x) as u32;
        proof {
            lemma_u32_shr_is_div(up, s);
            lemma_div_nonincreasing(up as int, pow2(s as nat) as int);
            lemma_floor_of_negative(x as int, pow2(s as nat) as int);
        }
        -1 - ((up >> s) as i32)
    }
}

/// Rounding down below zero.
proof fn lemma_floor_of_negative(x: int, d: int)
    requires
        x < 0,
        d > 0,
    ensures
        x / d == -1 - (-1 - x) / d,
{
    let q = (-1 - x) / d;
    let r = (-1 - x) % d;
    lemma_fundamental_div_mod(-1 - x, d);
    lemma_mod_bound(-1 - x, d);
    assert(x == (-1 - q) * d + (d - 1 - r)) by (nonlinear_arith)
        requires
            -1 - x == d * q + r,
    ;
    lemma_fundamental_div_mod_converse(x, d, -1 - q, d - 1 - r);
}

/// A shifted number is small.
pub proof fn lemma_floor_shift_bound(x: int, s: nat, n: nat)
    requires
        i32::MIN <= x <= i32::MAX,
        n <= s,
        n <= 31,
    ensures
        -(pow2((31 - n) as nat) as int) <= floor_shift(x, s) <= pow2((31 - n) as nat),
{
    let d = pow2(s) as int;
    let m = pow2((31 - n) as nat) as int;
    lemma_pow2_pos(s);
    lemma_pow2_pos(n);
    lemma2_to64();
    lemma_pow2_adds(n, (31 - n) as nat);
    if n < s {
        lemma_pow2_strictly_increases(n, s);
    }
    assert(d * m >= 0x8000_0000) by (nonlinear_arith)
        requires
            d >= pow2(n),
            m > 0 || m == 0,
            pow2(n) as int * m == 0x8000_0000,
            m >= 0,
    ;
    lemma_fundamental_div_mod(x, d);
    lemma_mod_bound(x, d);
    let q = floor_shift(x, s);
    assert(-m <= q <= m) by (nonlinear_arith)
        requires
            x == d * q + x % d,
            0 <= x % d < d,
            -0x8000_0000 <= x <= 0x7FFF_FFFF,
            d * m >= 0x8000_0000,
            d > 0,
    {
        if q > m {
            assert(d * q >= d * (m + 1));
        }
        if q < -m {
            assert(d * q <= d * (-m - 1));
        }
    }
}

} // verus!
