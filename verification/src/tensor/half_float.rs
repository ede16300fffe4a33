//! Sixteen-bit floating-point patterns as thirty-two-bit ones.
use vstd::prelude::*;

verus! {

/// `2` to the power of `n`.
pub open spec fn two_to(n: nat) -> nat
    decreases n,
{
    if n == 0 {
        1
    } else {
        2 * two_to((n - 1) as nat)
    }
}

/// The position of the highest set bit of `n`.
pub open spec fn top_bit(n: nat) -> nat
    decreases n,
{
    if n < 2 {
        0
    } else {
        1 + top_bit(n / 2)
    }
}

/// The 32-bit pattern of the value that a 16-bit pattern stands for: sign,
/// exponent (rebased from 15 to 127) and mantissa (widened from 10 to 23 bits).
/// A pattern that is not a number stays one, and becomes a quiet one.
pub open spec fn widened(h: u16) -> u32 {
    let sign = h as int / 0x8000;
    let exponent = h as int / 0x400 % 0x20;
    let mantissa = h as int % 0x400;
    let magnitude = if exponent == 0x1F && mantissa == 0 {
        0x7F80_0000
    } else if exponent == 0x1F {
        0x7FC0_0000 + mantissa % 0x200 * 0x2000
    } else if exponent > 0 {
        (exponent + 112) * 0x80_0000 + mantissa * 0x2000
    } else if mantissa == 0 {
        0
    } else {
        let k = top_bit(mantissa as nat) as int;
        (103 + k) * 0x80_0000 + (mantissa - two_to(k as nat)) * two_to((23 - k) as nat)
    };
    (sign * 0x8000_0000 + magnitude) as u32
}

/// The position of the highest set bit of a 10-bit number.
fn highest_bit(m: u32) -> (k: u32)
    requires
        0 < m < 0x400,
    ensures
        k == top_bit(m as nat),
        k <= 9,
        two_to(k as nat) <= m < 2 * two_to(k as nat),
{
    proof {
        reveal_with_fuel(top_bit, 11);
        reveal_with_fuel(two_to, 11);
    }
    if m >= 512 {
        9
    } else if m >= 256 {
        8
    } else if m >= 128 {
        7
    } else if m >= 64 {
        6
    } else if m >= 32 {
        5
    } else if m >= 16 {
        4
    } else if m >= 8 {
        3
    } else if m >= 4 {
        2
    } else if m >= 2 {
        1
    } else {
        0
    }
}

/// `2^k` and `2^(23 - k)`.
fn powers(k: u32) -> (r: (u32, u32))
    requires
        k <= 9,
    ensures
        r.0 == two_to(k as nat),
        r.1 == two_to((23 - k) as nat),
        r.0 * r.1 == 0x80_0000,
{
    proof {
        reveal_with_fuel(two_to, 25);
    }
    match k {
        0 => (1, 0x80_0000),
        1 => (2, 0x40_0000),
        2 => (4, 0x20_0000),
        3 => (8, 0x10_0000),
        4 => (16, 0x8_0000),
        5 => (32, 0x4_0000),
        6 => (64, 0x2_0000),
        7 => (128, 0x1_0000),
        8 => (256, 0x8000),
        _ => (512, 0x4000),
    }
}

/// The 32-bit pattern of a 16-bit floating-point pattern.
pub fn widen(h: u16) -> (bits: u32)
    ensures
        bits == widened(h),
{
    let sign: u32 = (h / 0x8000) as u32;
    let exponent: u32 = (h / 0x400 % 0x20) as u32;
    let mantissa: u32 = (h % 0x400) as u32;
    let magnitude: u32 = if exponent == 0x1F && mantissa == 0 {
        0x7F80_0000
    } else if exponent == 0x1F {
        0x7FC0_0000 + mantissa % 0x200 * 0x2000
    } else if exponent > 0 {
        (exponent + 112) * 0x80_0000 + mantissa * 0x2000
    } else if mantissa == 0 {
        0
    } else {
        let k: u32 = highest_bit(mantissa);
        let (one, step) = powers(k);
        proof {
            assert((mantissa - one) * step <= one * step) by (nonlinear_arith)
                requires
                    mantissa - one <= one,
                    step >= 0,
            ;
        }
        (103 + k) * 0x80_0000 + (mantissa - one) * step
    };
    sign * 0x8000_0000 + magnitude
}

} // verus!
