use vstd::prelude::*;
use crate::rgb::Rgb;
use crate::token::Token;

verus! {

// --- exact models of the 8-bit channel arithmetic ---

/// Wrapping 8-bit addition.
pub open spec fn add_ch(a: u8, b: u8) -> u8 {
    ((a + b) % 256) as u8
}

/// Wrapping 8-bit subtraction.
pub open spec fn sub_ch(a: u8, b: u8) -> u8 {
    ((a - b) % 256) as u8
}

/// Wrapping 8-bit multiplication.
pub open spec fn mul_ch(a: u8, b: u8) -> u8 {
    ((a * b) % 256) as u8
}

/// Division that hands a zero divisor the dividend back unchanged.
pub open spec fn div_ch(a: u8, b: u8) -> u8 {
    if b == 0 {
        a
    } else {
        (a / b) as u8
    }
}

/// Remainder that hands a zero divisor the dividend back unchanged.
pub open spec fn mod_ch(a: u8, b: u8) -> u8 {
    if b == 0 {
        a
    } else {
        (a % b) as u8
    }
}

/// `a` to the power `e`, reduced modulo 256 at every step: wrapping 8-bit
/// exponentiation, with the convention that any base to the zeroth power is 1.
pub open spec fn pow256(a: u8, e: nat) -> int
    decreases e,
{
    if e == 0 {
        1
    } else {
        (a * pow256(a, (e - 1) as nat)) % 256
    }
}

pub open spec fn pow_ch(a: u8, b: u8) -> u8 {
    pow256(a, b as nat) as u8
}

proof fn lemma_pow256_bound(a: u8, e: nat)
    ensures
        0 <= pow256(a, e) < 256,
    decreases e,
{
    if e > 0 {
        lemma_pow256_bound(a, (e - 1) as nat);
    }
}

/// The eight powers of two that an 8-bit shift amount can name.
pub open spec fn pow2_small(k: int) -> int {
    if k == 0 {
        1
    } else if k == 1 {
        2
    } else if k == 2 {
        4
    } else if k == 3 {
        8
    } else if k == 4 {
        16
    } else if k == 5 {
        32
    } else if k == 6 {
        64
    } else {
        128
    }
}

/// Wrapping 8-bit left shift: the shift amount is taken modulo 8.
pub open spec fn shl_ch(a: u8, b: u8) -> u8 {
    ((a * pow2_small(b as int % 8)) % 256) as u8
}

/// Wrapping 8-bit right shift: the shift amount is taken modulo 8.
pub open spec fn shr_ch(a: u8, b: u8) -> u8 {
    (a as int / pow2_small(b as int % 8)) as u8
}

/// `a & !b`: keeps the bits of `a` that `b` does not set.
pub open spec fn andnot_ch(a: u8, b: u8) -> u8 {
    a & !b
}

/// Per-channel comparison: all-ones where `a` wins, zero elsewhere.
pub open spec fn greater_ch(a: u8, b: u8) -> u8 {
    if a > b {
        255
    } else {
        0
    }
}

/// Scales `a` by the fraction `b / 255`, truncating.
pub open spec fn weight_ch(a: u8, b: u8) -> u8 {
    ((a * b) / 255) as u8
}

/// Whether a token is one of the binary stack operators.
pub open spec fn is_binop(t: Token) -> bool {
    match t {
        Token::Add | Token::Sub | Token::Mul | Token::Div | Token::Mod | Token::Pow
            | Token::BitAnd | Token::BitOr | Token::BitXor | Token::BitAndNot | Token::BitLShift
            | Token::BitRShift | Token::Greater | Token::Weight => true,
        _ => false,
    }
}

/// The channel function of a binary operator token.
pub open spec fn binop_ch(t: Token, a: u8, b: u8) -> u8 {
    match t {
        Token::Add => add_ch(a, b),
        Token::Sub => sub_ch(a, b),
        Token::Mul => mul_ch(a, b),
        Token::Div => div_ch(a, b),
        Token::Mod => mod_ch(a, b),
        Token::Pow => pow_ch(a, b),
        Token::BitAnd => a & b,
        Token::BitOr => a | b,
        Token::BitXor => a ^ b,
        Token::BitAndNot => andnot_ch(a, b),
        Token::BitLShift => shl_ch(a, b),
        Token::BitRShift => shr_ch(a, b),
        Token::Greater => greater_ch(a, b),
        Token::Weight => weight_ch(a, b),
        _ => 0,
    }
}

/// A binary operator applied to two colors, channel by channel; `b` is the
/// top of the stack, `a` the operand below it.
pub open spec fn binop_rgb(t: Token, a: Rgb, b: Rgb) -> Rgb {
    Rgb { r: binop_ch(t, a.r, b.r), g: binop_ch(t, a.g, b.g), b: binop_ch(t, a.b, b.b) }
}

// --- executable channel arithmetic ---

pub fn wrap_add(a: u8, b: u8) -> (r: u8)
    ensures
        r == add_ch(a, b),
{
    (((a as u16) + (b as u16)) % 256) as u8
}

pub fn wrap_sub(a: u8, b: u8) -> (r: u8)
    ensures
        r == sub_ch(a, b),
{
    (((a as u16) + 256 - (b as u16)) % 256) as u8
}

pub fn wrap_mul(a: u8, b: u8) -> (r: u8)
    ensures
        r == mul_ch(a, b),
{
    proof {
        assert((a as int) * (b as int) <= 255 * 255) by (nonlinear_arith)
            requires
                a <= 255,
                b <= 255,
        ;
    }
    (((a as u32) * (b as u32)) % 256) as u8
}

fn exec_div(a: u8, b: u8) -> (r: u8)
    ensures
        r == div_ch(a, b),
{
    if b == 0 {
        a
    } else {
        a / b
    }
}

fn exec_mod(a: u8, b: u8) -> (r: u8)
    ensures
        r == mod_ch(a, b),
{
    if b == 0 {
        a
    } else {
        a % b
    }
}

fn exec_pow(a: u8, b: u8) -> (r: u8)
    ensures
        r == pow_ch(a, b),
{
    let mut result: u32 = 1;
    let mut k: u8 = 0;
    while k < b
        invariant
            k <= b,
            result == pow256(a, k as nat),
        decreases b - k,
    {
        proof {
            lemma_pow256_bound(a, k as nat);
            assert((result as int) * (a as int) <= 255 * 255) by (nonlinear_arith)
                requires
                    result <= 255,
                    a <= 255,
            ;
        }
        result = (result * (a as u32)) % 256;
        proof {
            assert(pow256(a, (k + 1) as nat) == (a * pow256(a, k as nat)) % 256);
        }
        k = k + 1;
    }
    proof {
        lemma_pow256_bound(a, b as nat);
    }
    result as u8
}

fn exec_pow2(k: u8) -> (r: u8)
    requires
        k < 8,
    ensures
        r == pow2_small(k as int),
{
    if k == 0 {
        1
    } else if k == 1 {
        2
    } else if k == 2 {
        4
    } else if k == 3 {
        8
    } else if k == 4 {
        16
    } else if k == 5 {
        32
    } else if k == 6 {
        64
    } else {
        128
    }
}

fn exec_shl(a: u8, b: u8) -> (r: u8)
    ensures
        r == shl_ch(a, b),
{
    let p = exec_pow2(b % 8);
    proof {
        assert((a as int) * (p as int) <= 255 * 128) by (nonlinear_arith)
            requires
                a <= 255,
                p <= 128,
        ;
    }
    (((a as u32) * (p as u32)) % 256) as u8
}

fn exec_shr(a: u8, b: u8) -> (r: u8)
    ensures
        r == shr_ch(a, b),
{
    let p = exec_pow2(b % 8);
    a / p
}

fn exec_weight(a: u8, b: u8) -> (r: u8)
    ensures
        r == weight_ch(a, b),
{
    proof {
        assert((a as int) * (b as int) <= 255 * 255) by (nonlinear_arith)
            requires
                a <= 255,
                b <= 255,
        ;
    }
    (((a as u32) * (b as u32)) / 255) as u8
}

/// One binary operator on one pair of channel values.
pub fn binop_channel(t: Token, a: u8, b: u8) -> (r: u8)
    requires
        is_binop(t),
    ensures
        r == binop_ch(t, a, b),
{
    match t {
        Token::Add => wrap_add(a, b),
        Token::Sub => wrap_sub(a, b),
        Token::Mul => wrap_mul(a, b),
        Token::Div => exec_div(a, b),
        Token::Mod => exec_mod(a, b),
        Token::Pow => exec_pow(a, b),
        Token::BitAnd => a & b,
        Token::BitOr => a | b,
        Token::BitXor => a ^ b,
        Token::BitAndNot => a & !b,
        Token::BitLShift => exec_shl(a, b),
        Token::BitRShift => exec_shr(a, b),
        Token::Greater => if a > b {
            255
        } else {
            0
        },
        _ => exec_weight(a, b),
    }
}

// --- the derived per-pixel formulas ---

/// The luma of a color: `0.299 r + 0.587 g + 0.0722 b`, truncated, written
/// over the integers.
pub open spec fn luma_ch(r: u8, g: u8, b: u8) -> u8 {
    ((2990 * r + 5870 * g + 722 * b) / 10000) as u8
}

pub fn exec_luma(r: u8, g: u8, b: u8) -> (l: u8)
    ensures
        l == luma_ch(r, g, b),
{
    ((2990 * (r as u32) + 5870 * (g as u32) + 722 * (b as u32)) / 10000) as u8
}

/// A coordinate scaled to 0..255 by its dimension: `255 x / m`, truncated.
pub open spec fn three_rule(x: u32, m: u32) -> u8 {
    ((255 * x) / (m as int) % 256) as u8
}

pub fn exec_three_rule(x: u32, m: u32) -> (r: u8)
    requires
        x < m,
    ensures
        r == three_rule(x, m),
{
    proof {
        assert(255 * (x as int) < 255 * (m as int)) by (nonlinear_arith)
            requires
                x < m,
        ;
        assert(255 * (x as int) / (m as int) < 255) by (nonlinear_arith)
            requires
                m > 0,
                255 * (x as int) <= 255 * (m as int) - 255,
        ;
    }
    (((255u64 * (x as u64)) / (m as u64)) % 256) as u8
}

/// Brightness scaling: multiplying the value component of a color's HSV form
/// by `v / 255` and converting back multiplies every channel by `v / 255`;
/// the result is rounded to the nearest integer.
pub open spec fn bright_ch(c: u8, v: u8) -> u8 {
    ((2 * c * v + 255) / 510) as u8
}

pub fn exec_bright(c: u8, v: u8) -> (r: u8)
    ensures
        r == bright_ch(c, v),
{
    proof {
        assert(2 * (c as int) * (v as int) <= 2 * 255 * 255) by (nonlinear_arith)
            requires
                c <= 255,
                v <= 255,
        ;
    }
    ((2 * (c as u32) * (v as u32) + 255) / 510) as u8
}

/// The inverted channel.
pub open spec fn invert_ch(c: u8) -> u8 {
    (255 - c) as u8
}

pub open spec fn max2(a: u8, b: u8) -> u8 {
    if a > b {
        a
    } else {
        b
    }
}

pub open spec fn min2(a: u8, b: u8) -> u8 {
    if a < b {
        a
    } else {
        b
    }
}

} // verus!
