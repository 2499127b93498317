//! Reading the value of a constant as a count: integers converted as by an
//! `as usize` cast, floats (given by their bit patterns) truncated toward
//! zero and saturated to the range of `usize`, NaN giving 0.

use vstd::prelude::*;
use vstd::arithmetic::power2::{
    lemma2_to64, lemma2_to64_rest, lemma_pow2_adds, lemma_pow2_pos, lemma_pow2_strictly_increases, pow2,
};
use vstd::bits::{lemma_u64_shl_is_mul, lemma_u64_shr_is_div};
use crate::wasm::ConstValue;

verus! {

/// `v` held to the range of `usize`.
pub open spec fn saturate(v: int) -> int {
    if v > usize::MAX {
        usize::MAX as int
    } else {
        v
    }
}

/// The value of a binary float with sign bit `sign`, biased exponent `exp`
/// and fraction `frac`, truncated toward zero and saturated to `usize`.
/// `exp_all_ones` is the exponent of infinities and NaNs, `implicit` the
/// value of the implicit leading bit of the significand, and `scale` the
/// exponent at which the significand counts units (bias plus fraction
/// width).
pub open spec fn float_as_usize(
    sign: int,
    exp: int,
    frac: int,
    exp_all_ones: int,
    implicit: int,
    scale: int,
) -> int {
    if exp == exp_all_ones {
        if frac != 0 || sign == 1 {
            0
        } else {
            usize::MAX as int
        }
    } else if sign == 1 || exp == 0 {
        0
    } else {
        let m = frac + implicit;
        let e = exp - scale;
        saturate(
            if e >= 0 {
                m * pow2(e as nat)
            } else {
                m / (pow2((-e) as nat) as int)
            },
        )
    }
}

/// The 64-bit float with bit pattern `bits` as a `usize`.
pub open spec fn f64_bits_as_usize(bits: u64) -> int {
    float_as_usize(
        (bits / 0x8000_0000_0000_0000) as int,
        ((bits / 0x10_0000_0000_0000) % 0x800) as int,
        (bits % 0x10_0000_0000_0000) as int,
        0x7ff,
        0x10_0000_0000_0000,
        1075,
    )
}

/// The 32-bit float with bit pattern `bits` as a `usize`.
pub open spec fn f32_bits_as_usize(bits: u32) -> int {
    float_as_usize(
        (bits / 0x8000_0000) as int,
        ((bits / 0x80_0000) % 0x100) as int,
        (bits % 0x80_0000) as int,
        0xff,
        0x80_0000,
        150,
    )
}

/// The value of a constant as a `usize`.
pub open spec fn const_as_usize(v: ConstValue) -> int {
    match v {
        ConstValue::I32(x) => (x as usize) as int,
        ConstValue::I64(x) => (x as usize) as int,
        ConstValue::F32Bits(b) => f32_bits_as_usize(b),
        ConstValue::F64Bits(b) => f64_bits_as_usize(b),
        ConstValue::V128(x) => (x as usize) as int,
    }
}

/// `v` held to the range of `usize`.
fn saturate_u64(v: u64) -> (res: usize)
    ensures
        res == saturate(v as int),
{
    if v > usize::MAX as u64 {
        usize::MAX
    } else {
        v as usize
    }
}

/// The significand `m` scaled by `2^e` (or divided by `2^-e`), truncated
/// and saturated, where `m < 2^bits` and the product overflows `u64` from
/// `e >= limit` on.
fn scale_significand(m: u64, e: i64, limit: i64) -> (res: usize)
    requires
        m >= 0x80_0000,
        m < 0x20_0000_0000_0000,
        -2000 <= e <= 2000,
        limit == 12 && m >= 0x10_0000_0000_0000 || limit == 41 && m < 0x100_0000,
    ensures
        res == saturate(
            if e >= 0 {
                m * pow2(e as nat)
            } else {
                m as int / (pow2((-e) as nat) as int)
            },
        ),
{
    if e >= limit {
        proof {
            lemma2_to64();
            lemma2_to64_rest();
            if e > limit {
                lemma_pow2_strictly_increases(limit as nat, e as nat);
            }
            if limit == 12 {
                assert(pow2(12) == 4096);
                assert(m * pow2(e as nat) >= 0x10_0000_0000_0000 * 4096) by (nonlinear_arith)
                    requires
                        m >= 0x10_0000_0000_0000,
                        pow2(e as nat) >= 4096,
                ;
            } else {
                assert(pow2(41) == 0x200_0000_0000);
                assert(m * pow2(e as nat) >= 0x80_0000 * 0x200_0000_0000) by (nonlinear_arith)
                    requires
                        m >= 0x80_0000,
                        pow2(e as nat) >= 0x200_0000_0000,
                ;
            }
        }
        usize::MAX
    } else if e >= 0 {
        proof {
            lemma2_to64();
            lemma2_to64_rest();
            if e < limit - 1 {
                lemma_pow2_strictly_increases(e as nat, (limit - 1) as nat);
            }
            if limit == 12 {
                assert(pow2(11) == 2048);
                assert(m * pow2(e as nat) <= 0x1F_FFFF_FFFF_FFFF * 2048) by (nonlinear_arith)
                    requires
                        m <= 0x1F_FFFF_FFFF_FFFF,
                        pow2(e as nat) <= 2048,
                ;
            } else {
                assert(pow2(40) == 0x100_0000_0000);
                assert(m * pow2(e as nat) <= 0xFF_FFFF * 0x100_0000_0000) by (nonlinear_arith)
                    requires
                        m <= 0xFF_FFFF,
                        pow2(e as nat) <= 0x100_0000_0000,
                ;
            }
            assert((e as u64) as nat == e as nat);
            lemma_u64_shl_is_mul(m, e as u64);
        }
        saturate_u64(m << (e as u64))
    } else {
        let d: i64 = 0 - e;
        if d >= 64 {
            proof {
                lemma2_to64();
                lemma2_to64_rest();
                if d > 64 {
                    lemma_pow2_strictly_increases(64, d as nat);
                }
                assert(m as int / (pow2(d as nat) as int) == 0) by (nonlinear_arith)
                    requires
                        0 <= m < 0x1_0000_0000_0000_0000int,
                        pow2(d as nat) >= 0x1_0000_0000_0000_0000int,
                ;
            }
            0
        } else {
            proof {
                assert((d as u64) as nat == (-e) as nat);
                lemma_u64_shr_is_div(m, d as u64);
            }
            saturate_u64(m >> (d as u64))
        }
    }
}

/// The 64-bit float with bit pattern `bits` as a `usize`: truncated toward
/// zero, saturated, NaN giving 0.
pub fn f64_bits_to_usize(bits: u64) -> (res: usize)
    ensures
        res == f64_bits_as_usize(bits),
{
    let sign = bits / 0x8000_0000_0000_0000;
    let exp = (bits / 0x10_0000_0000_0000) % 0x800;
    let frac = bits % 0x10_0000_0000_0000;
    if exp == 0x7ff {
        if frac != 0 || sign == 1 {
            0
        } else {
            usize::MAX
        }
    } else if sign == 1 || exp == 0 {
        0
    } else {
        let m: u64 = frac + 0x10_0000_0000_0000;
        scale_significand(m, exp as i64 - 1075, 12)
    }
}

/// The 32-bit float with bit pattern `bits` as a `usize`: truncated toward
/// zero, saturated, NaN giving 0.
pub fn f32_bits_to_usize(bits: u32) -> (res: usize)
    ensures
        res == f32_bits_as_usize(bits),
{
    let sign = bits / 0x8000_0000;
    let exp = (bits / 0x80_0000) % 0x100;
    let frac = bits % 0x80_0000;
    if exp == 0xff {
        if frac != 0 || sign == 1 {
            0
        } else {
            usize::MAX
        }
    } else if sign == 1 || exp == 0 {
        0
    } else {
        let m: u64 = frac as u64 + 0x80_0000;
        scale_significand(m, exp as i64 - 150, 41)
    }
}

/// The value of a constant as a `usize`.
pub fn value_to_usize(value: ConstValue) -> (res: usize)
    ensures
        res == const_as_usize(value),
{
    match value {
        ConstValue::I32(v) => v as usize,
        ConstValue::I64(v) => v as usize,
        ConstValue::F32Bits(b) => f32_bits_to_usize(b),
        ConstValue::F64Bits(b) => f64_bits_to_usize(b),
        ConstValue::V128(v) => v as usize,
    }
}

} // verus!
