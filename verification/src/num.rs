//! Saturating pixel arithmetic.
//!
//! All computed geometry lives in `i32` pixels. The solver's sums and
//! fractional shares are defined with saturation at the `i32` range, so every
//! input tree has a well-defined layout; inside the range the operations are
//! the exact integer ones.

use vstd::prelude::*;

verus! {

/// One whole unit of a size fraction: fractions are fixed-point thousandths.
pub const FRAC_ONE: u32 = 1000;

/// Clamp a mathematical integer into the `i32` range.
pub open spec fn sat32(x: int) -> int {
    if x < i32::MIN as int {
        i32::MIN as int
    } else if x > i32::MAX as int {
        i32::MAX as int
    } else {
        x
    }
}

/// Integer division truncated towards zero (the rounding of a cast from a
/// real quotient), for a positive divisor.
pub open spec fn trunc_div(a: int, d: int) -> int
    recommends
        d > 0,
{
    if a >= 0 {
        a / d
    } else {
        -((-a) / d)
    }
}

/// Division rounded to the nearest integer, half away from zero, for a
/// positive divisor.
pub open spec fn round_div(a: int, d: int) -> int
    recommends
        d > 0,
{
    if a >= 0 {
        (2 * a + d) / (2 * d)
    } else {
        -((2 * (-a) + d) / (2 * d))
    }
}

/// Clamp an exactly-computed 64-bit sum into the `i32` range.
pub fn clamp32(s: i64) -> (r: i32)
    ensures
        r as int == sat32(s as int),
{
    if s > i32::MAX as i64 {
        i32::MAX
    } else if s < i32::MIN as i64 {
        i32::MIN
    } else {
        s as i32
    }
}

/// A share rounded from a fraction of the pool never leaves `[0, pool]`:
/// `round_div(a * f, t)` lies between `0` and `a` when the weight `f` is at
/// most the total `t`.
pub proof fn lemma_round_div_bounds(a: int, f: int, t: int)
    requires
        0 <= a,
        0 <= f <= t,
        0 < t,
    ensures
        0 <= round_div(a * f, t) <= a,
{
    let num = a * f;
    assert(a * f >= 0) by (nonlinear_arith)
        requires
            a >= 0,
            f >= 0,
    ;
    vstd::arithmetic::div_mod::lemma_div_pos_is_pos(2 * num + t, 2 * t);
    assert(2 * num + t <= (2 * t) * a + t) by (nonlinear_arith)
        requires
            0 <= f <= t,
            a >= 0,
            num == a * f,
    ;
    vstd::arithmetic::div_mod::lemma_div_is_ordered(2 * num + t, (2 * t) * a + t, 2 * t);
    vstd::arithmetic::div_mod::lemma_div_multiples_vanish_fancy(a, t, 2 * t);
}

/// `a + b` saturated at the `i32` range.
pub fn add_sat(a: i32, b: i32) -> (r: i32)
    ensures
        r as int == sat32(a + b),
{
    let s: i64 = a as i64 + b as i64;
    if s > i32::MAX as i64 {
        i32::MAX
    } else if s < i32::MIN as i64 {
        i32::MIN
    } else {
        s as i32
    }
}

/// `a - b` saturated at the `i32` range.
pub fn sub_sat(a: i32, b: i32) -> (r: i32)
    ensures
        r as int == sat32(a - b),
{
    let s: i64 = a as i64 - b as i64;
    if s > i32::MAX as i64 {
        i32::MAX
    } else if s < i32::MIN as i64 {
        i32::MIN
    } else {
        s as i32
    }
}

/// `a * n` for a pixel value and a count, saturated at the `i32` range.
pub fn mul_count_sat(a: i32, n: usize) -> (r: i32)
    ensures
        r as int == sat32(a * n),
{
    proof {
        assert(-0x8000_0000i128 * 0x1_0000_0000_0000_0000i128 <= a as int * n as int <= 0x8000_0000i128
            * 0x1_0000_0000_0000_0000i128) by (nonlinear_arith)
            requires
                -0x8000_0000i128 <= a as int <= 0x8000_0000i128,
                0 <= n as int <= 0x1_0000_0000_0000_0000i128,
        ;
    }
    let s: i128 = a as i128 * n as i128;
    if s > i32::MAX as i128 {
        i32::MAX
    } else if s < i32::MIN as i128 {
        i32::MIN
    } else {
        s as i32
    }
}

/// A signed magnitude clamped into the `i32` range.
fn sat_of_mag(neg: bool, mag: u128) -> (r: i32)
    ensures
        r as int == sat32(if neg { -(mag as int) } else { mag as int }),
{
    if neg {
        if mag >= 2147483648u128 {
            i32::MIN
        } else {
            -(mag as i32)
        }
    } else {
        if mag > i32::MAX as u128 {
            i32::MAX
        } else {
            mag as i32
        }
    }
}

/// The pixels a fraction of `space` occupies: `space * fr / FRAC_ONE`,
/// truncated towards zero and saturated.
pub fn frac_of(space: i32, fr: u32) -> (r: i32)
    ensures
        r as int == sat32(trunc_div(space * fr, FRAC_ONE as int)),
{
    let neg: bool = space < 0;
    let mag: u128 = if space >= 0 {
        space as u128
    } else {
        -(space as i64) as u128
    };
    proof {
        assert(mag as int * fr as int <= 0x8000_0000i64 * 0xffff_ffffi64) by (nonlinear_arith)
            requires
                0 <= mag as int <= 0x8000_0000i64,
                0 <= fr as int <= 0xffff_ffffi64,
        ;
        if space >= 0 {
            assert(space * fr == mag * fr) by (nonlinear_arith)
                requires
                    mag == space,
            ;
        } else {
            assert(space * fr == -(mag as int * fr as int)) by (nonlinear_arith)
                requires
                    mag == -(space as int),
            ;
        }
    }
    let q: u128 = mag * fr as u128 / FRAC_ONE as u128;
    sat_of_mag(neg, q)
}

/// One expandable child's share of the remaining space: `remaining * fr /
/// total`, rounded half away from zero and saturated; `0` when no fraction
/// remains in the pool.
pub fn share_of(remaining: i32, fr: u32, total: u64) -> (r: i32)
    ensures
        r as int == (if total == 0 {
            0int
        } else {
            sat32(round_div(remaining * fr, total as int))
        }),
{
    if total == 0 {
        return 0;
    }
    let neg: bool = remaining < 0 && fr > 0;
    let mag: u128 = if remaining >= 0 {
        remaining as u128
    } else {
        -(remaining as i64) as u128
    };
    proof {
        assert(mag as int * fr as int <= 0x8000_0000i64 * 0xffff_ffffi64) by (nonlinear_arith)
            requires
                0 <= mag as int <= 0x8000_0000i64,
                0 <= fr as int <= 0xffff_ffffi64,
        ;
        if remaining >= 0 {
            assert(remaining * fr == mag * fr) by (nonlinear_arith)
                requires
                    mag == remaining,
            ;
        } else {
            assert(remaining * fr == -(mag as int * fr as int)) by (nonlinear_arith)
                requires
                    mag == -(remaining as int),
            ;
            if fr > 0 {
                assert(mag as int * fr as int > 0) by (nonlinear_arith)
                    requires
                        mag as int >= 1,
                        fr as int >= 1,
                ;
            } else {
                assert(mag as int * fr as int == 0) by (nonlinear_arith)
                    requires
                        fr as int == 0,
                ;
            }
        }
    }
    let num: u128 = mag * fr as u128;
    let q: u128 = (2 * num + total as u128) / (2 * total as u128);
    sat_of_mag(neg, q)
}

/// `remaining / count` truncated towards zero, for a positive count.
pub fn div_count_trunc(remaining: i32, count: usize) -> (r: i32)
    requires
        count > 0,
    ensures
        r as int == trunc_div(remaining as int, count as int),
{
    let neg: bool = remaining < 0;
    let mag: u128 = if remaining >= 0 {
        remaining as u128
    } else {
        -(remaining as i64) as u128
    };
    let q: u128 = mag / count as u128;
    sat_of_mag(neg, q)
}

} // verus!
