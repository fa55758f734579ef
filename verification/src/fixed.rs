//! Fixed-point arithmetic in signed millionths.
//!
//! The engine stores every fractional quantity as an `i64` count of
//! millionths of one unit. Products saturate at the `i64` range instead of
//! overflowing; divisions truncate toward zero, as Rust's integer division
//! does.

use vstd::prelude::*;

verus! {

/// One unit in the fixed-point encoding: `1.0` is stored as `1_000_000`.
pub const UNIT: i64 = 1_000_000;

/// Clamp an unbounded integer into the `i64` range.
pub open spec fn clamp_i64(x: int) -> int {
    if x > i64::MAX as int {
        i64::MAX as int
    } else if x < i64::MIN as int {
        i64::MIN as int
    } else {
        x
    }
}

/// Division truncating toward zero (the behaviour of `/` on Rust's signed
/// integers), for a positive divisor.
pub open spec fn tdiv(a: int, b: int) -> int
    recommends
        b > 0,
{
    if a >= 0 {
        a / b
    } else {
        -((-a) / b)
    }
}

/// Saturating fixed-point product: `a * b / UNIT` truncated toward zero
/// and clamped into the `i64` range.
pub open spec fn fmul(a: int, b: int) -> int {
    clamp_i64(tdiv(a * b, UNIT as int))
}

/// Saturating sum.
pub open spec fn sat_add(a: int, b: int) -> int {
    clamp_i64(a + b)
}

/// Division of `i128` values truncating toward zero, matching [`tdiv`].
pub fn div_trunc_i128(a: i128, b: i128) -> (r: i128)
    requires
        b > 0,
        a > i128::MIN,
    ensures
        r == tdiv(a as int, b as int),
        a >= 0 ==> 0 <= r <= a,
        a < 0 ==> a <= r <= 0,
{
    if a >= 0 {
        let q: u128 = (a as u128) / (b as u128);
        proof {
            assert(a as int / (b as int) <= a as int) by {
                vstd::arithmetic::div_mod::lemma_div_is_ordered_by_denominator(
                    a as int,
                    1,
                    b as int,
                );
            }
        }
        q as i128
    } else {
        let m: u128 = ((-a) as u128) / (b as u128);
        proof {
            assert((-a) as int / (b as int) <= (-a) as int) by {
                vstd::arithmetic::div_mod::lemma_div_is_ordered_by_denominator(
                    (-a) as int,
                    1,
                    b as int,
                );
            }
        }
        -(m as i128)
    }
}

/// Clamp an `i128` into the `i64` range.
pub fn clamp_to_i64(x: i128) -> (r: i64)
    ensures
        r == clamp_i64(x as int),
{
    if x > i64::MAX as i128 {
        i64::MAX
    } else if x < i64::MIN as i128 {
        i64::MIN
    } else {
        x as i64
    }
}

/// Saturating addition on fixed-point values.
pub fn add_sat(a: i64, b: i64) -> (r: i64)
    ensures
        r == sat_add(a as int, b as int),
{
    let s: i128 = (a as i128) + (b as i128);
    clamp_to_i64(s)
}

/// Saturating fixed-point multiplication: the product of `a` and `b`
/// understood as multiples of [`UNIT`].
pub fn mul_fixed(a: i64, b: i64) -> (r: i64)
    ensures
        r == fmul(a as int, b as int),
{
    proof {
        assert((a as int) * (b as int) <= 0x4000_0000_0000_0000_0000_0000_0000_0000
            && (a as int) * (b as int) >= -0x4000_0000_0000_0000_0000_0000_0000_0000)
            by (nonlinear_arith)
            requires
                -0x8000_0000_0000_0000 <= a <= 0x8000_0000_0000_0000,
                -0x8000_0000_0000_0000 <= b <= 0x8000_0000_0000_0000,
        ;
    }
    let p: i128 = (a as i128) * (b as i128);
    let q: i128 = div_trunc_i128(p, UNIT as i128);
    clamp_to_i64(q)
}

/// Division truncating toward zero for any non-zero divisor.
pub open spec fn tdiv_any(a: int, b: int) -> int
    recommends
        b != 0,
{
    let q = (if a >= 0 {
        a
    } else {
        -a
    }) / (if b >= 0 {
        b
    } else {
        -b
    });
    if (a >= 0) == (b >= 0) {
        q
    } else {
        -q
    }
}

/// Truncating division of `i128` values by a divisor of either sign.
pub fn div_trunc_any_i128(a: i128, b: i128) -> (r: i128)
    requires
        b != 0,
        a > i128::MIN,
        b > i128::MIN,
    ensures
        r == tdiv_any(a as int, b as int),
{
    let ua: u128 = if a >= 0 {
        a as u128
    } else {
        (-a) as u128
    };
    let ub: u128 = if b >= 0 {
        b as u128
    } else {
        (-b) as u128
    };
    let uq: u128 = ua / ub;
    proof {
        assert(ua as int / (ub as int) <= ua as int) by {
            vstd::arithmetic::div_mod::lemma_div_is_ordered_by_denominator(ua as int, 1, ub as int);
        }
    }
    if (a >= 0) == (b >= 0) {
        uq as i128
    } else {
        -(uq as i128)
    }
}

/// Clamp an unbounded integer into the `i128` range.
pub open spec fn clamp_i128(x: int) -> int {
    if x > i128::MAX as int {
        i128::MAX as int
    } else if x < i128::MIN as int {
        i128::MIN as int
    } else {
        x
    }
}

/// Saturating addition of accumulators.
pub fn add_sat_i128(a: i128, b: i128) -> (r: i128)
    ensures
        r == clamp_i128(a + b),
{
    if a >= 0 {
        if b > i128::MAX - a {
            i128::MAX
        } else {
            a + b
        }
    } else {
        if b < i128::MIN - a {
            i128::MIN
        } else {
            a + b
        }
    }
}

/// Integer square root: the largest `r` with `r * r <= n`.
pub fn isqrt_u128(n: u128) -> (r: u128)
    ensures
        r * r <= n,
        (r + 1) * (r + 1) > n,
{
    if n == 0 {
        return 0;
    }
    let mut lo: u128 = 0;
    let mut hi: u128 = 1u128 << 64;
    proof {
        assert((1u128 << 64) == 0x1_0000_0000_0000_0000) by (bit_vector);
        assert((0x1_0000_0000_0000_0000 as int) * (0x1_0000_0000_0000_0000 as int)
            > u128::MAX as int);
    }
    while lo + 1 < hi
        invariant
            lo < hi,
            lo * lo <= n,
            (hi as int) * (hi as int) > n,
            hi <= 0x1_0000_0000_0000_0000,
        decreases hi - lo,
    {
        let mid: u128 = lo + (hi - lo) / 2;
        proof {
            assert(mid < hi);
            assert(mid * mid <= (hi - 1) * (hi - 1)) by (nonlinear_arith)
                requires
                    0 <= mid,
                    mid <= hi - 1,
            ;
            assert((hi - 1) * (hi - 1) <= u128::MAX) by (nonlinear_arith)
                requires
                    0 < hi <= 0x1_0000_0000_0000_0000,
                    u128::MAX == 0x1_0000_0000_0000_0000 * 0x1_0000_0000_0000_0000 - 1,
            ;
        }
        if mid * mid <= n {
            lo = mid;
        } else {
            hi = mid;
        }
    }
    proof {
        assert(lo + 1 == hi);
    }
    lo
}

} // verus!
