//! Fixed-point scalar arithmetic.
//!
//! A fixed-point value carries three decimal places: the `i64` value `1000`
//! stands for one unit. Products divide back down by `FRAC`, truncating
//! toward zero, which is the unique rounding that makes negating an operand
//! negate the result.

use vstd::prelude::*;

verus! {

/// Number of fixed-point steps per unit: `1000` stands for `1.0`.
pub const FRAC: i64 = 1000;

/// Division truncating toward zero, for positive divisors.
pub open spec fn tdiv(a: int, b: int) -> int {
    if a >= 0 {
        a / b
    } else {
        -((-a) / b)
    }
}

/// Fixed-point product: `a * b` scaled back down by `FRAC`.
pub open spec fn fx_mul_spec(a: int, b: int) -> int {
    tdiv(a * b, FRAC as int)
}

/// `a * num / den` in exact integer arithmetic, truncating toward zero.
pub open spec fn scale_div_spec(a: int, num: int, den: int) -> int {
    tdiv(a * num, den)
}

/// Floor of the square root of a nonnegative integer.
pub open spec fn sqrt_floor(n: int) -> int
    decreases n,
{
    if n <= 0 {
        0
    } else if (sqrt_floor(n - 1) + 1) * (sqrt_floor(n - 1) + 1) <= n {
        sqrt_floor(n - 1) + 1
    } else {
        sqrt_floor(n - 1)
    }
}

/// `sqrt_floor(n)` is the unique nonnegative root with
/// `r * r <= n < (r + 1) * (r + 1)`.
pub proof fn lemma_sqrt_floor_bounds(n: int)
    requires
        n >= 0,
    ensures
        0 <= sqrt_floor(n),
        sqrt_floor(n) * sqrt_floor(n) <= n,
        n < (sqrt_floor(n) + 1) * (sqrt_floor(n) + 1),
    decreases n,
{
    if n > 0 {
        lemma_sqrt_floor_bounds(n - 1);
        let s = sqrt_floor(n - 1);
        if (s + 1) * (s + 1) <= n {
            assert(n < (s + 2) * (s + 2)) by (nonlinear_arith)
                requires
                    0 <= s,
                    n - 1 < (s + 1) * (s + 1),
                    (s + 1) * (s + 1) <= n,
            ;
        }
    }
}

pub proof fn lemma_sqrt_floor_unique(n: int, r: int)
    requires
        n >= 0,
        r >= 0,
        r * r <= n,
        n < (r + 1) * (r + 1),
    ensures
        r == sqrt_floor(n),
{
    lemma_sqrt_floor_bounds(n);
    let s = sqrt_floor(n);
    if r < s {
        assert((r + 1) * (r + 1) <= s * s) by (nonlinear_arith)
            requires
                0 <= r,
                r + 1 <= s,
        ;
    }
    if s < r {
        assert((s + 1) * (s + 1) <= r * r) by (nonlinear_arith)
            requires
                0 <= s,
                s + 1 <= r,
        ;
    }
}

/// Magnitude of a truncating quotient never exceeds the dividend's.
pub proof fn lemma_tdiv_abs_le(a: int, b: int)
    requires
        b >= 1,
    ensures
        a >= 0 ==> 0 <= tdiv(a, b) <= a,
        a < 0 ==> a <= tdiv(a, b) <= 0,
{
    if a >= 0 {
        assert(0 <= a / b <= a) by (nonlinear_arith)
            requires
                a >= 0,
                b >= 1,
        ;
    } else {
        assert(0 <= (-a) / b <= -a) by (nonlinear_arith)
            requires
                -a >= 0,
                b >= 1,
        ;
    }
}

/// A product of bounded factors is bounded by the product of the bounds.
pub proof fn lemma_mul_abs_bound(a: int, b: int, aa: int, bb: int)
    requires
        -aa <= a <= aa,
        -bb <= b <= bb,
    ensures
        -(aa * bb) <= a * b <= aa * bb,
{
    assert(-(aa * bb) <= a * b <= aa * bb) by (nonlinear_arith)
        requires
            -aa <= a <= aa,
            -bb <= b <= bb,
    ;
}

/// A truncating quotient of a bounded dividend is bounded by the quotient
/// of the bound.
pub proof fn lemma_tdiv_bound_by(a: int, b: int, m: int)
    requires
        b >= 1,
        -m <= a <= m,
        m >= 0,
    ensures
        -(m / b) <= tdiv(a, b) <= m / b,
{
    if a >= 0 {
        assert(a / b <= m / b && 0 <= a / b) by (nonlinear_arith)
            requires
                b >= 1,
                0 <= a <= m,
        ;
    } else {
        assert((-a) / b <= m / b && 0 <= (-a) / b) by (nonlinear_arith)
            requires
                b >= 1,
                0 <= -a <= m,
        ;
    }
}

/// Bound on a fixed-point product, tightened by the `FRAC` divisor.
pub proof fn lemma_fx_mul_div_bound(a: int, b: int, aa: int, bb: int)
    requires
        -aa <= a <= aa,
        -bb <= b <= bb,
        0 <= aa,
        0 <= bb,
    ensures
        -((aa * bb) / (FRAC as int)) <= fx_mul_spec(a, b) <= (aa * bb) / (FRAC as int),
{
    lemma_mul_abs_bound(a, b, aa, bb);
    assert(aa * bb >= 0) by (nonlinear_arith)
        requires
            aa >= 0,
            bb >= 0,
    ;
    lemma_tdiv_bound_by(a * b, FRAC as int, aa * bb);
}

/// Scaling by `b` and dividing by `b` gives back the original value.
pub proof fn lemma_tdiv_exact(a: int, b: int)
    requires
        b >= 1,
    ensures
        tdiv(a * b, b) == a,
{
    if a >= 0 {
        assert((a * b) / b == a) by (nonlinear_arith)
            requires
                a >= 0,
                b >= 1,
        ;
    } else {
        assert(((-a) * b) / b == -a) by (nonlinear_arith)
            requires
                -a >= 0,
                b >= 1,
        ;
        assert(-(a * b) == (-a) * b) by (nonlinear_arith);
        assert(a * b <= 0) by (nonlinear_arith)
            requires
                a < 0,
                b >= 1,
        ;
    }
}

/// Truncating division is antisymmetric in its dividend.
pub proof fn lemma_tdiv_neg(a: int, b: int)
    requires
        b >= 1,
    ensures
        tdiv(-a, b) == -tdiv(a, b),
{
}

/// Exact integer square root of a 128-bit value.
pub fn isqrt(n: u128) -> (r: u64)
    ensures
        r == sqrt_floor(n as int),
{
    let mut lo: u128 = 0;
    let mut hi: u128 = 0xFFFF_FFFF_FFFF_FFFF;
    while lo < hi
        invariant
            lo <= hi <= 0xFFFF_FFFF_FFFF_FFFF,
            lo * lo <= n,
            n < (hi + 1) * (hi + 1),
        decreases hi - lo,
    {
        let mid = lo + (hi - lo + 1) / 2;
        proof {
            assert(mid * mid < 0x1_0000_0000_0000_0000_0000_0000_0000_0000) by (nonlinear_arith)
                requires
                    0 <= mid <= 0xFFFF_FFFF_FFFF_FFFF,
            ;
        }
        if mid * mid <= n {
            lo = mid;
        } else {
            hi = mid - 1;
        }
    }
    proof {
        lemma_sqrt_floor_unique(n as int, lo as int);
    }
    lo as u64
}

/// Fixed-point multiply: truncated `a * b / FRAC`.
pub fn fx_mul(a: i64, b: i64) -> (r: i64)
    requires
        -(i64::MAX as int) <= fx_mul_spec(a as int, b as int) <= i64::MAX as int,
    ensures
        r == fx_mul_spec(a as int, b as int),
{
    proof {
        lemma_mul_abs_bound(a as int, b as int, i64::MAX as int + 1, i64::MAX as int + 1);
    }
    let p: i128 = (a as i128) * (b as i128);
    if p >= 0 {
        let q: u128 = (p as u128) / 1000;
        q as i64
    } else {
        let q: u128 = ((-p) as u128) / 1000;
        -(q as i64)
    }
}

/// Exact `a * num / den`, truncating toward zero.
pub fn scale_div(a: i64, num: i64, den: i64) -> (r: i64)
    requires
        num >= 0,
        den >= 1,
        -(i64::MAX as int) <= scale_div_spec(a as int, num as int, den as int) <= i64::MAX as int,
    ensures
        r == scale_div_spec(a as int, num as int, den as int),
{
    proof {
        lemma_mul_abs_bound(a as int, num as int, i64::MAX as int + 1, i64::MAX as int + 1);
    }
    let p: i128 = (a as i128) * (num as i128);
    if p >= 0 {
        let q: u128 = (p as u128) / (den as u128);
        q as i64
    } else {
        let q: u128 = ((-p) as u128) / (den as u128);
        -(q as i64)
    }
}

} // verus!
