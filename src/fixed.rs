//! Fixed-point number format and the exact integer helpers the geometry uses.
//!
//! Every coordinate and scalar is an integer counting `1 / ONE`-ths of a unit,
//! and a ray parameter one counting `1 / PARAM_ONE`-ths. Products of two such
//! numbers are computed exactly in 128 bits and brought back to the format by
//! rounding.
use vstd::prelude::*;

verus! {

/// Number of fixed-point steps in one whole unit.
pub const ONE: i64 = 1024;

/// Largest magnitude of a coordinate or scalar that the multiplicative
/// operations accept; it keeps every intermediate product within 128 bits.
pub const COORD_MAX: i64 = 1048576;

/// Number of parameter steps in one whole unit of a ray's parameter: fine
/// enough that one step moves a point along any in-range direction by at
/// most one coordinate step.
pub const PARAM_ONE: i64 = 1048576;

/// Upper bound of the argument of `isqrt`, two to the power 126.
pub const SQRT_ARG_LIMIT: u128 = 85070591730234615865843651857942052864;

/// Square root of `SQRT_ARG_LIMIT`.
pub const SQRT_HI: u128 = 9223372036854775808;

/// `n / d` rounded down, for a nonzero divisor of either sign.
pub open spec fn floor_div(n: int, d: int) -> int {
    if d > 0 {
        n / d
    } else {
        (-n) / (-d)
    }
}

/// The magnitude of `n`.
pub open spec fn abs_int(n: int) -> int {
    if n < 0 {
        -n
    } else {
        n
    }
}

/// `n / d` rounded toward zero, for a nonzero divisor of either sign; it
/// satisfies `trunc_div(-n, d) == -trunc_div(n, d)`.
pub open spec fn trunc_div(n: int, d: int) -> int {
    let q = abs_int(n) / abs_int(d);
    if (n < 0) == (d < 0) {
        q
    } else {
        -q
    }
}

/// Whether `v` is representable as an `i64`.
pub open spec fn fits_i64(v: int) -> bool {
    i64::MIN <= v <= i64::MAX
}

/// Whether `r` is the square root of `n` rounded down.
pub open spec fn is_sqrt_floor(n: int, r: int) -> bool {
    0 <= r && r * r <= n && n < (r + 1) * (r + 1)
}

/// The square root of `n` rounded down (meaningful for `n >= 0`).
pub open spec fn sqrt_floor(n: int) -> int {
    choose|r: int| is_sqrt_floor(n, r)
}

/// The square root of `n` rounded up (meaningful for `n >= 0`).
pub open spec fn sqrt_ceil(n: int) -> int {
    if sqrt_floor(n) * sqrt_floor(n) == n {
        sqrt_floor(n)
    } else {
        sqrt_floor(n) + 1
    }
}

/// A product of two bounded integers is bounded by the product of the bounds.
pub proof fn lemma_mul_bounds(x: int, y: int, bx: int, b_y: int)
    requires
        -bx <= x <= bx,
        -b_y <= y <= b_y,
    ensures
        -(bx * b_y) <= x * y <= bx * b_y,
{
    assert(-(bx * b_y) <= x * y <= bx * b_y) by (nonlinear_arith)
        requires
            -bx <= x <= bx,
            -b_y <= y <= b_y,
    ;
}

/// The integer square root is unique.
pub proof fn lemma_sqrt_floor_unique(n: int, r1: int, r2: int)
    requires
        is_sqrt_floor(n, r1),
        is_sqrt_floor(n, r2),
    ensures
        r1 == r2,
{
    if r1 < r2 {
        assert((r1 + 1) * (r1 + 1) <= r2 * r2) by (nonlinear_arith)
            requires
                0 <= r1 < r2,
        ;
    } else if r2 < r1 {
        assert((r2 + 1) * (r2 + 1) <= r1 * r1) by (nonlinear_arith)
            requires
                0 <= r2 < r1,
        ;
    }
}

/// Any witness of the rounded-down square root is the one `sqrt_floor` names.
pub proof fn lemma_sqrt_floor_is(n: int, r: int)
    requires
        is_sqrt_floor(n, r),
    ensures
        sqrt_floor(n) == r,
{
    assert(exists|s: int| is_sqrt_floor(n, s));
    lemma_sqrt_floor_unique(n, r, sqrt_floor(n));
}

/// Every natural number has a rounded-down square root, and `sqrt_floor`
/// names it.
pub proof fn lemma_sqrt_floor_exists(n: int)
    requires
        n >= 0,
    ensures
        is_sqrt_floor(n, sqrt_floor(n)),
    decreases n,
{
    if n == 0 {
        lemma_sqrt_floor_is(0, 0);
    } else {
        lemma_sqrt_floor_exists(n - 1);
        let r = sqrt_floor(n - 1);
        if (r + 1) * (r + 1) <= n {
            assert(n < (r + 2) * (r + 2)) by (nonlinear_arith)
                requires
                    n - 1 < (r + 1) * (r + 1),
                    r >= 0,
            ;
            lemma_sqrt_floor_is(n, r + 1);
        } else {
            lemma_sqrt_floor_is(n, r);
        }
    }
}

/// The rounded-down and rounded-up square roots of a number below
/// `SQRT_ARG_LIMIT` are at most `SQRT_HI`, and a perfect square has equal
/// ones.
pub proof fn lemma_sqrt_bounds(n: int)
    requires
        0 <= n < SQRT_ARG_LIMIT,
    ensures
        is_sqrt_floor(n, sqrt_floor(n)),
        0 <= sqrt_floor(n) < SQRT_HI,
        sqrt_floor(n) <= sqrt_ceil(n) <= SQRT_HI,
        sqrt_ceil(n) * sqrt_ceil(n) >= n,
        sqrt_ceil(n) == sqrt_floor(n) ==> sqrt_floor(n) * sqrt_floor(n) == n,
{
    lemma_sqrt_floor_exists(n);
    let r = sqrt_floor(n);
    assert(SQRT_HI * SQRT_HI == SQRT_ARG_LIMIT);
    assert(r < SQRT_HI) by (nonlinear_arith)
        requires
            r >= 0,
            r * r <= n,
            n < SQRT_HI * SQRT_HI,
    ;
}

/// The quotient of a division by a positive divisor lies between the
/// dividend and zero.
proof fn lemma_div_between(n: int, d: int)
    requires
        d > 0,
    ensures
        n >= 0 ==> 0 <= n / d <= n,
        n < 0 ==> n <= n / d < 0,
{
    let q = n / d;
    let r = n % d;
    vstd::arithmetic::div_mod::lemma_fundamental_div_mod(n, d);
    vstd::arithmetic::div_mod::lemma_mod_bound(n, d);
    assert(n >= 0 ==> 0 <= q <= n) by (nonlinear_arith)
        requires
            n == d * q + r,
            0 <= r < d,
    ;
    assert(n < 0 ==> n <= q < 0) by (nonlinear_arith)
        requires
            n == d * q + r,
            0 <= r < d,
    ;
}

/// Rounding a quotient down never moves it further from zero than the
/// dividend.
pub proof fn lemma_floor_div_bound(n: int, d: int)
    requires
        d != 0,
    ensures
        n >= 0 ==> -n <= floor_div(n, d) <= n,
        n < 0 ==> n <= floor_div(n, d) <= -n,
{
    if d > 0 {
        lemma_div_between(n, d);
    } else {
        lemma_div_between(-n, -d);
    }
}

/// Rounding a quotient toward zero never moves it further from zero than
/// the dividend, and keeps the sign of a nonnegative dividend over a
/// positive divisor.
pub proof fn lemma_trunc_div_bound(n: int, d: int)
    requires
        d != 0,
    ensures
        -abs_int(n) <= trunc_div(n, d) <= abs_int(n),
        n >= 0 && d > 0 ==> 0 <= trunc_div(n, d),
{
    lemma_div_between(abs_int(n), abs_int(d));
}

/// `n / d` rounded toward zero, computed exactly.
pub fn trunc_div_wide(n: i128, d: i128) -> (q: i128)
    requires
        d != 0,
        n > i128::MIN,
        d > i128::MIN,
    ensures
        q == trunc_div(n as int, d as int),
        -abs_int(n as int) <= q <= abs_int(n as int),
        n >= 0 && d > 0 ==> 0 <= q,
{
    proof {
        lemma_trunc_div_bound(n as int, d as int);
    }
    match n.checked_div(d) {
        Some(q) => q,
        None => 0,
    }
}

/// `n / d` rounded down, computed exactly.
pub fn floor_div_wide(n: i128, d: i128) -> (q: i128)
    requires
        d != 0,
        n > i128::MIN,
        d > i128::MIN,
    ensures
        q == floor_div(n as int, d as int),
        n >= 0 ==> -n <= q <= n,
        n < 0 ==> n <= q <= -n,
{
    let (nn, dd) = if d > 0 {
        (n, d)
    } else {
        (-n, -d)
    };
    proof {
        lemma_div_between(nn as int, dd as int);
    }
    match nn.checked_div_euclid(dd) {
        Some(q) => q,
        None => 0,
    }
}

/// The square root of `n` rounded down.
pub fn isqrt(n: u128) -> (r: u128)
    requires
        n < SQRT_ARG_LIMIT,
    ensures
        is_sqrt_floor(n as int, r as int),
        r == sqrt_floor(n as int),
        r < SQRT_HI,
{
    let mut lo: u128 = 0;
    let mut hi: u128 = SQRT_HI;
    assert(SQRT_HI * SQRT_HI == SQRT_ARG_LIMIT);
    while hi - lo > 1
        invariant
            lo < hi <= SQRT_HI,
            lo * lo <= n,
            n < hi * hi,
        decreases hi - lo,
    {
        let mid = lo + (hi - lo) / 2;
        assert(mid * mid <= SQRT_HI * SQRT_HI) by (nonlinear_arith)
            requires
                mid <= SQRT_HI,
        ;
        if mid * mid <= n {
            lo = mid;
        } else {
            hi = mid;
        }
    }
    proof {
        lemma_sqrt_floor_is(n as int, lo as int);
    }
    lo
}

} // verus!
