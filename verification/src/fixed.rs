//! Fixed-point scalars: an `i32` that counts millionths.
//!
//! Results that leave the range of an `i32` are clamped to it, so every
//! operation is total and leaves alone what already fits. Quotients are
//! truncated toward zero or rounded to the nearest integer, both alike for
//! a number and its negative.

use vstd::prelude::*;

verus! {

/// The scalar 1.0.
pub const ONE: i32 = 1_000_000;

/// The largest scalar.
pub const LIMIT: i32 = 2_147_483_647;

/// The least scalar.
pub const LEAST: i32 = -2_147_483_648;

/// `x` clamped to the range of a scalar, `LEAST ..= LIMIT`.
pub open spec fn clamped(x: int) -> int {
    if x > LIMIT {
        LIMIT as int
    } else if x < LEAST {
        LEAST as int
    } else {
        x
    }
}

/// The absolute value of an integer.
pub open spec fn magnitude(x: int) -> int {
    if x < 0 {
        -x
    } else {
        x
    }
}

/// The quotient of `a` by a positive `b`, truncated toward zero.
pub open spec fn quotient(a: int, b: int) -> int
    recommends
        b > 0,
{
    if a >= 0 {
        a / b
    } else {
        -((-a) / b)
    }
}

/// The quotient of `a` by a positive `b`, rounded to the nearest integer,
/// halves away from zero.
pub open spec fn rounded_quotient(a: int, b: int) -> int
    recommends
        b > 0,
{
    if a >= 0 {
        (2 * a + b) / (2 * b)
    } else {
        -((2 * (-a) + b) / (2 * b))
    }
}

/// The fixed-point product of two scalars.
pub open spec fn times(a: int, b: int) -> int {
    clamped(quotient(a * b, ONE as int))
}

/// The fixed-point quotient of a scalar by a positive scalar.
pub open spec fn over(a: int, b: int) -> int
    recommends
        b > 0,
{
    clamped(quotient(a * ONE, b))
}

/// `x` clamped to `lo ..= hi`.
pub open spec fn clamped_to(x: int, lo: int, hi: int) -> int
    recommends
        lo <= hi,
{
    if x < lo {
        lo
    } else if x > hi {
        hi
    } else {
        x
    }
}

/// Whether `r` is the integer square root of `n`.
pub open spec fn is_floor_sqrt(n: nat, r: nat) -> bool {
    r * r <= n < (r + 1) * (r + 1)
}

/// The integer square root: the largest `r` with `r * r <= n`.
pub open spec fn floor_sqrt(n: nat) -> nat {
    choose|r: nat| is_floor_sqrt(n, r)
}

/// Clamps a wide intermediate result to the scalar range.
pub fn saturate(x: i128) -> (r: i32)
    ensures
        r == clamped(x as int),
{
    if x > LIMIT as i128 {
        LIMIT
    } else if x < LEAST as i128 {
        LEAST
    } else {
        x as i32
    }
}

/// The product of two scalars as an integer, before any scaling.
pub fn product(a: i32, b: i32) -> (p: i64)
    ensures
        p == a * b,
        -0x4000_0000_0000_0000 <= p <= 0x4000_0000_0000_0000,
{
    assert(-0x4000_0000_0000_0000 <= a * b <= 0x4000_0000_0000_0000) by (nonlinear_arith)
        requires
            -0x8000_0000 <= a <= 0x7fff_ffff,
            -0x8000_0000 <= b <= 0x7fff_ffff,
    ;
    (a as i64) * (b as i64)
}

/// The fixed-point product of two scalars.
pub fn scale(a: i32, b: i32) -> (r: i32)
    ensures
        r == times(a as int, b as int),
{
    saturate((product(a, b) / (ONE as i64)) as i128)
}

/// The fixed-point quotient of a scalar by a positive scalar.
pub fn ratio(a: i32, b: i32) -> (r: i32)
    requires
        b > 0,
    ensures
        r == over(a as int, b as int),
{
    saturate((product(a, ONE) / (b as i64)) as i128)
}

/// The quotient of `a` by a positive `b`, rounded to the nearest integer,
/// halves away from zero.
pub fn divide_rounded(a: i64, b: i64) -> (r: i64)
    requires
        b > 0,
    ensures
        r == rounded_quotient(a as int, b as int),
{
    let wide: i128 = a as i128;
    let den: i128 = 2 * (b as i128);
    let r: i128 = if wide >= 0 {
        (2 * wide + b as i128) / den
    } else {
        -((2 * (-wide) + b as i128) / den)
    };
    assert(-0x8000_0000_0000_0000 <= r <= 0x7fff_ffff_ffff_ffff) by (nonlinear_arith)
        requires
            b >= 1,
            den == 2 * b,
            -0x8000_0000_0000_0000 <= wide <= 0x7fff_ffff_ffff_ffff,
            r == rounded_quotient(wide as int, b as int),
    ;
    r as i64
}

/// The quotient of a wide `a` by a positive `b`, rounded to the nearest
/// integer, halves away from zero.
pub(crate) fn divide_rounded_wide(a: i128, b: u64) -> (r: i128)
    requires
        b > 0,
        -0x1_0000_0000_0000_0000_0000_0000_0000 <= a <= 0x1_0000_0000_0000_0000_0000_0000_0000,
    ensures
        r == rounded_quotient(a as int, b as int),
        magnitude(r as int) <= magnitude(a as int),
{
    proof {
        lemma_rounded_quotient_bounds(a as int, b as int);
    }
    let den: i128 = 2 * (b as i128);
    if a >= 0 {
        (2 * a + b as i128) / den
    } else {
        -((2 * (-a) + b as i128) / den)
    }
}

/// `x` clamped to `lo ..= hi`.
pub fn clamp(x: i32, lo: i32, hi: i32) -> (r: i32)
    requires
        lo <= hi,
    ensures
        r == clamped_to(x as int, lo as int, hi as int),
{
    if x < lo {
        lo
    } else if x > hi {
        hi
    } else {
        x
    }
}

/// The integer square root of `n`, by bisection.
pub fn integer_sqrt(n: u128) -> (r: u64)
    ensures
        r == floor_sqrt(n as nat),
        is_floor_sqrt(n as nat, r as nat),
{
    let mut lo: u128 = 0;
    let mut hi: u128 = 0x1_0000_0000_0000_0000;
    assert(0x1_0000_0000_0000_0000 * 0x1_0000_0000_0000_0000 > n) by (nonlinear_arith)
        requires
            n <= u128::MAX,
    ;
    while hi - lo > 1
        invariant
            lo < hi <= 0x1_0000_0000_0000_0000,
            lo * lo <= n < hi * hi,
        decreases hi - lo,
    {
        let mid: u128 = lo + (hi - lo) / 2;
        assert(mid * mid <= 0xffff_ffff_ffff_ffff * 0xffff_ffff_ffff_ffff) by (nonlinear_arith)
            requires
                0 <= mid <= 0xffff_ffff_ffff_ffff,
        ;
        if mid * mid <= n {
            lo = mid;
        } else {
            hi = mid;
        }
    }
    proof {
        lemma_floor_sqrt_unique(n as nat, lo as nat);
    }
    lo as u64
}

/// Rounding keeps the order of the numerators.
pub proof fn lemma_rounded_quotient_monotonic(a1: int, a2: int, b: int)
    requires
        a1 <= a2,
        b > 0,
    ensures
        rounded_quotient(a1, b) <= rounded_quotient(a2, b),
{
    if a1 >= 0 {
        vstd::arithmetic::div_mod::lemma_div_is_ordered(2 * a1 + b, 2 * a2 + b, 2 * b);
    } else if a2 < 0 {
        vstd::arithmetic::div_mod::lemma_div_is_ordered(2 * (-a2) + b, 2 * (-a1) + b, 2 * b);
    } else {
        vstd::arithmetic::div_mod::lemma_div_is_ordered(0, 2 * (-a1) + b, 2 * b);
        vstd::arithmetic::div_mod::lemma_div_is_ordered(0, 2 * a2 + b, 2 * b);
    }
}

/// A multiple of `b` divided by `b` leaves nothing to truncate or round.
pub proof fn lemma_quotient_of_multiple(a: int, b: int)
    by (nonlinear_arith)
    requires
        b > 0,
    ensures
        quotient(a * b, b) == a,
        rounded_quotient(a * b, b) == a,
{
    if a >= 0 {
        assert((a * b) / b == a);
        assert((2 * (a * b) + b) / (2 * b) == a) by {
            assert(2 * (a * b) + b == a * (2 * b) + b);
            assert(a * (2 * b) <= a * (2 * b) + b < (a + 1) * (2 * b));
        }
    } else {
        let n = -a;
        assert(-(a * b) == n * b);
        assert((n * b) / b == n);
        assert((2 * (n * b) + b) / (2 * b) == n) by {
            assert(2 * (n * b) + b == n * (2 * b) + b);
            assert(n * (2 * b) <= n * (2 * b) + b < (n + 1) * (2 * b));
        }
    }
}

/// Truncation toward zero commutes with negation.
pub proof fn lemma_quotient_negated(a: int, b: int)
    requires
        b > 0,
    ensures
        quotient(-a, b) == -quotient(a, b),
{
    if a == 0 {
        assert(0int / b == 0) by (nonlinear_arith)
            requires
                b > 0,
        ;
    }
}

/// Rounding to the nearest integer commutes with negation.
pub proof fn lemma_rounded_quotient_negated(a: int, b: int)
    requires
        b > 0,
    ensures
        rounded_quotient(-a, b) == -rounded_quotient(a, b),
{
    if a == 0 {
        assert((2 * 0 + b) / (2 * b) == 0) by (nonlinear_arith)
            requires
                b > 0,
        ;
    }
}

/// A quotient is no larger than its numerator, and a multiple of at most
/// `m` by `r`, divided by `m`, is at most `r`.
pub proof fn lemma_rounded_quotient_bounds(a: int, b: int)
    by (nonlinear_arith)
    requires
        b > 0,
    ensures
        magnitude(rounded_quotient(a, b)) <= magnitude(a),
        magnitude(quotient(a, b)) <= magnitude(a),
{
    let n = magnitude(a);
    assert((2 * n + b) / (2 * b) <= n) by {
        if n >= 1 {
            assert(2 * n + b < (n + 1) * (2 * b));
        } else {
            assert(2 * n + b < 1 * (2 * b));
        }
    }
    assert(n / b <= n);
}

/// Every natural number has an integer square root.
pub proof fn lemma_floor_sqrt_exists(n: nat)
    ensures
        is_floor_sqrt(n, floor_sqrt(n)),
    decreases n,
{
    if n == 0 {
        assert(0nat * 0nat == 0 && (0nat + 1) * (0nat + 1) == 1) by (nonlinear_arith);
        assert(is_floor_sqrt(0, 0));
    } else {
        lemma_floor_sqrt_exists((n - 1) as nat);
        let r = floor_sqrt((n - 1) as nat);
        if n < (r + 1) * (r + 1) {
            assert(is_floor_sqrt(n, r));
        } else {
            assert((r + 2) * (r + 2) > (r + 1) * (r + 1)) by (nonlinear_arith);
            assert(is_floor_sqrt(n, r + 1));
        }
    }
}

/// The integer square root is the only number between whose square and
/// whose successor's square `n` lies.
pub proof fn lemma_floor_sqrt_unique(n: nat, r: nat)
    requires
        is_floor_sqrt(n, r),
    ensures
        floor_sqrt(n) == r,
{
    let s = floor_sqrt(n);
    assert(is_floor_sqrt(n, s));
    if s < r {
        assert((s + 1) * (s + 1) <= r * r) by (nonlinear_arith)
            requires
                s + 1 <= r,
        ;
    } else if r < s {
        assert((r + 1) * (r + 1) <= s * s) by (nonlinear_arith)
            requires
                r + 1 <= s,
        ;
    }
}

/// A rounded quotient, times its divisor, is off the dividend by half the
/// divisor at most.
pub proof fn lemma_rounding_error(a: int, b: int)
    by (nonlinear_arith)
    requires
        b > 0,
    ensures
        -b <= 2 * (b * rounded_quotient(a, b)) - 2 * a <= b,
{
    if a >= 0 {
        let q = (2 * a + b) / (2 * b);
        assert(q * (2 * b) <= 2 * a + b < q * (2 * b) + 2 * b);
        assert(2 * (b * q) == q * (2 * b));
    } else {
        let q = (2 * (-a) + b) / (2 * b);
        assert(q * (2 * b) <= 2 * (-a) + b < q * (2 * b) + 2 * b);
        assert(2 * (b * (-q)) == -(q * (2 * b)));
    }
}

/// Between two squares the integer square root is between their roots.
pub proof fn lemma_floor_sqrt_within(n: nat, lo: int, hi: int)
    requires
        0 <= lo,
        lo * lo <= n <= hi * hi,
        0 <= hi,
    ensures
        lo <= floor_sqrt(n) <= hi,
{
    lemma_floor_sqrt_exists(n);
    let r = floor_sqrt(n) as int;
    if r < lo {
        assert((r + 1) * (r + 1) <= lo * lo) by (nonlinear_arith)
            requires
                0 <= r + 1 <= lo,
        ;
    }
    if r > hi {
        assert(r * r > hi * hi) by (nonlinear_arith)
            requires
                r > hi >= 0,
        ;
    }
}

} // verus!
