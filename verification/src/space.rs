//! Lengths and inner products of vectors of integers, with nothing
//! clamped: Cauchy's inequality and the triangle inequality.

use vstd::prelude::*;
use crate::arith::{lemma_four_factors, lemma_root_within, lemma_three_terms};
use crate::fixed::{clamped, floor_sqrt, magnitude, quotient, LIMIT, ONE};
use crate::fixed::lemma_floor_sqrt_exists;
use crate::vector::SpecVec3;

verus! {

/// The inner product of two vectors as an integer, before any scaling.
pub open spec fn inner(u: SpecVec3, v: SpecVec3) -> int {
    u.x * v.x + u.y * v.y + u.z * v.z
}

/// The sum of two vectors, with nothing clamped.
pub open spec fn plus(u: SpecVec3, v: SpecVec3) -> SpecVec3 {
    SpecVec3 { x: u.x + v.x, y: u.y + v.y, z: u.z + v.z }
}

/// The vector `v` times the integer `k`, with nothing clamped.
pub open spec fn scaled(v: SpecVec3, k: int) -> SpecVec3 {
    SpecVec3 { x: k * v.x, y: k * v.y, z: k * v.z }
}

/// The inner product of two vectors is at most the product of their
/// lengths.
pub proof fn lemma_inner_bound(u: SpecVec3, v: SpecVec3)
    ensures
        inner(u, v) * inner(u, v) <= u.norm_sq() * v.norm_sq(),
{
    let (a, b, c) = (u.x * v.x, u.y * v.y, u.z * v.z);
    let (x1, x2, x3) = (u.x * u.x, u.y * u.y, u.z * u.z);
    let (y1, y2, y3) = (v.x * v.x, v.y * v.y, v.z * v.z);
    assert(x1 >= 0 && x2 >= 0 && x3 >= 0 && y1 >= 0 && y2 >= 0 && y3 >= 0) by (nonlinear_arith)
        requires
            x1 == u.x * u.x,
            x2 == u.y * u.y,
            x3 == u.z * u.z,
            y1 == v.x * v.x,
            y2 == v.y * v.y,
            y3 == v.z * v.z,
    ;
    lemma_square_of_three(a, b, c);
    lemma_three_terms(x1 + x2 + x3, y1, y2, y3);
    lemma_three_terms(y1, x1, x2, x3);
    lemma_three_terms(y2, x1, x2, x3);
    lemma_three_terms(y3, x1, x2, x3);
    assert((x1 + x2 + x3) * y1 == y1 * (x1 + x2 + x3) && (x1 + x2 + x3) * y2 == y2 * (x1 + x2
        + x3) && (x1 + x2 + x3) * y3 == y3 * (x1 + x2 + x3)) by (nonlinear_arith);
    lemma_four_factors(u.x, v.x, u.x, v.x);
    lemma_four_factors(u.y, v.y, u.y, v.y);
    lemma_four_factors(u.z, v.z, u.z, v.z);
    lemma_pair(u.x, v.x, u.y, v.y);
    lemma_pair(u.x, v.x, u.z, v.z);
    lemma_pair(u.y, v.y, u.z, v.z);
    assert(y1 * x1 == a * a && y2 * x2 == b * b && y3 * x3 == c * c) by (nonlinear_arith)
        requires
            (u.x * v.x) * (u.x * v.x) == (v.x * v.x) * (u.x * u.x),
            (u.y * v.y) * (u.y * v.y) == (v.y * v.y) * (u.y * u.y),
            (u.z * v.z) * (u.z * v.z) == (v.z * v.z) * (u.z * u.z),
            a == u.x * v.x,
            b == u.y * v.y,
            c == u.z * v.z,
            x1 == u.x * u.x,
            x2 == u.y * u.y,
            x3 == u.z * u.z,
            y1 == v.x * v.x,
            y2 == v.y * v.y,
            y3 == v.z * v.z,
    ;
    assert(y2 * x1 == x1 * y2 && y1 * x2 == x2 * y1 && y3 * x1 == x1 * y3 && y1 * x3 == x3 * y1
        && y3 * x2 == x2 * y3 && y2 * x3 == x3 * y2) by (nonlinear_arith);
}

/// The square of a sum of three.
pub proof fn lemma_square_of_three(a: int, b: int, c: int)
    by (nonlinear_arith)
    ensures
        (a + b + c) * (a + b + c) == a * a + b * b + c * c + 2 * (a * b) + 2 * (a * c) + 2 * (b
            * c),
{
}

/// Twice the product of two products is at most the sum of the squares of
/// the two crossed products.
pub proof fn lemma_pair(x1: int, y1: int, x2: int, y2: int)
    ensures
        2 * ((x1 * y1) * (x2 * y2)) <= (x1 * x1) * (y2 * y2) + (x2 * x2) * (y1 * y1),
{
    let s = x1 * y2;
    let t = x2 * y1;
    assert(2 * (s * t) <= s * s + t * t) by (nonlinear_arith);
    lemma_four_factors(x1, y2, x1, y2);
    lemma_four_factors(x2, y1, x2, y1);
    lemma_four_factors(x1, y2, x2, y1);
    lemma_four_factors(x1, y1, x2, y2);
    assert(y2 * y1 == y1 * y2) by (nonlinear_arith);
}

/// The length of a sum of two vectors is at most the sum of their lengths:
/// with `by` and `bd` at least the lengths of `y` and `d`, the length of
/// their sum is at most `by + bd`.
pub proof fn lemma_triangle(y: SpecVec3, d: SpecVec3, by: int, bd: int)
    requires
        y.norm_sq() <= by * by,
        d.norm_sq() <= bd * bd,
        by >= 0,
        bd >= 0,
    ensures
        plus(y, d).norm_sq() <= (by + bd) * (by + bd),
{
    let x = plus(y, d);
    assert(y.x * y.x >= 0 && y.y * y.y >= 0 && y.z * y.z >= 0) by (nonlinear_arith);
    assert(d.x * d.x >= 0 && d.y * d.y >= 0 && d.z * d.z >= 0) by (nonlinear_arith);
    assert(x.x * x.x >= 0 && x.y * x.y >= 0 && x.z * x.z >= 0) by (nonlinear_arith);
    lemma_binomial(y.x, d.x);
    lemma_binomial(y.y, d.y);
    lemma_binomial(y.z, d.z);
    let t = inner(y, d);
    assert(x.norm_sq() == y.norm_sq() + 2 * t + d.norm_sq());
    lemma_inner_bound(y, d);
    lemma_products_ordered(y.norm_sq() as int, d.norm_sq() as int, by * by, bd * bd);
    lemma_four_factors(by, by, bd, bd);
    assert((by * bd) * (by * bd) == (by * by) * (bd * bd)) by (nonlinear_arith);
    assert(by * bd >= 0) by (nonlinear_arith)
        requires
            by >= 0,
            bd >= 0,
    ;
    lemma_root_within(t, (y.norm_sq() * d.norm_sq()) as int, by * bd);
    assert((by + bd) * (by + bd) == by * by + 2 * (by * bd) + bd * bd) by (nonlinear_arith);
}

/// The square of a sum of two.
pub proof fn lemma_binomial(a: int, b: int)
    by (nonlinear_arith)
    ensures
        (a + b) * (a + b) == a * a + 2 * (a * b) + b * b,
{
}

/// Products of numbers that are not negative keep the order of their
/// factors.
pub proof fn lemma_products_ordered(a: int, b: int, c: int, d: int)
    by (nonlinear_arith)
    requires
        0 <= a <= c,
        0 <= b <= d,
    ensures
        a * b <= c * d,
{
}

/// The squared length of a scaled vector.
pub proof fn lemma_scaled_norm(v: SpecVec3, k: int)
    ensures
        scaled(v, k).norm_sq() == (k * k) * v.norm_sq(),
{
    assert(v.x * v.x >= 0 && v.y * v.y >= 0 && v.z * v.z >= 0) by (nonlinear_arith);
    lemma_four_factors(k, v.x, k, v.x);
    lemma_four_factors(k, v.y, k, v.y);
    lemma_four_factors(k, v.z, k, v.z);
    lemma_three_terms(k * k, v.x * v.x, v.y * v.y, v.z * v.z);
    assert((k * v.x) * (k * v.x) == (k * k) * (v.x * v.x) && (k * v.y) * (k * v.y) == (k * k) * (v.y
        * v.y) && (k * v.z) * (k * v.z) == (k * k) * (v.z * v.z)) by (nonlinear_arith)
        requires
            (k * v.x) * (k * v.x) == (v.x * v.x) * (k * k),
            (k * v.y) * (k * v.y) == (v.y * v.y) * (k * k),
            (k * v.z) * (k * v.z) == (v.z * v.z) * (k * k),
    ;
    assert((k * k) * v.norm_sq() >= 0) by (nonlinear_arith)
        requires
            v.norm_sq() >= 0,
    ;
}

/// Squaring keeps the order of numbers that are not negative.
pub proof fn lemma_squares_ordered(a: int, b: int)
    by (nonlinear_arith)
    requires
        0 <= a <= b,
    ensures
        a * a <= b * b,
{
}

/// Squaring keeps the strict order of numbers that are not negative.
pub proof fn lemma_squares_strictly_ordered(a: int, b: int)
    by (nonlinear_arith)
    requires
        0 <= a < b,
    ensures
        a * a < b * b,
{
}

/// A squared length `q` of at most the square of `b`, times the square of
/// `k`, is at most the square of `k * b`.
pub proof fn lemma_length_times(q: int, k: int, b: int)
    by (nonlinear_arith)
    requires
        0 <= q <= b * b,
    ensures
        (k * k) * q <= (k * b) * (k * b),
{
    assert((k * b) * (k * b) == (k * k) * (b * b));
    assert(k * k >= 0);
}

/// A squared length `q` whose product with the square of `k` is at most the
/// square of `k * b` is at most the square of `b`.
pub proof fn lemma_length_over(q: int, k: int, b: int)
    by (nonlinear_arith)
    requires
        k >= 1,
        (k * k) * q <= (k * b) * (k * b),
    ensures
        q <= b * b,
{
    assert((k * b) * (k * b) == (k * k) * (b * b));
    if q > b * b {
        assert((k * k) * q >= (k * k) * (b * b + 1));
        assert(k * k >= 1);
    }
}

/// The length of a scaled vector is the length of the vector times the
/// magnitude of the scalar, but for rounding: off by less than three
/// millionths below, and above by two millionths and a millionth of the
/// scalar at most. The products of the components and the scalar must stay
/// within the range of a scalar.
pub proof fn lemma_mul_length(v: SpecVec3, s: int)
    requires
        magnitude(v.x * s) <= LIMIT * ONE,
        magnitude(v.y * s) <= LIMIT * ONE,
        magnitude(v.z * s) <= LIMIT * ONE,
    ensures
        -3 * ONE < ONE * floor_sqrt(v.mul(s).norm_sq()) - magnitude(s) * floor_sqrt(v.norm_sq())
            <= magnitude(s) + 2 * ONE,
{
    let one = ONE as int;
    let u = v.mul(s);
    let r = magnitude(s);
    lemma_quotient_cut(v.x * s, one);
    lemma_quotient_cut(v.y * s, one);
    lemma_quotient_cut(v.z * s, one);
    assert(u == SpecVec3 {
        x: quotient(v.x * s, one),
        y: quotient(v.y * s, one),
        z: quotient(v.z * s, one),
    });
    // The scaled vector, in finer units, is the exact product and the cut.
    let exact = scaled(v, s);
    let rest = SpecVec3 {
        x: one * u.x - s * v.x,
        y: one * u.y - s * v.y,
        z: one * u.z - s * v.z,
    };
    let fine = scaled(u, one);
    assert(s * v.x == v.x * s && s * v.y == v.y * s && s * v.z == v.z * s) by (nonlinear_arith);
    assert(fine == plus(exact, rest));
    assert(exact == plus(fine, scaled(rest, -1)));
    lemma_scaled_norm(v, s);
    lemma_scaled_norm(u, one);
    lemma_scaled_norm(rest, -1);
    let cut = 2 * one - 1;
    assert(0 <= rest.x * rest.x <= (one - 1) * (one - 1) && 0 <= rest.y * rest.y <= (one - 1)
        * (one - 1) && 0 <= rest.z * rest.z <= (one - 1) * (one - 1) && 3 * ((one - 1) * (one
        - 1)) <= cut * cut) by (nonlinear_arith)
        requires
            -(one - 1) <= rest.x <= one - 1,
            -(one - 1) <= rest.y <= one - 1,
            -(one - 1) <= rest.z <= one - 1,
            cut == 2 * one - 1,
            one == 1_000_000,
    ;
    lemma_floor_sqrt_exists(v.norm_sq());
    lemma_floor_sqrt_exists(u.norm_sq());
    let q = floor_sqrt(v.norm_sq()) as int;
    let t = floor_sqrt(u.norm_sq()) as int;
    let vv = v.norm_sq() as int;
    let uu = u.norm_sq() as int;
    assert(s * s == r * r && r >= 0) by (nonlinear_arith)
        requires
            r == magnitude(s),
    ;
    let ss = s * s;
    // From above.
    let top = r * (q + 1);
    assert(ss * vv <= top * top && top >= 0) by (nonlinear_arith)
        requires
            ss == r * r,
            top == r * (q + 1),
            r >= 0,
            0 <= vv <= (q + 1) * (q + 1),
            q >= 0,
    {
        assert(top * top == (r * r) * ((q + 1) * (q + 1)));
        assert((r * r) * vv <= (r * r) * ((q + 1) * (q + 1)));
    }
    lemma_triangle(exact, rest, top, cut);
    assert((one * t) * (one * t) <= (one * one) * uu && one * t >= 0) by (nonlinear_arith)
        requires
            0 <= t * t <= uu,
            t >= 0,
            one == 1_000_000,
    {
        assert((one * t) * (one * t) == (one * one) * (t * t));
    }
    lemma_root_within(one * t, (one * one) * uu, top + cut);
    assert(top + cut <= r * q + r + 2 * one) by (nonlinear_arith)
        requires
            top == r * (q + 1),
            cut == 2 * one - 1,
    ;
    // From below.
    if one * t <= r * q - 3 * one {
        let low = one * (t + 1);
        assert((one * one) * uu <= low * low && low >= 0) by (nonlinear_arith)
            requires
                low == one * (t + 1),
                0 <= uu <= (t + 1) * (t + 1),
                t >= 0,
                one == 1_000_000,
        {
            assert(low * low == (one * one) * ((t + 1) * (t + 1)));
            assert((one * one) * uu <= (one * one) * ((t + 1) * (t + 1)));
        }
        lemma_triangle(fine, scaled(rest, -1), low, cut);
        assert(0 <= low + cut < r * q);
        lemma_squares_strictly_ordered(low + cut, r * q);
        assert((r * q) * (r * q) <= ss * vv) by (nonlinear_arith)
            requires
                ss == r * r,
                0 <= q * q <= vv,
        {
            assert((r * q) * (r * q) == (r * r) * (q * q));
            assert((r * r) * (q * q) <= (r * r) * vv);
        }
        assert(false);
    }
}

/// A number against `b` times its quotient by `b`, cut toward zero: the
/// two differ by less than `b`, and the quotient of a number within
/// `LIMIT * b` is a scalar.
proof fn lemma_quotient_cut(w: int, b: int)
    by (nonlinear_arith)
    requires
        b > 0,
        magnitude(w) <= LIMIT * b,
    ensures
        -(b - 1) <= b * quotient(w, b) - w <= b - 1,
        clamped(quotient(w, b)) == quotient(w, b),
{
    let n = magnitude(w);
    let q = n / b;
    assert(q * b <= n < q * b + b);
    assert(q <= LIMIT);
    assert(magnitude(quotient(w, b)) == q);
    if w >= 0 {
        assert(b * quotient(w, b) - w == -(n - q * b));
    } else {
        assert(b * quotient(w, b) - w == n - q * b);
    }
}

} // verus!
