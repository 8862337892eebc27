//! How close the computed distance is to the true one.
//!
//! The nearest point of the ring lies in the direction of the exact part of
//! the point across the axis, at the distance of the major radius from the
//! origin. `truth` is the vector from the point to it, scaled up by the
//! length of the exact part across so that it is a vector of integers, and
//! `lemma_truth_length` writes its length out in the lengths and the inner
//! product of the point and the axis. `lemma_torus_distance_is_true` then
//! states that the computed distance is within six millionths of the true
//! one. On the way, `lemma_distance_to_aim` bounds what the rounding of the
//! ring point does, and `lemma_cut_length` what the cut of the part across
//! does.

use vstd::prelude::*;
use crate::arith::{lemma_four_factors, lemma_order_times, lemma_product_within};
use crate::arith::lemma_three_terms;
use crate::fixed::{floor_sqrt, magnitude, quotient, rounded_quotient, ONE};
use crate::fixed::{lemma_floor_sqrt_exists, lemma_floor_sqrt_within, lemma_rounding_error};
use crate::sdf::{across, across_exact, ring_from, ring_point, steady_axis};
use crate::space::{inner, plus, scaled};
use crate::space::{lemma_length_over, lemma_length_times, lemma_scaled_norm};
use crate::space::{lemma_squares_ordered, lemma_squares_strictly_ordered, lemma_triangle};
use crate::sdf::{AXIS_FLOOR_SQ, AXIS_LIMIT_SQ};
use crate::sdf::{lemma_across_exact, lemma_ring_part};
use crate::vector::{SpecVec3, Vec2};

verus! {

/// The length of the cut part of `p` across `a`, in millionths of a
/// millionth of a millionth, as the exact part across is.
pub open spec fn cut_len(p: SpecVec3, a: SpecVec3) -> int {
    floor_sqrt(across(p, a).norm_sq()) * ONE
}

/// `cut_len` times the vector from `p` to the point that the computed ring
/// point stands for: the exact part across, scaled from `cut_len` to the
/// length `major`.
pub open spec fn aim(p: SpecVec3, major: int, a: SpecVec3) -> SpecVec3 {
    let w = across_exact(p, a);
    let m = cut_len(p, a);
    SpecVec3 { x: major * w.x - m * p.x, y: major * w.y - m * p.y, z: major * w.z - m * p.z }
}

/// The length of the exact part of `p` across `a`, rounded down.
pub open spec fn exact_len(p: SpecVec3, a: SpecVec3) -> int {
    floor_sqrt(across_exact(p, a).norm_sq()) as int
}

/// `exact_len` times the vector from `p` to the nearest point of the ring:
/// the exact part across, scaled from `exact_len` to the length `major`.
/// Since `exact_len` is the length of the exact part but for the rounding
/// down, this is the true vector but for one part in `exact_len` of the
/// major radius.
pub open spec fn truth(p: SpecVec3, major: int, a: SpecVec3) -> SpecVec3 {
    let w = across_exact(p, a);
    let l = exact_len(p, a);
    SpecVec3 { x: major * w.x - l * p.x, y: major * w.y - l * p.y, z: major * w.z - l * p.z }
}

/// The cut part across is at most four parts in its own length shorter
/// than the exact part, and never longer.
pub proof fn lemma_cut_length(p: SpecVec3, a: SpecVec3)
    ensures
        cut_len(p, a) * cut_len(p, a) <= across_exact(p, a).norm_sq() <= (cut_len(p, a) + 4 * ONE)
            * (cut_len(p, a) + 4 * ONE),
{
    let one = ONE as int;
    let w = across_exact(p, a);
    let v = across(p, a);
    let m = floor_sqrt(v.norm_sq()) as int;
    lemma_floor_sqrt_exists(v.norm_sq());
    assert(v.x * v.x >= 0 && v.y * v.y >= 0 && v.z * v.z >= 0) by (nonlinear_arith);
    assert(w.x * w.x >= 0 && w.y * w.y >= 0 && w.z * w.z >= 0) by (nonlinear_arith);
    let n = v.norm_sq() as int;
    assert((m + 1) * (m + 1) == m * m + 2 * m + 1) by (nonlinear_arith);
    lemma_root_below(v.x, n, m);
    lemma_root_below(v.y, n, m);
    lemma_root_below(v.z, n, m);
    lemma_cut_part(w.x, one, v.x);
    lemma_cut_part(w.y, one, v.y);
    lemma_cut_part(w.z, one, v.z);
    let oo = one * one;
    lemma_three_terms(oo, v.x * v.x, v.y * v.y, v.z * v.z);
    lemma_order_times(oo, m * m, n);
    assert((m * one) * (m * one) == oo * (m * m)) by (nonlinear_arith)
        requires
            oo == one * one,
    ;
    // From above: each component is less than a unit longer.
    let s = magnitude(v.x) + magnitude(v.y) + magnitude(v.z);
    lemma_three_terms(
        oo,
        v.x * v.x + 2 * magnitude(v.x) + 1,
        v.y * v.y + 2 * magnitude(v.y) + 1,
        v.z * v.z + 2 * magnitude(v.z) + 1,
    );
    lemma_order_times(oo, n + 2 * s + 3, m * m + 8 * m + 16);
    assert((m * one + 4 * one) * (m * one + 4 * one) == oo * (m * m + 8 * m + 16))
        by (nonlinear_arith)
        requires
            oo == one * one,
    ;
}

/// A number whose square is below the square of `m + 1` is at most `m` in
/// magnitude.
proof fn lemma_root_below(x: int, n: int, m: int)
    by (nonlinear_arith)
    requires
        0 <= x * x <= n < (m + 1) * (m + 1),
        m >= 0,
    ensures
        magnitude(x) <= m,
{
    if x > m {
        assert(x * x >= (m + 1) * (m + 1));
    }
    if x < -m {
        assert(x * x >= (m + 1) * (m + 1));
    }
}

/// A number `w` against its quotient `v` by `b`, cut toward zero: the
/// square of `w` is at least that of `b * v`, and at most that of `b`
/// times one more than the magnitude of `v`.
proof fn lemma_cut_part(w: int, b: int, v: int)
    by (nonlinear_arith)
    requires
        b > 0,
        v == quotient(w, b),
    ensures
        (b * b) * (v * v) <= w * w <= (b * b) * (v * v + 2 * magnitude(v) + 1),
        -b < w - b * v < b,
{
    let n = magnitude(w);
    let q = n / b;
    assert(q * b <= n < q * b + b);
    assert(magnitude(v) == q);
    assert(w * w == n * n && v * v == q * q);
    assert((q * b) * (q * b) <= n * n);
    assert(n * n <= (q * b + b) * (q * b + b));
    assert((q * b) * (q * b) == (b * b) * (q * q));
    assert((q * b + b) * (q * b + b) == (b * b) * (q * q + 2 * q + 1));
    if w >= 0 {
        assert(w - b * v == n - q * b);
    } else {
        assert(w - b * v == -(n - q * b));
    }
}

/// The distance to the ring's center line, as `torus_distance` computes it
/// before it takes the tube radius off, is within six millionths of the
/// true one, for every point that keeps clear of the axis. The axis is one
/// that is used as it is, from half a unit to two units long. The point
/// leaves room for the major radius within the range of a scalar. And its
/// distance from the axis is at least four millionths of the major radius
/// and five millionths more, for a unit axis: stated exactly, `|a|^2` times
/// that distance is at least `ONE * (4 * major + 5)`.
pub proof fn lemma_torus_distance_is_true(p: SpecVec3, t: Vec2, axis: SpecVec3)
    requires
        AXIS_FLOOR_SQ <= axis.norm_sq() <= AXIS_LIMIT_SQ,
        0 <= t.x,
        p.has_room(t.x as int),
        axis.norm_sq() * (axis.norm_sq() * p.norm_sq() - inner(p, axis) * inner(p, axis)) >= (ONE
            * (4 * t.x + 5)) * (ONE * (4 * t.x + 5)),
    ensures
        ({
            let d = floor_sqrt(ring_point(p, t.x as int, axis).sub(p).norm_sq()) as int;
            let l = exact_len(p, axis);
            &&& truth(p, t.x as int, axis).norm_sq() <= (l * (d + 6)) * (l * (d + 6))
            &&& d >= 6 ==> (l * (d - 6)) * (l * (d - 6)) <= truth(p, t.x as int, axis).norm_sq()
        }),
{
    let one = ONE as int;
    let major = t.x as int;
    assert(steady_axis(axis) == axis);
    lemma_truth_length(p, major, axis);
    lemma_cut_length(p, axis);
    let n = floor_sqrt(across(p, axis).norm_sq()) as int;
    let m = cut_len(p, axis);
    let far = one * (4 * major + 5);
    // The cut part across is long enough.
    assert(far >= 0 && m + 4 * one >= 0) by (nonlinear_arith)
        requires
            far == one * (4 * major + 5),
            m == n * one,
            n >= 0,
            major >= 0,
            one == 1_000_000,
    ;
    if m + 4 * one < far {
        lemma_squares_strictly_ordered(m + 4 * one, far);
        assert(false);
    }
    assert(n >= 4 * major + 1) by (nonlinear_arith)
        requires
            m + 4 * one >= far,
            m == n * one,
            far == one * (4 * major + 5),
            one == 1_000_000,
    {
        if n <= 4 * major {
            assert(n * one <= (4 * major) * one);
            assert(one * (4 * major + 5) == (4 * major) * one + 5 * one);
        }
    }
    lemma_distance_is_true(p, major, axis);
}

/// The computed distance to the ring's center line is within six
/// millionths of the true one. With `d` the computed distance and `l` the
/// length of the exact part across, `truth` is `l` times the true vector to
/// the ring, and its length is from `l * (d - 6)` to `l * (d + 6)`. The
/// point must leave room for the major radius within the range of a scalar,
/// and the cut part across must be at least four times the major radius
/// long: with a unit axis, the point is then at least four millionths of
/// the major radius from the axis.
pub proof fn lemma_distance_is_true(p: SpecVec3, major: int, a: SpecVec3)
    requires
        0 <= major,
        p.has_room(major),
        floor_sqrt(across(p, a).norm_sq()) >= 4 * major,
        floor_sqrt(across(p, a).norm_sq()) >= 1,
    ensures
        ({
            let d = floor_sqrt(ring_from(p, major, a).sub(p).norm_sq()) as int;
            let l = exact_len(p, a);
            &&& truth(p, major, a).norm_sq() <= (l * (d + 6)) * (l * (d + 6))
            &&& d >= 6 ==> (l * (d - 6)) * (l * (d - 6)) <= truth(p, major, a).norm_sq()
        }),
{
    let one = ONE as int;
    let w = across_exact(p, a);
    let n = floor_sqrt(across(p, a).norm_sq()) as int;
    let m = cut_len(p, a);
    let l = exact_len(p, a);
    let d = floor_sqrt(ring_from(p, major, a).sub(p).norm_sq()) as int;
    let goal = aim(p, major, a);
    let right = truth(p, major, a);
    lemma_distance_to_aim(p, major, a);
    // The exact length is from the cut length to four units more.
    lemma_cut_length(p, a);
    assert(m >= 1 && m + 4 * one >= 0 && 4 * (one * major) <= m) by (nonlinear_arith)
        requires
            m == n * one,
            n >= 1,
            n >= 4 * major,
            major >= 0,
            one == 1_000_000,
    ;
    lemma_floor_sqrt_within(w.norm_sq(), m, m + 4 * one);
    lemma_floor_sqrt_exists(w.norm_sq());
    // The aim, times the one length, is the truth, times the other, and a
    // rest along the exact part.
    let k = (l - m) * major;
    let rest = scaled(w, k);
    lemma_exchange(w.x, p.x, major, m, l, k);
    lemma_exchange(w.y, p.y, major, m, l, k);
    lemma_exchange(w.z, p.z, major, m, l, k);
    assert(scaled(goal, l) == plus(scaled(right, m), rest));
    assert(scaled(right, m) == plus(scaled(goal, l), scaled(rest, -1)));
    lemma_scaled_norm(goal, l);
    lemma_scaled_norm(right, m);
    lemma_scaled_norm(w, k);
    lemma_scaled_norm(rest, -1);
    // The rest is at most twice `m * l` long.
    let bound = 2 * (m * l);
    assert(0 <= k <= 4 * (one * major) && k * (l + 1) <= bound && k * (l + 1) >= 0 && bound >= 0
        && m * l >= 1) by (nonlinear_arith)
        requires
            k == (l - m) * major,
            bound == 2 * (m * l),
            0 <= l - m <= 4 * one,
            major >= 0,
            4 * (one * major) <= m,
            l >= m >= 1,
    {
        assert(k <= (4 * one) * major);
        assert(k * (l + 1) <= m * (l + 1));
        assert(m * (l + 1) <= 2 * (m * l));
    }
    if k != 0 {
        assert(k * k > 0) by (nonlinear_arith)
            requires
                k != 0,
        ;
        lemma_order_times(k * k, w.norm_sq() as int, (l + 1) * (l + 1));
    }
    lemma_four_factors(k, l + 1, k, l + 1);
    assert((k * (l + 1)) * (k * (l + 1)) == (k * k) * ((l + 1) * (l + 1))) by (nonlinear_arith);
    lemma_squares_ordered(k * (l + 1), bound);
    if k == 0 {
        assert(k * k == 0 && (k * k) * w.norm_sq() == 0) by (nonlinear_arith)
            requires
                k == 0,
        ;
    }
    assert(rest.norm_sq() <= bound * bound);
    // From above.
    let ml = m * l;
    lemma_length_times(goal.norm_sq() as int, l, m * (d + 3));
    assert(l * (m * (d + 3)) + bound == ml * (d + 5) && l * (m * (d + 3)) >= 0)
        by (nonlinear_arith)
        requires
            bound == 2 * (m * l),
            ml == m * l,
            m >= 1,
            l >= 1,
            d >= 0,
    ;
    lemma_triangle(scaled(goal, l), scaled(rest, -1), l * (m * (d + 3)), bound);
    assert(ml * (d + 5) == m * (l * (d + 5))) by (nonlinear_arith)
        requires
            ml == m * l,
    ;
    lemma_length_over(right.norm_sq() as int, m, l * (d + 5));
    assert(0 <= l * (d + 5) <= l * (d + 6)) by (nonlinear_arith)
        requires
            l >= 1,
            d >= 0,
    ;
    lemma_squares_ordered(l * (d + 5), l * (d + 6));
    // From below.
    if d >= 6 {
        let low = l * (d - 6);
        if right.norm_sq() < low * low {
            lemma_length_times(right.norm_sq() as int, m, low);
            assert(m * low + bound == ml * (d - 4) && m * low >= 0 && low >= 0)
                by (nonlinear_arith)
                requires
                    bound == 2 * (m * l),
                    ml == m * l,
                    low == l * (d - 6),
                    m >= 1,
                    l >= 1,
                    d >= 6,
            ;
            lemma_triangle(scaled(right, m), rest, m * low, bound);
            assert(ml * (d - 4) == l * (m * (d - 4)) && 0 <= m * (d - 4) < m * (d - 3))
                by (nonlinear_arith)
                requires
                    ml == m * l,
                    m >= 1,
                    d >= 6,
            ;
            lemma_length_over(goal.norm_sq() as int, l, m * (d - 4));
            lemma_squares_strictly_ordered(m * (d - 4), m * (d - 3));
            assert(false);
        }
    }
}

/// The squared length of `truth`, written out. With `s` for
/// `|a|^2 |p|^2 - (p . a)^2`, which is the squared distance of `p` from the
/// axis times `|a|^2`, and `l` for `exact_len`, the square root of
/// `|a|^2 * s` rounded down, it is `l * l` times
/// `|p|^2 + major^2 * (|a|^2 * s) / l^2 - 2 * major * s / l`: the squared
/// distance from `p` to a ring of radius `major`, since `s / l` is the
/// distance of `p` from the axis.
pub proof fn lemma_truth_length(p: SpecVec3, major: int, a: SpecVec3)
    ensures
        ({
            let s = a.norm_sq() * p.norm_sq() - inner(p, a) * inner(p, a);
            let l = exact_len(p, a);
            &&& across_exact(p, a).norm_sq() == a.norm_sq() * s
            &&& truth(p, major, a).norm_sq() == (major * major) * (a.norm_sq() * s) - (2 * (major
                * l)) * s + (l * l) * p.norm_sq()
        }),
{
    let w = across_exact(p, a);
    let l = exact_len(p, a);
    let z = truth(p, major, a);
    lemma_across_exact(p, a);
    assert(p.x * p.x >= 0 && p.y * p.y >= 0 && p.z * p.z >= 0) by (nonlinear_arith);
    assert(w.x * w.x >= 0 && w.y * w.y >= 0 && w.z * w.z >= 0) by (nonlinear_arith);
    assert(z.x * z.x >= 0 && z.y * z.y >= 0 && z.z * z.z >= 0) by (nonlinear_arith);
    lemma_truth_part(w.x, p.x, major, l);
    lemma_truth_part(w.y, p.y, major, l);
    lemma_truth_part(w.z, p.z, major, l);
    lemma_three_terms(major * major, w.x * w.x, w.y * w.y, w.z * w.z);
    lemma_three_terms(2 * (major * l), w.x * p.x, w.y * p.y, w.z * p.z);
    lemma_three_terms(l * l, p.x * p.x, p.y * p.y, p.z * p.z);
}

/// The square of one component of `truth`.
proof fn lemma_truth_part(w: int, p: int, major: int, l: int)
    ensures
        (major * w - l * p) * (major * w - l * p) == (major * major) * (w * w) - (2 * (major * l))
            * (w * p) + (l * l) * (p * p),
{
    let u = major * w;
    let t = l * p;
    assert((u - t) * (u - t) == u * u - 2 * (u * t) + t * t) by (nonlinear_arith);
    lemma_four_factors(major, w, major, w);
    lemma_four_factors(l, p, l, p);
    lemma_four_factors(major, w, l, p);
    assert((w * w) * (major * major) == (major * major) * (w * w) && (p * p) * (l * l) == (l * l)
        * (p * p) && 2 * ((w * p) * (major * l)) == (2 * (major * l)) * (w * p))
        by (nonlinear_arith);
}

/// One component of the aim, times `l`, is that of the truth, times `m`,
/// and the exact part across times `k`.
proof fn lemma_exchange(w: int, p: int, major: int, m: int, l: int, k: int)
    by (nonlinear_arith)
    requires
        k == (l - m) * major,
    ensures
        l * (major * w - m * p) == m * (major * w - l * p) + k * w,
        m * (major * w - l * p) == l * (major * w - m * p) + (-1) * (k * w),
{
    assert(l * (major * w - m * p) == l * (major * w) - l * (m * p));
    assert(m * (major * w - l * p) == m * (major * w) - m * (l * p));
    assert(l * (m * p) == m * (l * p));
    assert(k * w == l * (major * w) - m * (major * w));
}

/// The computed distance to the ring's center line is within three
/// millionths of the distance from the point to the point that `aim` stands
/// for. The point must leave room for the major radius within the range of
/// a scalar, and must not be so close to the axis that the cut part across
/// is shorter than twice the major radius.
pub proof fn lemma_distance_to_aim(p: SpecVec3, major: int, a: SpecVec3)
    requires
        0 <= major,
        p.has_room(major),
        floor_sqrt(across(p, a).norm_sq()) >= 2 * major,
        floor_sqrt(across(p, a).norm_sq()) >= 1,
    ensures
        ({
            let d = floor_sqrt(ring_from(p, major, a).sub(p).norm_sq()) as int;
            let m = cut_len(p, a);
            &&& aim(p, major, a).norm_sq() <= (m * (d + 3)) * (m * (d + 3))
            &&& d >= 3 ==> (m * (d - 3)) * (m * (d - 3)) <= aim(p, major, a).norm_sq()
        }),
{
    let one = ONE as int;
    let w = across_exact(p, a);
    let v = across(p, a);
    let n = floor_sqrt(v.norm_sq()) as int;
    let m = cut_len(p, a);
    lemma_ring_part(v, major, v.x);
    lemma_ring_part(v, major, v.y);
    lemma_ring_part(v, major, v.z);
    let ring = ring_from(p, major, a);
    let g = ring.sub(p);
    let c = SpecVec3 {
        x: rounded_quotient(v.x * major, n),
        y: rounded_quotient(v.y * major, n),
        z: rounded_quotient(v.z * major, n),
    };
    assert(ring == c);
    assert(g == SpecVec3 { x: c.x - p.x, y: c.y - p.y, z: c.z - p.z });
    let goal = aim(p, major, a);
    // Twice `m` times the computed vector is twice the aim and the rounding.
    let rest = SpecVec3 {
        x: lemma_rounding(w.x, v.x, c.x, p.x, major, n, one),
        y: lemma_rounding(w.y, v.y, c.y, p.y, major, n, one),
        z: lemma_rounding(w.z, v.z, c.z, p.z, major, n, one),
    };
    let far = scaled(g, 2 * m);
    assert(far == plus(scaled(goal, 2), rest));
    assert(scaled(goal, 2) == plus(far, scaled(rest, -1)));
    // The rounding is less than four times `m` long.
    lemma_scaled_norm(rest, -1);
    lemma_scaled_norm(goal, 2);
    lemma_scaled_norm(g, 2 * m);
    assert(0 <= rest.x * rest.x <= (2 * m) * (2 * m) && 0 <= rest.y * rest.y <= (2 * m) * (2 * m)
        && 0 <= rest.z * rest.z <= (2 * m) * (2 * m)) by (nonlinear_arith)
        requires
            -2 * m <= rest.x <= 2 * m,
            -2 * m <= rest.y <= 2 * m,
            -2 * m <= rest.z <= 2 * m,
    ;
    assert(3 * ((2 * m) * (2 * m)) <= (4 * m) * (4 * m)) by (nonlinear_arith);
    // The computed vector is from `d` to `d + 1` long.
    lemma_floor_sqrt_exists(g.norm_sq());
    let d = floor_sqrt(g.norm_sq()) as int;
    let gg = g.norm_sq() as int;
    let mm = (2 * m) * (2 * m);
    assert(m >= 1) by (nonlinear_arith)
        requires
            m == n * one,
            n >= 1,
            one == 1_000_000,
    ;
    assert(mm > 0) by (nonlinear_arith)
        requires
            mm == (2 * m) * (2 * m),
            m >= 1,
    ;
    lemma_order_times(mm, gg, (d + 1) * (d + 1));
    lemma_order_times(mm, d * d, gg);
    lemma_four_factors(2 * m, d + 1, 2 * m, d + 1);
    lemma_four_factors(2 * m, d, 2 * m, d);
    assert((2 * m) * (d + 1) >= 0 && (2 * m) * (d + 1) + 4 * m == 2 * (m * (d + 3)) && mm * ((d
        + 1) * (d + 1)) == ((d + 1) * (d + 1)) * mm && mm * (d * d) == (d * d) * mm)
        by (nonlinear_arith)
        requires
            m >= 1,
            d >= 0,
    ;
    lemma_triangle(far, scaled(rest, -1), (2 * m) * (d + 1), 4 * m);
    lemma_four_factors(2, m * (d + 3), 2, m * (d + 3));
    assert((2 * (m * (d + 3))) * (2 * (m * (d + 3))) == 4 * ((m * (d + 3)) * (m * (d + 3))))
        by (nonlinear_arith);
    if d >= 3 {
        let low = m * (d - 3);
        if goal.norm_sq() < low * low {
            lemma_four_factors(2, low, 2, low);
            assert((2 * low) * (2 * low) == 4 * (low * low) && 2 * low >= 0 && 2 * low + 4 * m == (2
                * m) * (d - 1)) by (nonlinear_arith)
                requires
                    low == m * (d - 3),
                    m >= 1,
                    d >= 3,
            ;
            lemma_triangle(scaled(goal, 2), rest, 2 * low, 4 * m);
            lemma_four_factors(2 * m, d - 1, 2 * m, d - 1);
            assert(((2 * m) * (d - 1)) * ((2 * m) * (d - 1)) < mm * (d * d)) by (nonlinear_arith)
                requires
                    mm == (2 * m) * (2 * m),
                    m >= 1,
                    d >= 3,
            {
                assert(((2 * m) * (d - 1)) * ((2 * m) * (d - 1)) == mm * ((d - 1) * (d - 1)));
                assert((d - 1) * (d - 1) < d * d);
                assert(mm > 0);
            }
            assert(false);
        }
    }
}

/// The rounding of one component: what twice `m` times the computed
/// component exceeds twice the aim's by. It is at most twice `m` in
/// magnitude.
proof fn lemma_rounding(w: int, v: int, c: int, p: int, major: int, n: int, one: int) -> (e: int)
    requires
        one > 0,
        n >= 1,
        0 <= 2 * major <= n,
        v == quotient(w, one),
        c == rounded_quotient(v * major, n),
    ensures
        (2 * (n * one)) * (c - p) == 2 * (major * w - (n * one) * p) + e,
        -2 * (n * one) <= e <= 2 * (n * one),
{
    let m = n * one;
    lemma_rounding_error(v * major, n);
    lemma_cut_part(w, one, v);
    let dd = 2 * (n * c) - 2 * (v * major);
    let tau = w - one * v;
    let e = one * dd - (2 * major) * tau;
    lemma_product_within(one, dd, one, n);
    lemma_product_within(2 * major, tau, n, one);
    assert(one * n == n * one && n * one == m) by (nonlinear_arith)
        requires
            m == n * one,
    ;
    assert((2 * m) * (c - p) == 2 * (major * w - m * p) + e) by (nonlinear_arith)
        requires
            m == n * one,
            dd == 2 * (n * c) - 2 * (v * major),
            tau == w - one * v,
            e == one * dd - (2 * major) * tau,
    {
        assert((2 * m) * (c - p) == one * (2 * (n * c)) - 2 * (m * p));
        assert(one * (2 * (n * c)) == one * dd + 2 * (one * (v * major)));
        assert(2 * (major * w) == 2 * (major * (one * v)) + (2 * major) * tau);
        assert(one * (v * major) == major * (one * v));
    }
    e
}

} // verus!
