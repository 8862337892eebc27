//! The torus: its orientation, its signed distance field and its normals.
//!
//! The distance is computed in wide integers and rounded once, at the point
//! of the ring that is nearest: close to the axis the direction to the ring
//! hangs on a small remainder, which must not be rounded before it is used.
//! How close the distance stays to the true one is stated in `accuracy`.

use vstd::prelude::*;
use crate::arith::{lemma_four_factors, lemma_order_times, lemma_product_within};
use crate::arith::{lemma_root_within, lemma_three_terms};
use crate::fixed::{clamped, floor_sqrt, is_floor_sqrt, magnitude, quotient, rounded_quotient};
use crate::fixed::{divide_rounded_wide, integer_sqrt, product, saturate, LIMIT, ONE};
use crate::fixed::{lemma_floor_sqrt_exists, lemma_floor_sqrt_unique};
use crate::fixed::{lemma_floor_sqrt_within, lemma_quotient_of_multiple};
use crate::fixed::{lemma_rounded_quotient_negated, lemma_rounding_error};
use crate::space::inner;
use crate::vector::{SpecVec3, Vec2, Vec3, PRECISION};

verus! {

/// The step of the finite differences that estimate a normal.
pub const EPSILON: i32 = 5_000;

/// The square of the length, two units, beyond which an axis is first scaled
/// to unit length.
pub const AXIS_LIMIT_SQ: u64 = 4_000_000_000_000;

/// The square of the length, half a unit, below which an axis is first
/// scaled to unit length.
pub const AXIS_FLOOR_SQ: u64 = 250_000_000_000;

/// The length of the pair of a sine and a cosine, scaled up by `PRECISION`
/// and rounded down.
pub open spec fn turn_len(sin: int, cos: int) -> int {
    floor_sqrt(((sin * sin + cos * cos) * PRECISION * PRECISION) as nat) as int
}

impl SpecVec3 {
    /// The vector with its `y` and `z` components rotated by the angle whose
    /// sine and cosine are given; `x` stays as it is. The pair is taken at
    /// unit length, whatever its own length, and each component is rounded
    /// to the nearest millionth. The pair of two zeros, which is no
    /// angle's, leaves `x` alone.
    pub open spec fn rot_z(self, sin: int, cos: int) -> SpecVec3 {
        let l = turn_len(sin, cos);
        if l == 0 {
            SpecVec3 { x: self.x, y: 0, z: 0 }
        } else {
            SpecVec3 {
                x: self.x,
                y: clamped(rounded_quotient((cos * self.y - sin * self.z) * PRECISION, l)),
                z: clamped(rounded_quotient((sin * self.y + cos * self.z) * PRECISION, l)),
            }
        }
    }
}

/// The axis that the distance is taken around: `axis` itself while it is
/// from half a unit to two units long, as every unit vector is, and else
/// `axis` at unit length.
pub open spec fn steady_axis(axis: SpecVec3) -> SpecVec3 {
    if axis.norm_sq() > AXIS_LIMIT_SQ || axis.norm_sq() < AXIS_FLOOR_SQ {
        axis.norm()
    } else {
        axis
    }
}

/// The part of `p` across `a`, exactly: `p` times the squared length of `a`,
/// less `a` times the inner product of the two. It is orthogonal to `a`,
/// whether or not `a` has unit length.
pub open spec fn across_exact(p: SpecVec3, a: SpecVec3) -> SpecVec3 {
    let a2 = a.norm_sq() as int;
    let h = inner(p, a);
    SpecVec3 { x: p.x * a2 - a.x * h, y: p.y * a2 - a.y * h, z: p.z * a2 - a.z * h }
}

/// The part of `p` across `a`, cut to millionths of a millionth.
pub open spec fn across(p: SpecVec3, a: SpecVec3) -> SpecVec3 {
    let w = across_exact(p, a);
    SpecVec3 {
        x: quotient(w.x, ONE as int),
        y: quotient(w.y, ONE as int),
        z: quotient(w.z, ONE as int),
    }
}

/// The point at the distance `major` from the origin in the direction of
/// the part of `p` across `a`, each component rounded to the nearest
/// millionth; the origin where `p` has no part across `a`.
pub open spec fn ring_from(p: SpecVec3, major: int, a: SpecVec3) -> SpecVec3 {
    let v = across(p, a);
    let m = floor_sqrt(v.norm_sq()) as int;
    if m == 0 {
        SpecVec3 { x: 0, y: 0, z: 0 }
    } else {
        SpecVec3 {
            x: clamped(rounded_quotient(v.x * major, m)),
            y: clamped(rounded_quotient(v.y * major, m)),
            z: clamped(rounded_quotient(v.z * major, m)),
        }
    }
}

/// The point of the ring's center line that is nearest to `p`: `p` projected
/// onto the plane through the origin orthogonal to `axis`, then scaled to
/// the length `major`.
pub open spec fn ring_point(p: SpecVec3, major: int, axis: SpecVec3) -> SpecVec3 {
    ring_from(p, major, steady_axis(axis))
}

/// The signed distance from `p` to the torus with the radii `t` around
/// `axis`: the distance to the ring's center line less the tube radius.
pub open spec fn torus_distance(p: SpecVec3, t: Vec2, axis: SpecVec3) -> int {
    clamped(ring_point(p, t.x as int, axis).sub(p).len() - t.y)
}

/// The change of the distance over two steps of `EPSILON` along `step`.
pub open spec fn distance_change(p: SpecVec3, t: Vec2, axis: SpecVec3, step: SpecVec3) -> int {
    clamped(torus_distance(p.add(step), t, axis) - torus_distance(p.sub(step), t, axis))
}

/// The direction in which the distance grows fastest at `p`, at unit length.
pub open spec fn torus_gradient(p: SpecVec3, t: Vec2, axis: SpecVec3) -> SpecVec3 {
    let e = EPSILON as int;
    SpecVec3 {
        x: distance_change(p, t, axis, SpecVec3 { x: e, y: 0, z: 0 }),
        y: distance_change(p, t, axis, SpecVec3 { x: 0, y: e, z: 0 }),
        z: distance_change(p, t, axis, SpecVec3 { x: 0, y: 0, z: e }),
    }.norm()
}

/// Rotates the `y` and `z` components of `v` by the angle whose sine and
/// cosine are given, and leaves `x` as it is.
pub fn rot_z(v: Vec3, sin: i32, cos: i32) -> (r: Vec3)
    ensures
        r@ == v@.rot_z(sin as int, cos as int),
        r.x == v.x,
{
    let ss: i64 = product(sin, sin);
    let cc: i64 = product(cos, cos);
    assert(sin * sin >= 0 && cos * cos >= 0) by (nonlinear_arith);
    let l: u64 = integer_sqrt((ss as u128 + cc as u128) * 0x1_0000_0000_0000_0000u128);
    if l == 0 {
        return Vec3 { x: v.x, y: 0, z: 0 };
    }
    let y: i128 = (product(cos, v.y) as i128 - product(sin, v.z) as i128) * 4_294_967_296i128;
    let z: i128 = (product(sin, v.y) as i128 + product(cos, v.z) as i128) * 4_294_967_296i128;
    Vec3 {
        x: v.x,
        y: saturate(divide_rounded_wide(y, l)),
        z: saturate(divide_rounded_wide(z, l)),
    }
}

/// One component of the part of a point across an axis: see `across`.
fn across_part(p: i32, a: i32, a2: i128, h: i128) -> (v: i64)
    requires
        0 <= a2 <= 4_000_000_000_000,
        -2_000_000 <= a <= 2_000_000,
        -12_884_901_888_000_000 <= h <= 12_884_901_888_000_000,
    ensures
        v == quotient(p * a2 - a * h, ONE as int),
        -34_359_738_368_000_000 <= v <= 34_359_738_368_000_000,
{
    assert(-8_589_934_592_000_000_000_000 <= p * a2 <= 8_589_934_592_000_000_000_000
        && -25_769_803_776_000_000_000_000 <= a * h <= 25_769_803_776_000_000_000_000)
        by (nonlinear_arith)
        requires
            -0x8000_0000 <= p <= 0x8000_0000,
            0 <= a2 <= 4_000_000_000_000,
            -2_000_000 <= a <= 2_000_000,
            -12_884_901_888_000_000 <= h <= 12_884_901_888_000_000,
    ;
    let w: i128 = (p as i128) * a2 - (a as i128) * h;
    (w / 1_000_000i128) as i64
}

/// The square of one component of the part across.
fn square_wide(v: i64) -> (q: u128)
    requires
        -34_359_738_368_000_000 <= v <= 34_359_738_368_000_000,
    ensures
        q == v * v,
        q <= 1_180_591_620_717_411_303_424_000_000_000_000,
{
    assert(0 <= v * v <= 1_180_591_620_717_411_303_424_000_000_000_000) by (nonlinear_arith)
        requires
            -34_359_738_368_000_000 <= v <= 34_359_738_368_000_000,
    ;
    ((v as i128) * (v as i128)) as u128
}

/// One component of the ring point: the component `v` of the part across,
/// of length `m`, scaled to the length `major`.
fn ring_part(v: i64, major: i32, m: u64) -> (c: i32)
    requires
        m > 0,
        -34_359_738_368_000_000 <= v <= 34_359_738_368_000_000,
    ensures
        c == clamped(rounded_quotient(v * major, m as int)),
{
    assert(-0x1_0000_0000_0000_0000_0000_0000 <= v * major <= 0x1_0000_0000_0000_0000_0000_0000)
        by (nonlinear_arith)
        requires
            -34_359_738_368_000_000 <= v <= 34_359_738_368_000_000,
            -0x8000_0000 <= major <= 0x8000_0000,
    ;
    saturate(divide_rounded_wide((v as i128) * (major as i128), m))
}

/// The point of the ring around `a` that is nearest to `p`.
fn ring_of(p: Vec3, major: i32, a: Vec3) -> (r: Vec3)
    requires
        a@.norm_sq() <= AXIS_LIMIT_SQ,
    ensures
        r@ == ring_from(p@, major as int, a@),
{
    proof {
        lemma_short_components(a@);
    }
    let a2: i128 = a.norm_sq() as i128;
    let hx: i64 = product(p.x, a.x);
    let hy: i64 = product(p.y, a.y);
    let hz: i64 = product(p.z, a.z);
    assert(-4_294_967_296_000_000 <= hx <= 4_294_967_296_000_000 && -4_294_967_296_000_000 <= hy
        <= 4_294_967_296_000_000 && -4_294_967_296_000_000 <= hz <= 4_294_967_296_000_000)
        by (nonlinear_arith)
        requires
            hx == p.x * a.x,
            hy == p.y * a.y,
            hz == p.z * a.z,
            -0x8000_0000 <= p.x <= 0x8000_0000,
            -0x8000_0000 <= p.y <= 0x8000_0000,
            -0x8000_0000 <= p.z <= 0x8000_0000,
            -2_000_000 <= a.x <= 2_000_000,
            -2_000_000 <= a.y <= 2_000_000,
            -2_000_000 <= a.z <= 2_000_000,
    ;
    let h: i128 = hx as i128 + hy as i128 + hz as i128;
    let vx: i64 = across_part(p.x, a.x, a2, h);
    let vy: i64 = across_part(p.y, a.y, a2, h);
    let vz: i64 = across_part(p.z, a.z, a2, h);
    let m: u64 = integer_sqrt(square_wide(vx) + square_wide(vy) + square_wide(vz));
    if m == 0 {
        return Vec3 { x: 0, y: 0, z: 0 };
    }
    Vec3 { x: ring_part(vx, major, m), y: ring_part(vy, major, m), z: ring_part(vz, major, m) }
}

/// The signed distance from `p` to the torus with the radii `t` around
/// `tdir`: negative inside the tube, positive outside.
pub fn sd_torus(p: Vec3, t: Vec2, tdir: Vec3) -> (d: i32)
    ensures
        d == torus_distance(p@, t, tdir@),
{
    let long: u64 = tdir.norm_sq();
    let a: Vec3 = if long > AXIS_LIMIT_SQ || long < AXIS_FLOOR_SQ {
        let n = tdir.norm();
        proof {
            lemma_unit_is_short(n@);
        }
        n
    } else {
        tdir
    };
    saturate(ring_of(p, t.x, a).sub(p).len() as i128 - t.y as i128)
}

/// The change of the distance over two steps of `EPSILON` along `step`.
fn sd_change(p: Vec3, t: Vec2, tdir: Vec3, step: Vec3) -> (d: i32)
    ensures
        d == distance_change(p@, t, tdir@, step@),
{
    saturate(sd_torus(p.add(step), t, tdir) as i128 - sd_torus(p.sub(step), t, tdir) as i128)
}

/// The surface normal at `p`, estimated by central differences of the
/// distance along each coordinate.
pub fn torus_normal(p: Vec3, t: Vec2, tdir: Vec3) -> (n: Vec3)
    ensures
        n@ == torus_gradient(p@, t, tdir@),
{
    let dx = sd_change(p, t, tdir, Vec3::new(EPSILON, 0, 0));
    let dy = sd_change(p, t, tdir, Vec3::new(0, EPSILON, 0));
    let dz = sd_change(p, t, tdir, Vec3::new(0, 0, EPSILON));
    Vec3::new(dx, dy, dz).norm()
}

/// Along the positive `x` axis, with the ring in the plane of `x` and `y`,
/// the distance is exact: how far the point is from the ring's center line,
/// less the tube radius. So it is negative inside the tube, zero on its
/// surface and positive outside.
pub proof fn lemma_torus_distance_along_x(t: Vec2, x: int)
    requires
        0 < x <= LIMIT,
        t.x >= 0,
    ensures
        torus_distance(
            SpecVec3 { x, y: 0, z: 0 },
            t,
            SpecVec3 { x: 0, y: 0, z: ONE as int },
        ) == clamped(magnitude(t.x - x) - t.y),
{
    let r = t.x as int;
    let p = SpecVec3 { x, y: 0, z: 0 };
    let axis = SpecVec3 { x: 0, y: 0, z: ONE as int };
    assert(ONE * ONE == 1_000_000_000_000 && 0 * 0 == 0) by (nonlinear_arith);
    assert(axis.norm_sq() == 1_000_000_000_000);
    assert(steady_axis(axis) == axis);
    // The part of `p` across the axis is `p` itself, in finer units.
    let m = x * ONE;
    assert(x * 1_000_000_000_000 == m * ONE && m > 0) by (nonlinear_arith)
        requires
            m == x * ONE,
            x > 0,
    ;
    lemma_quotient_of_multiple(m, ONE as int);
    assert(quotient(0, ONE as int) == 0);
    let v = across(p, axis);
    assert(v == SpecVec3 { x: m, y: 0, z: 0 });
    assert(v.norm_sq() == m * m && is_floor_sqrt((m * m) as nat, m as nat)) by (nonlinear_arith)
        requires
            v.norm_sq() == (m * m + 0 * 0 + 0 * 0) as nat,
            m > 0,
    ;
    lemma_floor_sqrt_unique(v.norm_sq(), m as nat);
    // The nearest point of the ring is at `r` on the axis.
    assert(m * r == r * m) by (nonlinear_arith);
    lemma_quotient_of_multiple(r, m);
    assert(0 * r == 0);
    assert(rounded_quotient(0, m) == 0) by (nonlinear_arith)
        requires
            m > 0,
    ;
    let ring = ring_from(p, r, axis);
    assert(ring == SpecVec3 { x: r, y: 0, z: 0 });
    let gap = r - x;
    assert(ring.sub(p) == SpecVec3 { x: gap, y: 0, z: 0 });
    assert(ring.sub(p).norm_sq() == gap * gap && is_floor_sqrt(
        (gap * gap) as nat,
        magnitude(gap) as nat,
    )) by (nonlinear_arith)
        requires
            ring.sub(p).norm_sq() == (gap * gap + 0 * 0 + 0 * 0) as nat,
    ;
    lemma_floor_sqrt_unique(ring.sub(p).norm_sq(), magnitude(gap) as nat);
}

/// On the ring's center line the distance is the tube radius below zero,
/// but for two millionths at most. The ring lies in the plane of `x` and
/// `y`; the point `(x, y, 0)` is any point of scalars within a millionth of
/// the circle of radius `t.x`, as every point of the circle is once its
/// coordinates are rounded.
pub proof fn lemma_torus_distance_on_circle(t: Vec2, x: int, y: int)
    requires
        3 <= t.x <= 1_000_000_000,
        t.y >= 0,
        (t.x - 1) * (t.x - 1) <= x * x + y * y <= (t.x + 1) * (t.x + 1),
    ensures
        0 <= torus_distance(
            SpecVec3 { x, y, z: 0 },
            t,
            SpecVec3 { x: 0, y: 0, z: ONE as int },
        ) + t.y <= 2,
{
    let r = t.x as int;
    let one = ONE as int;
    let p = SpecVec3 { x, y, z: 0 };
    let axis = SpecVec3 { x: 0, y: 0, z: one };
    assert(ONE * ONE == 1_000_000_000_000 && 0 * 0 == 0) by (nonlinear_arith);
    assert(axis.norm_sq() == 1_000_000_000_000);
    assert(steady_axis(axis) == axis);
    assert(inner(p, axis) == 0);
    // The part across is the point itself, in finer units.
    assert(x * 1_000_000_000_000 == (x * one) * one && y * 1_000_000_000_000 == (y * one) * one)
        by (nonlinear_arith)
        requires
            one == 1_000_000,
    ;
    lemma_quotient_of_multiple(x * one, one);
    lemma_quotient_of_multiple(y * one, one);
    assert(quotient(0, one) == 0);
    let v = across(p, axis);
    assert(v == SpecVec3 { x: x * one, y: y * one, z: 0 });
    // Its length is within a unit of the radius.
    assert(x * x >= 0 && y * y >= 0) by (nonlinear_arith);
    let q = x * x + y * y;
    assert((x * one) * (x * one) + (y * one) * (y * one) == q * (one * one)) by (nonlinear_arith)
        requires
            q == x * x + y * y,
    ;
    let lo = (r - 1) * one;
    let hi = (r + 1) * one;
    assert(lo * lo == ((r - 1) * (r - 1)) * (one * one) && hi * hi == ((r + 1) * (r + 1)) * (one
        * one)) by (nonlinear_arith)
        requires
            lo == (r - 1) * one,
            hi == (r + 1) * one,
    ;
    lemma_order_times(one * one, (r - 1) * (r - 1), q);
    lemma_order_times(one * one, q, (r + 1) * (r + 1));
    assert(q * (one * one) == (one * one) * q && ((r - 1) * (r - 1)) * (one * one) == (one * one)
        * ((r - 1) * (r - 1)) && ((r + 1) * (r + 1)) * (one * one) == (one * one) * ((r + 1) * (r
        + 1))) by (nonlinear_arith);
    lemma_floor_sqrt_within(v.norm_sq(), lo, hi);
    let m = floor_sqrt(v.norm_sq()) as int;
    lemma_root_within(x, q, r + 1);
    lemma_root_within(y, q, r + 1);
    // Each component of the ring point is within two of the point's.
    let cx = rounded_quotient((x * one) * r, m);
    let cy = rounded_quotient((y * one) * r, m);
    lemma_ring_near(x, r, one, m, cx);
    lemma_ring_near(y, r, one, m, cy);
    assert(0 * r == 0);
    assert(rounded_quotient(0, m) == 0) by (nonlinear_arith)
        requires
            m > 0,
    ;
    let ring = ring_from(p, r, axis);
    assert(ring == SpecVec3 { x: cx, y: cy, z: 0 });
    let g = ring.sub(p);
    assert(g == SpecVec3 { x: cx - x, y: cy - y, z: 0 });
    assert(0 <= g.x * g.x <= 4 && 0 <= g.y * g.y <= 4) by (nonlinear_arith)
        requires
            -2 <= g.x <= 2,
            -2 <= g.y <= 2,
    ;
    lemma_floor_sqrt_exists(g.norm_sq());
    let d = floor_sqrt(g.norm_sq()) as int;
    if d >= 3 {
        assert(d * d >= 9) by (nonlinear_arith)
            requires
                d >= 3,
        ;
    }
}

/// A component `x` of a point within a unit of the circle of radius `r`,
/// scaled to the radius and rounded, is within two of `x`.
proof fn lemma_ring_near(x: int, r: int, one: int, m: int, c: int)
    requires
        3 <= r,
        one > 0,
        -(r + 1) <= x <= r + 1,
        (r - 1) * one <= m <= (r + 1) * one,
        c == rounded_quotient((x * one) * r, m),
    ensures
        -2 <= c - x <= 2,
{
    assert(m >= 2 * one && m > 0 && (r + 1) * one <= 2 * m && -one <= one * r - m <= one)
        by (nonlinear_arith)
        requires
            3 <= r,
            one > 0,
            (r - 1) * one <= m <= (r + 1) * one,
    ;
    lemma_rounding_error((x * one) * r, m);
    let e = 2 * (m * c) - 2 * ((x * one) * r);
    lemma_product_within(x, one * r - m, r + 1, one);
    assert(2 * (m * (c - x)) == e + 2 * (x * (one * r - m))) by (nonlinear_arith)
        requires
            e == 2 * (m * c) - 2 * ((x * one) * r),
    ;
    if c - x >= 3 {
        lemma_order_times(m, 3, c - x);
    }
    if c - x <= -3 {
        lemma_order_times(m, c - x, -3);
    }
}

/// On the center line of the ring, where it crosses the positive `x` axis,
/// the distance is the tube radius below zero exactly.
pub proof fn lemma_torus_distance_on_ring(t: Vec2)
    requires
        t.x > 0,
    ensures
        torus_distance(
            SpecVec3 { x: t.x as int, y: 0, z: 0 },
            t,
            SpecVec3 { x: 0, y: 0, z: ONE as int },
        ) == clamped(-(t.y as int)),
{
    lemma_torus_distance_along_x(t, t.x as int);
}

/// The exact part of `p` across `a` is orthogonal to `a`; along `p` it
/// reaches `|a|^2 |p|^2 - (p . a)^2`; and its squared length is `|a|^2`
/// times that. So it is `|a|^2` times the projection of `p` onto the plane
/// orthogonal to `a`, for an axis of any length.
pub proof fn lemma_across_exact(p: SpecVec3, a: SpecVec3)
    ensures
        inner(across_exact(p, a), a) == 0,
        inner(across_exact(p, a), p) == a.norm_sq() * p.norm_sq() - inner(p, a) * inner(p, a),
        across_exact(p, a).norm_sq() == a.norm_sq() * inner(across_exact(p, a), p),
{
    let a2 = a.norm_sq() as int;
    let pp = p.norm_sq() as int;
    let h = inner(p, a);
    let w = across_exact(p, a);
    assert(a.x * a.x >= 0 && a.y * a.y >= 0 && a.z * a.z >= 0) by (nonlinear_arith);
    assert(p.x * p.x >= 0 && p.y * p.y >= 0 && p.z * p.z >= 0) by (nonlinear_arith);
    assert(w.x * w.x >= 0 && w.y * w.y >= 0 && w.z * w.z >= 0) by (nonlinear_arith);
    lemma_across_part(p.x, a.x, a2, h);
    lemma_across_part(p.y, a.y, a2, h);
    lemma_across_part(p.z, a.z, a2, h);
    lemma_three_terms(a2, p.x * a.x, p.y * a.y, p.z * a.z);
    lemma_three_terms(h, a.x * a.x, a.y * a.y, a.z * a.z);
    lemma_three_terms(a2, p.x * p.x, p.y * p.y, p.z * p.z);
    lemma_three_terms(h, a.x * p.x, a.y * p.y, a.z * p.z);
    assert(a.x * p.x == p.x * a.x && a.y * p.y == p.y * a.y && a.z * p.z == p.z * a.z)
        by (nonlinear_arith);
    assert(h * a2 == a2 * h) by (nonlinear_arith);
    // The squared length, term by term.
    lemma_three_terms(a2 * a2, p.x * p.x, p.y * p.y, p.z * p.z);
    lemma_three_terms(2 * (a2 * h), p.x * a.x, p.y * a.y, p.z * a.z);
    lemma_three_terms(h * h, a.x * a.x, a.y * a.y, a.z * a.z);
    assert((a2 * a2) * pp - (2 * (a2 * h)) * h + (h * h) * a2 == a2 * (a2 * pp - h * h))
        by (nonlinear_arith);
}

/// One component of the exact part across, times the same component of the
/// axis and of the point, and squared.
proof fn lemma_across_part(p: int, a: int, a2: int, h: int)
    ensures
        (p * a2 - a * h) * a == a2 * (p * a) - h * (a * a),
        (p * a2 - a * h) * p == a2 * (p * p) - h * (a * p),
        (p * a2 - a * h) * (p * a2 - a * h) == (a2 * a2) * (p * p) - (2 * (a2 * h)) * (p * a) + (h
            * h) * (a * a),
{
    let u = p * a2;
    let t = a * h;
    assert((u - t) * a == u * a - t * a && (u - t) * p == u * p - t * p && (u - t) * (u - t) == u
        * u - 2 * (u * t) + t * t) by (nonlinear_arith);
    lemma_four_factors(p, a2, a, 1);
    lemma_four_factors(a, h, a, 1);
    lemma_four_factors(p, a2, p, 1);
    lemma_four_factors(a, h, p, 1);
    lemma_four_factors(p, a2, p, a2);
    lemma_four_factors(p, a2, a, h);
    lemma_four_factors(a, h, a, h);
    assert((a2 * h) * (p * a) * 2 == (2 * (a2 * h)) * (p * a)) by (nonlinear_arith);
}

/// One component `c` of the part across, scaled to the length `r`, is at
/// most `r` in magnitude, and changes its sign with `c`.
pub proof fn lemma_ring_part(v: SpecVec3, r: int, c: int)
    requires
        c == v.x || c == v.y || c == v.z,
        floor_sqrt(v.norm_sq()) > 0,
    ensures
        magnitude(rounded_quotient(c * r, floor_sqrt(v.norm_sq()) as int)) <= magnitude(r),
        rounded_quotient((-c) * r, floor_sqrt(v.norm_sq()) as int) == -rounded_quotient(
            c * r,
            floor_sqrt(v.norm_sq()) as int,
        ),
{
    let m = floor_sqrt(v.norm_sq()) as int;
    lemma_floor_sqrt_exists(v.norm_sq());
    assert(v.x * v.x >= 0 && v.y * v.y >= 0 && v.z * v.z >= 0) by (nonlinear_arith);
    assert(magnitude(c) <= m) by (nonlinear_arith)
        requires
            c * c < (m + 1) * (m + 1),
            m >= 0,
    {
        if magnitude(c) >= m + 1 {
            assert(c * c >= (m + 1) * (m + 1));
        }
    }
    assert(magnitude(c * r) <= m * magnitude(r)) by (nonlinear_arith)
        requires
            magnitude(c) <= m,
    ;
    lemma_rounded_below(magnitude(c * r), m, magnitude(r));
    assert((-c) * r == -(c * r)) by (nonlinear_arith);
    lemma_rounded_quotient_negated(c * r, m);
}

/// A number of at most `m * r`, divided by `m` and rounded, is at most `r`.
proof fn lemma_rounded_below(n: int, m: int, r: int)
    by (nonlinear_arith)
    requires
        0 <= n <= m * r,
        m > 0,
        r >= 0,
    ensures
        (2 * n + m) / (2 * m) <= r,
{
    assert(2 * n + m < (r + 1) * (2 * m));
}

/// A vector at most two units long has no component beyond two units.
proof fn lemma_short_components(a: SpecVec3)
    requires
        a.norm_sq() <= AXIS_LIMIT_SQ,
    ensures
        -2_000_000 <= a.x <= 2_000_000,
        -2_000_000 <= a.y <= 2_000_000,
        -2_000_000 <= a.z <= 2_000_000,
{
    assert(a.x * a.x >= 0 && a.y * a.y >= 0 && a.z * a.z >= 0) by (nonlinear_arith);
    lemma_square_root_bound(a.x);
    lemma_square_root_bound(a.y);
    lemma_square_root_bound(a.z);
}

/// A number whose square is at most four million millions is at most two
/// millions.
proof fn lemma_square_root_bound(x: int)
    by (nonlinear_arith)
    ensures
        x * x <= 4_000_000_000_000 ==> -2_000_000 <= x <= 2_000_000,
{
    if x > 2_000_000 {
        assert(x * x >= 2_000_001 * 2_000_001);
    }
    if x < -2_000_000 {
        assert(x * x >= 2_000_001 * 2_000_001);
    }
}

/// A vector with no component beyond one unit is at most two units long.
proof fn lemma_unit_is_short(n: SpecVec3)
    requires
        -ONE <= n.x <= ONE,
        -ONE <= n.y <= ONE,
        -ONE <= n.z <= ONE,
    ensures
        n.norm_sq() <= AXIS_LIMIT_SQ,
{
    assert(0 <= n.x * n.x <= 1_000_000_000_000 && 0 <= n.y * n.y <= 1_000_000_000_000 && 0
        <= n.z * n.z <= 1_000_000_000_000) by (nonlinear_arith)
        requires
            -1_000_000 <= n.x <= 1_000_000,
            -1_000_000 <= n.y <= 1_000_000,
            -1_000_000 <= n.z <= 1_000_000,
    ;
}

} // verus!
