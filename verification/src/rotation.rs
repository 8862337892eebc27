//! What a turn by `rot_z` keeps: a turn and the turn back bring a vector
//! back to where it was, and a turn keeps its length, both but for the
//! rounding of the quotients.

use vstd::prelude::*;
use crate::arith::{lemma_order_times, lemma_product_within};
use crate::fixed::{floor_sqrt, magnitude, rounded_quotient};
use crate::fixed::{lemma_floor_sqrt_exists, lemma_rounding_error};
use crate::sdf::turn_len;
use crate::space::{plus, scaled};
use crate::space::{lemma_scaled_norm, lemma_squares_ordered, lemma_triangle};
use crate::vector::{SpecVec3, PRECISION};

verus! {

/// A turn and the turn back leave a vector where it was, but for two
/// millionths at most in each component: the rounding of the four
/// quotients. This holds for every pair of a sine and a cosine but the pair
/// of two zeros, and for components of up to a thousand units.
pub proof fn lemma_rot_z_there_and_back(v: SpecVec3, sin: int, cos: int)
    requires
        sin != 0 || cos != 0,
        -1_000_000_000 <= v.y <= 1_000_000_000,
        -1_000_000_000 <= v.z <= 1_000_000_000,
    ensures
        ({
            let w = v.rot_z(sin, cos).rot_z(-sin, cos);
            &&& w.x == v.x
            &&& -2 <= w.y - v.y <= 2
            &&& -2 <= w.z - v.z <= 2
        }),
{
    let k = PRECISION as int;
    let n = sin * sin + cos * cos;
    let l = turn_len(sin, cos);
    let back = -sin;
    assert(back * back == sin * sin) by (nonlinear_arith)
        requires
            back == -sin,
    ;
    assert(turn_len(back, cos) == l);
    lemma_turn_len(sin, cos);
    assert(magnitude(back) == magnitude(sin));
    // There: both quotients stay scalars.
    let y1 = rounded_quotient((cos * v.y - sin * v.z) * k, l);
    let z1 = rounded_quotient((sin * v.y + cos * v.z) * k, l);
    assert(cos * v.y - sin * v.z == cos * v.y + back * v.z) by (nonlinear_arith)
        requires
            back == -sin,
    ;
    lemma_rounding_error((cos * v.y + back * v.z) * k, l);
    lemma_rounding_error((sin * v.y + cos * v.z) * k, l);
    lemma_turned_within(cos, back, v.y, v.z, k, l, y1);
    lemma_turned_within(sin, cos, v.y, v.z, k, l, z1);
    assert(v.rot_z(sin, cos) == SpecVec3 { x: v.x, y: y1, z: z1 });
    // And back.
    let y2 = rounded_quotient((cos * y1 - back * z1) * k, l);
    let z2 = rounded_quotient((back * y1 + cos * z1) * k, l);
    assert(cos * y1 - back * z1 == cos * y1 + sin * z1) by (nonlinear_arith)
        requires
            back == -sin,
    ;
    lemma_rounding_error((cos * y1 + sin * z1) * k, l);
    lemma_rounding_error((back * y1 + cos * z1) * k, l);
    lemma_turn_combines(cos, sin, v.y, v.z);
    lemma_back_within(cos, back, sin, cos, cos, sin, n, v.y, v.z, v.y, k, l, y1, z1, y2);
    lemma_back_within(cos, back, sin, cos, back, cos, n, v.y, v.z, v.z, k, l, y1, z1, z2);
}

/// A turn keeps the length of a vector, but for two millionths at most,
/// for every pair of a sine and a cosine but the pair of two zeros, and for
/// components of up to a thousand units.
pub proof fn lemma_rot_z_keeps_length(v: SpecVec3, sin: int, cos: int)
    requires
        sin != 0 || cos != 0,
        -1_000_000_000 <= v.x <= 1_000_000_000,
        -1_000_000_000 <= v.y <= 1_000_000_000,
        -1_000_000_000 <= v.z <= 1_000_000_000,
    ensures
        -2 <= floor_sqrt(v.rot_z(sin, cos).norm_sq()) - floor_sqrt(v.norm_sq()) <= 2,
{
    let k = PRECISION as int;
    let n = sin * sin + cos * cos;
    let l = turn_len(sin, cos);
    let back = -sin;
    lemma_turn_len(sin, cos);
    assert(magnitude(back) == magnitude(sin));
    let a = cos * v.y + back * v.z;
    let b = sin * v.y + cos * v.z;
    assert(cos * v.y - sin * v.z == a) by (nonlinear_arith)
        requires
            a == cos * v.y + back * v.z,
            back == -sin,
    ;
    let y1 = rounded_quotient(a * k, l);
    let z1 = rounded_quotient(b * k, l);
    lemma_rounding_error(a * k, l);
    lemma_rounding_error(b * k, l);
    lemma_turned_within(cos, back, v.y, v.z, k, l, y1);
    lemma_turned_within(sin, cos, v.y, v.z, k, l, z1);
    let u = v.rot_z(sin, cos);
    assert(u == SpecVec3 { x: v.x, y: y1, z: z1 });
    // Twice `l` times the turned vector is the exact turn and the rounding.
    let exact = SpecVec3 { x: 2 * l * v.x, y: 2 * (a * k), z: 2 * (b * k) };
    let rest = SpecVec3 { x: 0, y: 2 * (l * y1) - 2 * (a * k), z: 2 * (l * z1) - 2 * (b * k) };
    let far = scaled(u, 2 * l);
    assert(2 * l * y1 == 2 * (l * y1) && 2 * l * z1 == 2 * (l * z1)) by (nonlinear_arith);
    assert(far == plus(exact, rest));
    assert(exact == plus(far, scaled(rest, -1)));
    lemma_scaled_norm(u, 2 * l);
    lemma_scaled_norm(rest, -1);
    assert(0 <= rest.y * rest.y <= l * l && 0 <= rest.z * rest.z <= l * l && 2 * (l * l) <= (2 * l)
        * (2 * l) && 2 * l >= 0) by (nonlinear_arith)
        requires
            -l <= rest.y <= l,
            -l <= rest.z <= l,
            l >= 1,
    ;
    // The exact turn is as long as the vector, times twice `l`, but for
    // one part in `l`.
    lemma_turn_keeps_squares(cos, sin, v.y, v.z);
    let yz = v.y * v.y + v.z * v.z;
    let vv = v.norm_sq() as int;
    let ll = l * l;
    assert(v.x * v.x >= 0 && v.y * v.y >= 0 && v.z * v.z >= 0) by (nonlinear_arith);
    assert(exact.norm_sq() == 4 * (ll * (v.x * v.x)) + 4 * ((n * k * k) * yz)) by (nonlinear_arith)
        requires
            exact.norm_sq() == (exact.x * exact.x + exact.y * exact.y + exact.z * exact.z) as nat,
            exact.x == 2 * l * v.x,
            exact.y == 2 * (a * k),
            exact.z == 2 * (b * k),
            a * a + b * b == n * yz,
            ll == l * l,
    {
        assert(exact.x * exact.x == 4 * (ll * (v.x * v.x)));
        assert(exact.y * exact.y == 4 * ((k * k) * (a * a)));
        assert(exact.z * exact.z == 4 * ((k * k) * (b * b)));
        assert((k * k) * (a * a) + (k * k) * (b * b) == (k * k) * (n * yz));
        assert((k * k) * (n * yz) == (n * k * k) * yz);
    }
    let up = (l + 1) * (l + 1);
    assert(up == ll + 2 * l + 1) by (nonlinear_arith)
        requires
            up == (l + 1) * (l + 1),
            ll == l * l,
    ;
    assert(4 * (ll * vv) <= exact.norm_sq() <= 4 * (up * vv)) by (nonlinear_arith)
        requires
            exact.norm_sq() == 4 * (ll * (v.x * v.x)) + 4 * ((n * k * k) * yz),
            vv == v.x * v.x + yz,
            v.x * v.x >= 0,
            yz >= 0,
            ll <= n * k * k <= up,
            ll <= up,
    {
        assert(ll * vv == ll * (v.x * v.x) + ll * yz);
        assert(up * vv == up * (v.x * v.x) + up * yz);
        assert(ll * yz <= (n * k * k) * yz <= up * yz);
        assert(ll * (v.x * v.x) <= up * (v.x * v.x));
    }
    lemma_floor_sqrt_exists(v.norm_sq());
    lemma_floor_sqrt_exists(u.norm_sq());
    let q = floor_sqrt(v.norm_sq()) as int;
    let t = floor_sqrt(u.norm_sq()) as int;
    let uu = u.norm_sq() as int;
    assert(vv <= 3_000_000_000_000_000_000) by (nonlinear_arith)
        requires
            vv == v.x * v.x + v.y * v.y + v.z * v.z,
            -1_000_000_000 <= v.x <= 1_000_000_000,
            -1_000_000_000 <= v.y <= 1_000_000_000,
            -1_000_000_000 <= v.z <= 1_000_000_000,
    ;
    if q >= 2_000_000_000 {
        lemma_squares_ordered(2_000_000_000, q);
    }
    assert(l >= 4_294_967_296);
    let top = 2 * ((l + 1) * (q + 1));
    assert(ll >= 1 && up >= 1) by (nonlinear_arith)
        requires
            ll == l * l,
            up == (l + 1) * (l + 1),
            l >= 1,
    ;
    lemma_order_times(up, vv, (q + 1) * (q + 1));
    lemma_order_times(ll, q * q, vv);
    assert(top * top == 4 * (up * ((q + 1) * (q + 1))) && (2 * (l * q)) * (2 * (l * q)) == 4 * (ll
        * (q * q)) && top >= 0 && ll >= 1) by (nonlinear_arith)
        requires
            top == 2 * ((l + 1) * (q + 1)),
            up == (l + 1) * (l + 1),
            ll == l * l,
            l >= 1,
            q >= 0,
    ;
    // From above.
    lemma_triangle(exact, rest, top, 2 * l);
    if t >= q + 3 {
        lemma_squares_ordered(q + 3, t);
        lemma_order_times(4 * ll, (q + 3) * (q + 3), t * t);
        lemma_order_times(4 * ll, t * t, uu);
        assert((2 * l) * (2 * l) == 4 * ll) by (nonlinear_arith)
            requires
                ll == l * l,
        ;
        assert((top + 2 * l) * (top + 2 * l) < (4 * ll) * ((q + 3) * (q + 3)) && (q + 3) * (q + 3)
            <= t * t) by (nonlinear_arith)
            requires
                top == 2 * ((l + 1) * (q + 1)),
                ll == l * l,
                l > q + 1,
                q >= 0,
                t >= q + 3,
        {
            assert(top + 2 * l == 2 * (l * (q + 2)) + 2 * (q + 1));
            assert(0 <= top + 2 * l < 2 * (l * (q + 3)));
            assert((top + 2 * l) * (top + 2 * l) < (2 * (l * (q + 3))) * (2 * (l * (q + 3))));
            assert((2 * (l * (q + 3))) * (2 * (l * (q + 3))) == (4 * ll) * ((q + 3) * (q + 3)));
        }
        assert(false);
    }
    // From below.
    if t <= q - 3 {
        let low = 2 * (l * (q - 2));
        lemma_order_times(4 * ll, uu, (t + 1) * (t + 1));
        assert((2 * l) * (2 * l) == 4 * ll && low >= 0 && (4 * ll) * ((t + 1) * (t + 1)) <= low
            * low && low + 2 * l == 2 * (l * (q - 1))) by (nonlinear_arith)
            requires
                low == 2 * (l * (q - 2)),
                ll == l * l,
                l >= 1,
                0 <= t <= q - 3,
        {
            assert(low * low == (4 * ll) * ((q - 2) * (q - 2)));
            assert((t + 1) * (t + 1) <= (q - 2) * (q - 2));
        }
        lemma_triangle(far, scaled(rest, -1), low, 2 * l);
        assert((2 * (l * (q - 1))) * (2 * (l * (q - 1))) < 4 * (ll * (q * q))) by (nonlinear_arith)
            requires
                ll == l * l,
                l >= 1,
                q >= 3,
        {
            assert((2 * (l * (q - 1))) * (2 * (l * (q - 1))) == 4 * (ll * ((q - 1) * (q - 1))));
            assert((q - 1) * (q - 1) < q * q);
            assert(ll >= 1);
        }
        assert(false);
    }
}

/// A turn keeps the sum of the squares of the two components that it
/// turns, times the squared length of the pair.
proof fn lemma_turn_keeps_squares(c: int, s: int, y: int, z: int)
    ensures
        (c * y + (-s) * z) * (c * y + (-s) * z) + (s * y + c * z) * (s * y + c * z) == (s * s + c
            * c) * (y * y + z * z),
{
    let b = -s;
    let (cy, bz, sy, cz) = (c * y, b * z, s * y, c * z);
    assert((cy + bz) * (cy + bz) == cy * cy + 2 * (cy * bz) + bz * bz) by (nonlinear_arith);
    assert((sy + cz) * (sy + cz) == sy * sy + 2 * (sy * cz) + cz * cz) by (nonlinear_arith);
    assert(cy * cy == (c * c) * (y * y) && bz * bz == (s * s) * (z * z) && sy * sy == (s * s) * (y
        * y) && cz * cz == (c * c) * (z * z)) by (nonlinear_arith)
        requires
            cy == c * y,
            bz == b * z,
            sy == s * y,
            cz == c * z,
            b == -s,
    ;
    assert(cy * bz == -(sy * cz)) by (nonlinear_arith)
        requires
            cy == c * y,
            bz == b * z,
            sy == s * y,
            cz == c * z,
            b == -s,
    ;
    assert((s * s + c * c) * (y * y + z * z) == (s * s) * (y * y) + (s * s) * (z * z) + (c * c)
        * (y * y) + (c * c) * (z * z)) by (nonlinear_arith);
}

/// The length of a pair other than two zeros is positive, its square is
/// the pair's squared length but for twice itself at most, and neither
/// member of the pair, scaled up alike, exceeds it.
proof fn lemma_turn_len(sin: int, cos: int)
    requires
        sin != 0 || cos != 0,
    ensures
        turn_len(sin, cos) >= PRECISION,
        0 <= (sin * sin + cos * cos) * PRECISION * PRECISION - turn_len(sin, cos) * turn_len(
            sin,
            cos,
        ) <= 2 * turn_len(sin, cos),
        magnitude(sin) * PRECISION <= turn_len(sin, cos),
        magnitude(cos) * PRECISION <= turn_len(sin, cos),
{
    let k = PRECISION as int;
    let n = sin * sin + cos * cos;
    let l = turn_len(sin, cos);
    assert(sin * sin >= 0 && cos * cos >= 0 && n >= 1) by (nonlinear_arith)
        requires
            sin != 0 || cos != 0,
            n == sin * sin + cos * cos,
    ;
    assert(n * k * k >= 0) by (nonlinear_arith)
        requires
            n >= 1,
            k >= 1,
    ;
    lemma_floor_sqrt_exists((n * k * k) as nat);
    assert((l + 1) * (l + 1) == l * l + 2 * l + 1) by (nonlinear_arith);
    assert(magnitude(sin) * magnitude(sin) == sin * sin) by (nonlinear_arith);
    assert(magnitude(cos) * magnitude(cos) == cos * cos) by (nonlinear_arith);
    lemma_below_root(1, n, k, l);
    lemma_below_root(magnitude(sin), n, k, l);
    lemma_below_root(magnitude(cos), n, k, l);
}

/// If `a * a <= q`, then `a * k` is at most the integer square root of
/// `q * k * k`.
proof fn lemma_below_root(a: int, q: int, k: int, m: int)
    by (nonlinear_arith)
    requires
        0 <= a,
        0 <= k,
        0 <= m,
        a * a <= q,
        q * k * k < (m + 1) * (m + 1),
    ensures
        a * k <= m,
{
    assert((a * k) * (a * k) == (a * a) * (k * k));
    assert((a * a) * (k * k) <= q * (k * k));
    assert(q * (k * k) == q * k * k);
    if a * k >= m + 1 {
        assert((a * k) * (a * k) >= (m + 1) * (m + 1));
    }
}

/// The turned component `e` of a vector with components of up to a thousand
/// units is of up to two thousand units.
proof fn lemma_turned_within(c: int, s: int, y: int, z: int, k: int, l: int, e: int)
    requires
        l > 0,
        k > 0,
        magnitude(c) * k <= l,
        magnitude(s) * k <= l,
        -1_000_000_000 <= y <= 1_000_000_000,
        -1_000_000_000 <= z <= 1_000_000_000,
        -l <= 2 * (l * e) - 2 * ((c * y + s * z) * k) <= l,
    ensures
        -2_000_000_000 <= e <= 2_000_000_000,
{
    let big = 1_000_000_000int;
    lemma_magnitude_times(c, k, l);
    lemma_magnitude_times(s, k, l);
    lemma_product_within(c * k, y, l, big);
    lemma_product_within(s * k, z, l, big);
    assert((c * y + s * z) * k == (c * k) * y + (s * k) * z) by (nonlinear_arith);
    assert(l * (2 * big + 1) == 2 * (l * big) + l && l * (-(2 * big + 1)) == -(2 * (l * big) + l))
        by (nonlinear_arith);
    if e > 2 * big {
        lemma_order_times(l, 2 * big + 1, e);
    }
    if e < -2 * big {
        lemma_order_times(l, e, -(2 * big + 1));
    }
}

/// A number whose magnitude, times `k`, is at most `l` is itself, times
/// `k`, between `-l` and `l`.
proof fn lemma_magnitude_times(c: int, k: int, l: int)
    by (nonlinear_arith)
    requires
        magnitude(c) * k <= l,
        k > 0,
    ensures
        -l <= c * k <= l,
{
    if c >= 0 {
        assert(magnitude(c) == c);
        assert(c * k >= 0);
    } else {
        assert(magnitude(c) == -c);
        assert((-c) * k == -(c * k));
        assert(c * k <= 0);
    }
}

/// A turn by a cosine `c` and a sine `s`, followed by the turn back, gives
/// each component times the squared length of the pair.
proof fn lemma_turn_combines(c: int, s: int, y: int, z: int)
    ensures
        c * (c * y + (-s) * z) + s * (s * y + c * z) == (s * s + c * c) * y,
        (-s) * (c * y + (-s) * z) + c * (s * y + c * z) == (s * s + c * c) * z,
{
    let b = -s;
    assert(c * (c * y + b * z) == (c * c) * y + (c * b) * z) by (nonlinear_arith);
    assert(s * (s * y + c * z) == (s * s) * y + (s * c) * z) by (nonlinear_arith);
    assert(b * (c * y + b * z) == (b * c) * y + (b * b) * z) by (nonlinear_arith);
    assert(c * (s * y + c * z) == (c * s) * y + (c * c) * z) by (nonlinear_arith);
    assert(c * b == -(s * c) && b * c == -(c * s) && b * b == s * s && s * c == c * s)
        by (nonlinear_arith)
        requires
            b == -s,
    ;
    assert((c * b) * z == -((s * c) * z)) by (nonlinear_arith)
        requires
            c * b == -(s * c),
    ;
    assert((b * c) * y == -((c * s) * y)) by (nonlinear_arith)
        requires
            b * c == -(c * s),
    ;
    assert((s * s + c * c) * y == (s * s) * y + (c * c) * y) by (nonlinear_arith);
    assert((s * s + c * c) * z == (s * s) * z + (c * c) * z) by (nonlinear_arith);
}

/// A factor distributes over a sum of two products.
proof fn lemma_two_terms(f: int, a: int, b: int, c: int, d: int)
    by (nonlinear_arith)
    ensures
        f * (a * b + c * d) == a * (f * b) + c * (f * d),
{
}

/// The turn back of one component. The first turn took `y` and `z` to `y1`
/// and `z1`, with the coefficients `c1`, `s1` and `c2`, `s2`; the turn back
/// takes these to `y2`, with `c3`, `s3`; and the coefficients of the three
/// combine to `n` times what the component `t` was. Then `y2` is within two
/// millionths of `t`.
proof fn lemma_back_within(
    c1: int,
    s1: int,
    c2: int,
    s2: int,
    c3: int,
    s3: int,
    n: int,
    y: int,
    z: int,
    t: int,
    k: int,
    l: int,
    y1: int,
    z1: int,
    y2: int,
)
    requires
        l >= 4_000_000_000,
        k > 0,
        0 <= n * k * k - l * l <= 2 * l,
        magnitude(c3) * k <= l,
        magnitude(s3) * k <= l,
        -1_000_000_000 <= t <= 1_000_000_000,
        c3 * (c1 * y + s1 * z) + s3 * (c2 * y + s2 * z) == n * t,
        -l <= 2 * (l * y1) - 2 * ((c1 * y + s1 * z) * k) <= l,
        -l <= 2 * (l * z1) - 2 * ((c2 * y + s2 * z) * k) <= l,
        -l <= 2 * (l * y2) - 2 * ((c3 * y1 + s3 * z1) * k) <= l,
    ensures
        -2 <= y2 - t <= 2,
{
    let a1 = c1 * y + s1 * z;
    let a2 = c2 * y + s2 * z;
    let p = c3 * y1 + s3 * z1;
    let d1 = 2 * (l * y1) - 2 * (a1 * k);
    let d2 = 2 * (l * z1) - 2 * (a2 * k);
    let d3 = 2 * (l * y2) - 2 * (p * k);
    let ll = l * l;
    // Twice `l * p` is twice `k * n * t` and the rounding of the first turn.
    lemma_two_terms(l, c3, y1, s3, z1);
    lemma_two_terms(k, c3, a1, s3, a2);
    assert(c3 * (k * a1) == c3 * (a1 * k) && s3 * (k * a2) == s3 * (a2 * k)) by (nonlinear_arith);
    let r12 = c3 * d1 + s3 * d2;
    assert(r12 == 2 * (c3 * (l * y1)) - 2 * (c3 * (a1 * k)) + 2 * (s3 * (l * z1)) - 2 * (s3 * (a2
        * k))) by (nonlinear_arith)
        requires
            r12 == c3 * d1 + s3 * d2,
            d1 == 2 * (l * y1) - 2 * (a1 * k),
            d2 == 2 * (l * z1) - 2 * (a2 * k),
    ;
    assert(2 * (l * p) == 2 * (k * (n * t)) + r12);
    // Twice `l * l * y2` is twice `k * k * n * t` and all the rounding.
    assert(l * (2 * (l * y2)) == 2 * (ll * y2) && l * (2 * (p * k)) == k * (2 * (l * p)) && k * (2
        * (k * (n * t)) + r12) == 2 * ((n * k * k) * t) + k * r12) by (nonlinear_arith)
        requires
            ll == l * l,
    ;
    assert(l * (2 * (l * y2)) == l * (2 * (p * k)) + l * d3) by (nonlinear_arith)
        requires
            d3 == 2 * (l * y2) - 2 * (p * k),
    ;
    let gap = n * k * k - ll;
    assert(2 * (ll * (y2 - t)) == 2 * (gap * t) + k * r12 + l * d3) by (nonlinear_arith)
        requires
            2 * (ll * y2) == 2 * ((n * k * k) * t) + k * r12 + l * d3,
            gap == n * k * k - ll,
    ;
    // Each part of the rounding is small against `l * l`.
    lemma_product_within(gap, t, 2 * l, 1_000_000_000);
    lemma_magnitude_times(c3, k, l);
    lemma_magnitude_times(s3, k, l);
    lemma_product_within(c3 * k, d1, l, l);
    lemma_product_within(s3 * k, d2, l, l);
    lemma_product_within(l, d3, l, l);
    assert(k * r12 == (c3 * k) * d1 + (s3 * k) * d2) by (nonlinear_arith)
        requires
            r12 == c3 * d1 + s3 * d2,
    ;
    lemma_order_times(l, 4_000_000_000, l);
    assert((2 * l) * 1_000_000_000 == 500_000_000 * (l * 4)) by (nonlinear_arith);
    assert(l * 4_000_000_000 == 1_000_000_000 * (l * 4)) by (nonlinear_arith);
    assert(-4 * ll <= 2 * (ll * (y2 - t)) <= 4 * ll);
    if y2 - t >= 3 {
        lemma_order_times(ll, 3, y2 - t);
    }
    if y2 - t <= -3 {
        lemma_order_times(ll, y2 - t, -3);
    }
}

} // verus!
