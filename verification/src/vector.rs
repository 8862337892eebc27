//! Two- and three-component vectors of fixed-point scalars.

use vstd::prelude::*;
use crate::fixed::{clamped, floor_sqrt, is_floor_sqrt, magnitude, quotient, times};
use crate::fixed::{LEAST, LIMIT, ONE};
use crate::fixed::lemma_quotient_of_multiple;
use crate::fixed::{integer_sqrt, product, saturate, scale};
use crate::fixed::lemma_floor_sqrt_exists;

verus! {

/// Extra binary digits carried by the length that `norm` divides by.
pub const PRECISION: u64 = 4_294_967_296;

/// A pair of scalars: the major and the tube radius of a torus.
#[derive(Clone, Copy, Debug, PartialEq, Eq, Structural)]
pub struct Vec2 {
    pub x: i32,
    pub y: i32,
}

/// A point, direction or axis.
#[derive(Clone, Copy, Debug, PartialEq, Eq, Structural)]
pub struct Vec3 {
    pub x: i32,
    pub y: i32,
    pub z: i32,
}

/// The mathematical value of a `Vec3`: three integers that count millionths.
pub struct SpecVec3 {
    pub x: int,
    pub y: int,
    pub z: int,
}

impl SpecVec3 {
    /// Component-wise sum.
    pub open spec fn add(self, o: SpecVec3) -> SpecVec3 {
        SpecVec3 { x: clamped(self.x + o.x), y: clamped(self.y + o.y), z: clamped(self.z + o.z) }
    }

    /// Component-wise difference.
    pub open spec fn sub(self, o: SpecVec3) -> SpecVec3 {
        SpecVec3 { x: clamped(self.x - o.x), y: clamped(self.y - o.y), z: clamped(self.z - o.z) }
    }

    /// Each component times the scalar `s`.
    pub open spec fn mul(self, s: int) -> SpecVec3 {
        SpecVec3 { x: times(self.x, s), y: times(self.y, s), z: times(self.z, s) }
    }

    /// The inner product, as a scalar.
    pub open spec fn dot(self, o: SpecVec3) -> int {
        clamped(quotient(self.x * o.x + self.y * o.y + self.z * o.z, ONE as int))
    }

    /// The sum of the squared components, in squared millionths.
    pub open spec fn norm_sq(self) -> nat {
        (self.x * self.x + self.y * self.y + self.z * self.z) as nat
    }

    /// The Euclidean length, rounded down to a millionth.
    pub open spec fn len(self) -> int {
        clamped(floor_sqrt(self.norm_sq()) as int)
    }

    /// The length scaled up by `PRECISION`, rounded down.
    pub open spec fn fine_len(self) -> nat {
        floor_sqrt(self.norm_sq() * PRECISION as nat * PRECISION as nat)
    }

    /// The vector scaled to unit length; the zero vector stays as it is.
    pub open spec fn norm(self) -> SpecVec3 {
        if self.norm_sq() == 0 {
            self
        } else {
            let m = self.fine_len() as int;
            SpecVec3 {
                x: quotient(self.x * ONE * PRECISION, m),
                y: quotient(self.y * ONE * PRECISION, m),
                z: quotient(self.z * ONE * PRECISION, m),
            }
        }
    }
}

impl View for Vec3 {
    type V = SpecVec3;

    open spec fn view(&self) -> SpecVec3 {
        SpecVec3 { x: self.x as int, y: self.y as int, z: self.z as int }
    }
}

impl Default for Vec2 {
    /// The pair of zeros.
    fn default() -> (v: Vec2)
        ensures
            v == (Vec2 { x: 0, y: 0 }),
    {
        Vec2 { x: 0, y: 0 }
    }
}

impl Default for Vec3 {
    /// The zero vector.
    fn default() -> (v: Vec3)
        ensures
            v == (Vec3 { x: 0, y: 0, z: 0 }),
    {
        Vec3 { x: 0, y: 0, z: 0 }
    }
}

impl Vec2 {
    /// The pair of `x` and `y`.
    pub fn new(x: i32, y: i32) -> (v: Vec2)
        ensures
            v == (Vec2 { x, y }),
    {
        Vec2 { x, y }
    }
}

impl Vec3 {
    /// The vector with the components `x`, `y` and `z`.
    pub fn new(x: i32, y: i32, z: i32) -> (v: Vec3)
        ensures
            v == (Vec3 { x, y, z }),
    {
        Vec3 { x, y, z }
    }

    /// Component-wise sum, each component clamped to the scalar range.
    pub fn add(self, o: Vec3) -> (r: Vec3)
        ensures
            r@ == self@.add(o@),
            o == (Vec3 { x: 0, y: 0, z: 0 }) ==> r == self,
    {
        Vec3 {
            x: saturate(self.x as i128 + o.x as i128),
            y: saturate(self.y as i128 + o.y as i128),
            z: saturate(self.z as i128 + o.z as i128),
        }
    }

    /// Component-wise difference, each component clamped to the scalar range.
    pub fn sub(self, o: Vec3) -> (r: Vec3)
        ensures
            r@ == self@.sub(o@),
            o == (Vec3 { x: 0, y: 0, z: 0 }) ==> r == self,
    {
        Vec3 {
            x: saturate(self.x as i128 - o.x as i128),
            y: saturate(self.y as i128 - o.y as i128),
            z: saturate(self.z as i128 - o.z as i128),
        }
    }

    /// Each component times the scalar `s`. Times `ONE` the vector stays as
    /// it is, and times zero it is the zero vector.
    pub fn mul(self, s: i32) -> (r: Vec3)
        ensures
            r@ == self@.mul(s as int),
            s == ONE ==> r == self,
            s == 0 ==> r == (Vec3 { x: 0, y: 0, z: 0 }),
    {
        proof {
            lemma_mul_by_one_and_zero(self);
        }
        Vec3 { x: scale(self.x, s), y: scale(self.y, s), z: scale(self.z, s) }
    }

    /// The inner product, as a scalar.
    pub fn dot(self, o: Vec3) -> (d: i32)
        ensures
            d == self@.dot(o@),
    {
        let sum: i128 = product(self.x, o.x) as i128 + product(self.y, o.y) as i128 + product(
            self.z,
            o.z,
        ) as i128;
        saturate(sum / (ONE as i128))
    }

    /// The sum of the squared components.
    pub fn norm_sq(self) -> (q: u64)
        ensures
            q == self@.norm_sq(),
            q <= 0xc000_0000_0000_0000,
    {
        let xx: i64 = product(self.x, self.x);
        let yy: i64 = product(self.y, self.y);
        let zz: i64 = product(self.z, self.z);
        assert(self.x * self.x >= 0 && self.y * self.y >= 0 && self.z * self.z >= 0)
            by (nonlinear_arith);
        xx as u64 + yy as u64 + zz as u64
    }

    /// The vector scaled to unit length, which it has but for what rounding
    /// down takes; the zero vector stays as it is.
    pub fn norm(self) -> (n: Vec3)
        ensures
            n@ == self@.norm(),
            self == (Vec3 { x: 0, y: 0, z: 0 }) ==> n == self,
            self != (Vec3 { x: 0, y: 0, z: 0 }) ==> ONE - 4 <= n@.len() <= ONE,
            self != (Vec3 { x: 0, y: 0, z: 0 }) ==> -ONE <= n.x <= ONE && -ONE <= n.y <= ONE && -ONE
                <= n.z <= ONE,
    {
        proof {
            lemma_norm_of_zero(self@);
        }
        let q: u64 = self.norm_sq();
        if q == 0 {
            return self;
        }
        let m: u64 = integer_sqrt((q as u128) * 0x1_0000_0000_0000_0000u128);
        proof {
            lemma_fine_len_dominates(self@);
            lemma_norm_has_unit_length(self@);
        }
        Vec3 { x: unit_part(self.x, m), y: unit_part(self.y, m), z: unit_part(self.z, m) }
    }

    /// The Euclidean length, rounded down to a millionth.
    pub fn len(self) -> (l: i32)
        ensures
            l == self@.len(),
            0 <= l,
            l < LIMIT ==> l * l <= self@.norm_sq() < (l + 1) * (l + 1),
    {
        saturate(integer_sqrt(self.norm_sq() as u128) as i128)
    }
}

/// One component `x` of a vector divided by the vector's scaled-up length `m`.
fn unit_part(x: i32, m: u64) -> (c: i32)
    requires
        m > 0,
        magnitude(x as int) * PRECISION <= m,
    ensures
        c == quotient(x * ONE * PRECISION, m as int),
        -ONE <= c <= ONE,
{
    let num: i128 = (x as i128) * 4_294_967_296_000_000i128;
    let c: i128 = num / (m as i128);
    assert(magnitude(c as int) <= ONE) by (nonlinear_arith)
        requires
            m > 0,
            magnitude(num as int) <= m * ONE,
            c == quotient(num as int, m as int),
    ;
    c as i32
}

/// A vector times `ONE` is the vector, and times zero the zero vector.
pub proof fn lemma_mul_by_one_and_zero(v: Vec3)
    ensures
        v@.mul(ONE as int) == v@,
        v@.mul(0) == (SpecVec3 { x: 0, y: 0, z: 0 }),
{
    lemma_quotient_of_multiple(v.x as int, ONE as int);
    lemma_quotient_of_multiple(v.y as int, ONE as int);
    lemma_quotient_of_multiple(v.z as int, ONE as int);
    assert(v.x * 0 == 0 && v.y * 0 == 0 && v.z * 0 == 0);
}

/// Only the zero vector has no length, and scaling it to unit length leaves
/// it as it is.
pub proof fn lemma_norm_of_zero(v: SpecVec3)
    ensures
        v.norm_sq() == 0 <==> v == (SpecVec3 { x: 0, y: 0, z: 0 }),
        v.norm_sq() == 0 ==> v.norm() == v,
{
    assert(v.x * v.x >= 0 && (v.x != 0 ==> v.x * v.x > 0)) by (nonlinear_arith);
    assert(v.y * v.y >= 0 && (v.y != 0 ==> v.y * v.y > 0)) by (nonlinear_arith);
    assert(v.z * v.z >= 0 && (v.z != 0 ==> v.z * v.z > 0)) by (nonlinear_arith);
}

/// A vector other than zero has, once scaled to unit length, a length from
/// `ONE - 4` to `ONE`: what is missing is what rounding down took.
pub proof fn lemma_norm_has_unit_length(v: SpecVec3)
    requires
        v.norm_sq() > 0,
    ensures
        ONE - 4 <= v.norm().len() <= ONE,
{
    let s = ONE as int;
    let k = PRECISION as int;
    let q = v.norm_sq() as int;
    let m = v.fine_len() as int;
    lemma_fine_len_dominates(v);
    let (mx, my, mz) = (magnitude(v.x), magnitude(v.y), magnitude(v.z));
    let a = (mx * s * k, my * s * k, mz * s * k);
    let e = (a.0 / m, a.1 / m, a.2 / m);
    let n = v.norm();
    assert(magnitude(v.x * ONE * PRECISION) == a.0 && magnitude(v.y * ONE * PRECISION) == a.1
        && magnitude(v.z * ONE * PRECISION) == a.2);
    lemma_quotient_square(v.x * ONE * PRECISION, m);
    lemma_quotient_square(v.y * ONE * PRECISION, m);
    lemma_quotient_square(v.z * ONE * PRECISION, m);
    assert(n.norm_sq() == e.0 * e.0 + e.1 * e.1 + e.2 * e.2) by {
        assert(e.0 * e.0 >= 0 && e.1 * e.1 >= 0 && e.2 * e.2 >= 0) by (nonlinear_arith);
    }
    lemma_quotient_square_bounds(a.0, m);
    lemma_quotient_square_bounds(a.1, m);
    lemma_quotient_square_bounds(a.2, m);
    assert(mx * mx == v.x * v.x && my * my == v.y * v.y && mz * mz == v.z * v.z)
        by (nonlinear_arith)
        requires
            mx == magnitude(v.x),
            my == magnitude(v.y),
            mz == magnitude(v.z),
    ;
    assert(v.x * v.x >= 0 && v.y * v.y >= 0 && v.z * v.z >= 0) by (nonlinear_arith);
    lemma_scaled_square(mx, s, k);
    lemma_scaled_square(my, s, k);
    lemma_scaled_square(mz, s, k);
    assert((s * s) * ((mx * mx) * (k * k)) + (s * s) * ((my * my) * (k * k)) + (s * s) * ((mz * mz)
        * (k * k)) == (s * s) * (q * k * k)) by (nonlinear_arith)
        requires
            q == mx * mx + my * my + mz * mz,
    ;
    assert(a.0 <= m * s && a.1 <= m * s && a.2 <= m * s) by (nonlinear_arith)
        requires
            s >= 0,
            mx * k <= m,
            my * k <= m,
            mz * k <= m,
            a.0 == mx * s * k,
            a.1 == my * s * k,
            a.2 == mz * s * k,
    ;
    lemma_unit_square_sum(s, m, q * k * k, a, e);
    lemma_floor_sqrt_between(n.norm_sq(), s);
}

/// A vector that reaches one unit forward still points forward once it is
/// scaled to unit length, however far it reaches sideways.
pub proof fn lemma_norm_keeps_forward(v: SpecVec3)
    requires
        v.x == ONE,
        LEAST <= v.y <= LIMIT,
        LEAST <= v.z <= LIMIT,
    ensures
        v.norm().x > 0,
{
    let k = PRECISION as int;
    let m = v.fine_len() as int;
    let q = v.norm_sq() as int;
    assert(v.y * v.y <= 0x4000_0000_0000_0000 && v.z * v.z <= 0x4000_0000_0000_0000 && v.y * v.y
        >= 0 && v.z * v.z >= 0) by (nonlinear_arith)
        requires
            -0x8000_0000 <= v.y <= 0x8000_0000,
            -0x8000_0000 <= v.z <= 0x8000_0000,
    ;
    assert(v.x * v.x == 1_000_000_000_000);
    lemma_fine_len_dominates(v);
    let top = ONE * ONE * PRECISION;
    assert(top == 1_000_000_000_000 * k);
    assert(m <= top) by (nonlinear_arith)
        requires
            0 <= m,
            0 < k,
            m * m <= q * k * k,
            0 < q <= 1_000_000_000_000_000_000_000_000,
            top == 1_000_000_000_000 * k,
    {
        if m > top {
            assert(m * m > top * top);
            assert(top * top == 1_000_000_000_000_000_000_000_000 * (k * k));
            assert(q * k * k == q * (k * k));
            assert(q * (k * k) <= 1_000_000_000_000_000_000_000_000 * (k * k));
        }
    }
    assert(top / m >= 1) by (nonlinear_arith)
        requires
            0 < m <= top,
    ;
}

/// Of a vector other than zero, the scaled-up length is at least `PRECISION`,
/// and no component, scaled up likewise, exceeds it.
pub proof fn lemma_fine_len_dominates(v: SpecVec3)
    requires
        v.norm_sq() > 0,
    ensures
        is_floor_sqrt(v.norm_sq() * PRECISION as nat * PRECISION as nat, v.fine_len()),
        v.fine_len() >= PRECISION,
        magnitude(v.x) * PRECISION <= v.fine_len(),
        magnitude(v.y) * PRECISION <= v.fine_len(),
        magnitude(v.z) * PRECISION <= v.fine_len(),
{
    let k = PRECISION as int;
    let q = v.norm_sq() as int;
    let w = v.norm_sq() * PRECISION as nat * PRECISION as nat;
    let m = v.fine_len() as int;
    lemma_floor_sqrt_exists(w);
    assert(w == q * k * k);
    assert(v.x * v.x >= 0 && v.y * v.y >= 0 && v.z * v.z >= 0) by (nonlinear_arith);
    assert(magnitude(v.x) * magnitude(v.x) == v.x * v.x) by (nonlinear_arith);
    assert(magnitude(v.y) * magnitude(v.y) == v.y * v.y) by (nonlinear_arith);
    assert(magnitude(v.z) * magnitude(v.z) == v.z * v.z) by (nonlinear_arith);
    lemma_scaled_below_root(1, q, k, m);
    lemma_scaled_below_root(magnitude(v.x), q, k, m);
    lemma_scaled_below_root(magnitude(v.y), q, k, m);
    lemma_scaled_below_root(magnitude(v.z), q, k, m);
}

/// If `a * a <= q`, then `a * k` is at most the integer square root of
/// `q * k * k`.
proof fn lemma_scaled_below_root(a: int, q: int, k: int, m: int)
    by (nonlinear_arith)
    requires
        0 <= a,
        0 <= k,
        0 <= m,
        a * a <= q,
        q * k * k < (m + 1) * (m + 1),
    ensures
        a * k <= m,
{
    assert((a * k) * (a * k) == (a * a) * (k * k));
    assert((a * a) * (k * k) <= q * (k * k));
    assert(q * (k * k) == q * k * k);
    if a * k >= m + 1 {
        assert((a * k) * (a * k) >= (m + 1) * (m + 1));
    }
}

/// A quotient rounded down, times its divisor, is the dividend less at most
/// the divisor; this bounds its square from both sides.
proof fn lemma_quotient_square_bounds(a: int, m: int)
    by (nonlinear_arith)
    requires
        a >= 0,
        m > 0,
    ensures
        a / m >= 0,
        (m * m) * ((a / m) * (a / m)) <= a * a,
        (m * m) * ((a / m) * (a / m)) >= a * a - 2 * (a * m),
{
    let e = a / m;
    let u = e * m;
    assert(u <= a < u + m);
    assert(e >= 0);
    assert(u * u == (m * m) * (e * e));
    assert(u * u <= a * a);
    if a >= m {
        assert(u >= a - m >= 0);
        assert(u * u >= (a - m) * (a - m));
        assert((a - m) * (a - m) == a * a - 2 * a * m + m * m);
    } else {
        assert(a * a - 2 * a * m == a * (a - 2 * m));
        assert(a * (a - 2 * m) <= 0);
        assert(u * u >= 0);
    }
}

/// The square of a truncated quotient is the square of the quotient of the
/// magnitudes.
proof fn lemma_quotient_square(a: int, m: int)
    by (nonlinear_arith)
    requires
        m > 0,
    ensures
        quotient(a, m) * quotient(a, m) == (magnitude(a) / m) * (magnitude(a) / m),
{
}

/// The square of a product of three factors.
proof fn lemma_scaled_square(a: int, s: int, k: int)
    by (nonlinear_arith)
    ensures
        (a * s * k) * (a * s * k) == (s * s) * ((a * a) * (k * k)),
{
}

/// Between the squares of `s - 4` and of `s + 1` the integer square root is
/// from `s - 4` to `s`.
proof fn lemma_floor_sqrt_between(t: nat, s: int)
    requires
        s >= 4,
        (s - 4) * (s - 4) <= t < (s + 1) * (s + 1),
    ensures
        s - 4 <= floor_sqrt(t) <= s,
{
    lemma_floor_sqrt_exists(t);
    let r = floor_sqrt(t) as int;
    if r > s {
        assert(r * r >= (s + 1) * (s + 1)) by (nonlinear_arith)
            requires
                r >= s + 1,
                s >= 0,
        ;
    }
    if r < s - 4 {
        assert((r + 1) * (r + 1) <= (s - 4) * (s - 4)) by (nonlinear_arith)
            requires
                0 <= r + 1 <= s - 4,
        ;
    }
}

/// The sum of three squares lies within `6 * s` below the square of `s`,
/// given what the division by the scaled-up length `m` leaves of each.
proof fn lemma_unit_square_sum(s: int, m: int, w: int, a: (int, int, int), e: (int, int, int))
    requires
        8 <= s < m,
        m * m <= w < (m + 1) * (m + 1),
        a.0 * a.0 + a.1 * a.1 + a.2 * a.2 == (s * s) * w,
        0 <= a.0 <= m * s,
        0 <= a.1 <= m * s,
        0 <= a.2 <= m * s,
        (m * m) * (e.0 * e.0) <= a.0 * a.0,
        (m * m) * (e.1 * e.1) <= a.1 * a.1,
        (m * m) * (e.2 * e.2) <= a.2 * a.2,
        (m * m) * (e.0 * e.0) >= a.0 * a.0 - 2 * (a.0 * m),
        (m * m) * (e.1 * e.1) >= a.1 * a.1 - 2 * (a.1 * m),
        (m * m) * (e.2 * e.2) >= a.2 * a.2 - 2 * (a.2 * m),
    ensures
        (s - 4) * (s - 4) <= e.0 * e.0 + e.1 * e.1 + e.2 * e.2 < (s + 1) * (s + 1),
{
    let t = e.0 * e.0 + e.1 * e.1 + e.2 * e.2;
    let mm = m * m;
    let ss = s * s;
    lemma_square_le(1, m);
    lemma_square_le(1, s);
    lemma_distributes(mm, e.0 * e.0, e.1 * e.1, e.2 * e.2);
    // From above: the squares sum to less than the square of `s + 1`.
    lemma_mul_lt(ss, w, (m + 1) * (m + 1));
    lemma_square_of_product(s, m + 1);
    lemma_cross_order(s, m);
    lemma_square_le(s * (m + 1), m * (s + 1));
    lemma_square_of_product(m, s + 1);
    if t >= (s + 1) * (s + 1) {
        lemma_mul_le(mm, (s + 1) * (s + 1), t);
        assert(false);
    }
    // From below: they sum to at least the square of `s` less six times `s`.
    lemma_mul_le(ss, mm, w);
    lemma_mul_le(m, a.0, m * s);
    lemma_mul_le(m, a.1, m * s);
    lemma_mul_le(m, a.2, m * s);
    lemma_commutes(m, a.0);
    lemma_commutes(m, a.1);
    lemma_commutes(m, a.2);
    lemma_commutes(ss, mm);
    lemma_associates(m, m, s);
    lemma_six_below(mm, s);
    assert(mm * t >= mm * (ss - 6 * s));
    if t < ss - 6 * s {
        lemma_mul_lt(mm, t, ss - 6 * s);
        assert(false);
    }
    lemma_square_of_difference(s);
}

/// A factor that is not negative keeps an order.
proof fn lemma_mul_le(a: int, b: int, c: int)
    by (nonlinear_arith)
    requires
        a >= 0,
        b <= c,
    ensures
        a * b <= a * c,
{
}

/// A positive factor keeps a strict order.
proof fn lemma_mul_lt(a: int, b: int, c: int)
    by (nonlinear_arith)
    requires
        a > 0,
        b < c,
    ensures
        a * b < a * c,
{
}

/// Squaring keeps the order of numbers that are not negative.
proof fn lemma_square_le(a: int, b: int)
    by (nonlinear_arith)
    requires
        0 <= a <= b,
    ensures
        a * a <= b * b,
{
}

/// The square of a product is the product of the squares.
proof fn lemma_square_of_product(a: int, b: int)
    by (nonlinear_arith)
    ensures
        (a * b) * (a * b) == (a * a) * (b * b),
{
}

/// A factor distributes over a sum of three.
proof fn lemma_distributes(x: int, a: int, b: int, c: int)
    by (nonlinear_arith)
    ensures
        x * (a + b + c) == x * a + x * b + x * c,
{
}

/// The factors of a product may change places.
proof fn lemma_commutes(a: int, b: int)
    by (nonlinear_arith)
    ensures
        a * b == b * a,
{
}

/// The factors of a product may be grouped either way.
proof fn lemma_associates(a: int, b: int, c: int)
    by (nonlinear_arith)
    ensures
        a * (b * c) == (a * b) * c,
{
}

/// Of two numbers, the smaller times the successor of the larger is at most
/// the larger times the successor of the smaller.
proof fn lemma_cross_order(s: int, m: int)
    by (nonlinear_arith)
    requires
        0 <= s <= m,
    ensures
        0 <= s * (m + 1) <= m * (s + 1),
{
}

/// A factor distributes over `s * s - 6 * s`.
proof fn lemma_six_below(mm: int, s: int)
    by (nonlinear_arith)
    ensures
        mm * (s * s - 6 * s) == mm * (s * s) - 6 * (mm * s),
{
}

/// The square of `s - 4`, written out.
proof fn lemma_square_of_difference(s: int)
    by (nonlinear_arith)
    ensures
        (s - 4) * (s - 4) == s * s - 8 * s + 16,
{
}

} // verus!
