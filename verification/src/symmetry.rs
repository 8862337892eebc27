//! The symmetry of the torus under quarter turns.
//!
//! A turn of a point and of the axis by the same rotation leaves the
//! distance between them as it is. In fixed-point arithmetic this holds to
//! the last digit for the rotations that carry the grid of scalars onto
//! itself: the quarter turns about the coordinate axes, and what they
//! compose to. That is what this module proves. Other rotations round what
//! they turn, and of those this module states nothing.

use vstd::prelude::*;
use crate::fixed::{floor_sqrt, magnitude, LIMIT, ONE};
use crate::fixed::lemma_quotient_negated;
use crate::sdf::{across, ring_from, ring_point, steady_axis, torus_distance};
use crate::space::inner;
use crate::sdf::lemma_ring_part;
use crate::vector::{lemma_fine_len_dominates, SpecVec3, Vec2, PRECISION};

verus! {

/// A quarter turn about one of the three coordinate axes. Such turns carry
/// the grid of scalars onto itself, so nothing is rounded when a vector is
/// turned.
pub enum QuarterTurn {
    /// `(x, y, z)` to `(x, -z, y)`.
    AboutX,
    /// `(x, y, z)` to `(z, y, -x)`.
    AboutY,
    /// `(x, y, z)` to `(-y, x, z)`.
    AboutZ,
}

impl SpecVec3 {
    /// The vector after the quarter turn `q`.
    pub open spec fn turned(self, q: QuarterTurn) -> SpecVec3 {
        match q {
            QuarterTurn::AboutX => SpecVec3 { x: self.x, y: -self.z, z: self.y },
            QuarterTurn::AboutY => SpecVec3 { x: self.z, y: self.y, z: -self.x },
            QuarterTurn::AboutZ => SpecVec3 { x: -self.y, y: self.x, z: self.z },
        }
    }

    /// Whether the vector stays a vector of scalars when its components
    /// are moved by at most `by`.
    pub open spec fn has_room(self, by: int) -> bool {
        &&& magnitude(self.x) + by <= LIMIT
        &&& magnitude(self.y) + by <= LIMIT
        &&& magnitude(self.z) + by <= LIMIT
    }
}

impl SpecVec3 {
    /// The vector after the quarter turns `qs`, one after the other. Every
    /// rotation that carries the coordinate axes onto each other is such a
    /// chain of turns.
    pub open spec fn turned_by(self, qs: Seq<QuarterTurn>) -> SpecVec3
        decreases qs.len(),
    {
        if qs.len() == 0 {
            self
        } else {
            self.turned(qs[0]).turned_by(qs.subrange(1, qs.len() as int))
        }
    }
}

/// The torus keeps its shape under every chain of quarter turns: a point and
/// the axis, both turned by the same chain, are as far apart as before.
pub proof fn lemma_torus_distance_turned_by(
    p: SpecVec3,
    t: Vec2,
    axis: SpecVec3,
    qs: Seq<QuarterTurn>,
)
    requires
        p.has_room(magnitude(t.x as int)),
    ensures
        torus_distance(p.turned_by(qs), t, axis.turned_by(qs)) == torus_distance(p, t, axis),
    decreases qs.len(),
{
    if qs.len() > 0 {
        lemma_torus_distance_turned(p, t, axis, qs[0]);
        lemma_torus_distance_turned_by(
            p.turned(qs[0]),
            t,
            axis.turned(qs[0]),
            qs.subrange(1, qs.len() as int),
        );
    }
}

/// The torus keeps its shape when it is turned: a point and the axis, both
/// turned by the same quarter turn about a coordinate axis, are as far apart
/// as before. The point must leave room for the major radius within the
/// range of a scalar, so that nothing is clamped on the way.
pub proof fn lemma_torus_distance_turned(p: SpecVec3, t: Vec2, axis: SpecVec3, q: QuarterTurn)
    requires
        p.has_room(magnitude(t.x as int)),
    ensures
        ring_point(p.turned(q), t.x as int, axis.turned(q)) == ring_point(
            p,
            t.x as int,
            axis,
        ).turned(q),
        torus_distance(p.turned(q), t, axis.turned(q)) == torus_distance(p, t, axis),
{
    let r = t.x as int;
    lemma_turned_len(axis, q);
    lemma_turned_norm(axis, q);
    let a = steady_axis(axis);
    assert(steady_axis(axis.turned(q)) == a.turned(q));
    lemma_turned_across(p, a, q);
    let v = across(p, a);
    lemma_turned_len(v, q);
    let m = floor_sqrt(v.norm_sq()) as int;
    if m > 0 {
        lemma_ring_part(v, r, v.x);
        lemma_ring_part(v, r, v.y);
        lemma_ring_part(v, r, v.z);
    }
    let ring = ring_from(p, r, a);
    assert(ring_from(p.turned(q), r, a.turned(q)) == ring.turned(q));
    assert(ring.turned(q).sub(p.turned(q)) == ring.sub(p).turned(q));
    lemma_turned_len(ring.sub(p), q);
}

/// The part of a point across an axis turns with the two.
pub proof fn lemma_turned_across(p: SpecVec3, a: SpecVec3, q: QuarterTurn)
    ensures
        across(p.turned(q), a.turned(q)) == across(p, a).turned(q),
{
    lemma_turned_len(a, q);
    let a2 = a.norm_sq() as int;
    let h = inner(p, a);
    assert((-p.x) * (-a.x) == p.x * a.x) by (nonlinear_arith);
    assert((-p.y) * (-a.y) == p.y * a.y) by (nonlinear_arith);
    assert((-p.z) * (-a.z) == p.z * a.z) by (nonlinear_arith);
    assert((-p.x) * a2 - (-a.x) * h == -(p.x * a2 - a.x * h)) by (nonlinear_arith);
    assert((-p.y) * a2 - (-a.y) * h == -(p.y * a2 - a.y * h)) by (nonlinear_arith);
    assert((-p.z) * a2 - (-a.z) * h == -(p.z * a2 - a.z * h)) by (nonlinear_arith);
    lemma_quotient_negated(p.x * a2 - a.x * h, ONE as int);
    lemma_quotient_negated(p.y * a2 - a.y * h, ONE as int);
    lemma_quotient_negated(p.z * a2 - a.z * h, ONE as int);
}

/// A turn keeps the length of a vector.
pub proof fn lemma_turned_len(v: SpecVec3, q: QuarterTurn)
    ensures
        v.turned(q).norm_sq() == v.norm_sq(),
        v.turned(q).len() == v.len(),
        v.turned(q).fine_len() == v.fine_len(),
{
    assert((-v.x) * (-v.x) == v.x * v.x) by (nonlinear_arith);
    assert((-v.y) * (-v.y) == v.y * v.y) by (nonlinear_arith);
    assert((-v.z) * (-v.z) == v.z * v.z) by (nonlinear_arith);
}

/// The unit vector of a turned vector is the turned unit vector.
pub proof fn lemma_turned_norm(v: SpecVec3, q: QuarterTurn)
    ensures
        v.turned(q).norm() == v.norm().turned(q),
{
    lemma_turned_len(v, q);
    if v.norm_sq() > 0 {
        lemma_fine_len_dominates(v);
        let m = v.fine_len() as int;
        assert((-v.x) * ONE * PRECISION == -(v.x * ONE * PRECISION)) by (nonlinear_arith);
        assert((-v.y) * ONE * PRECISION == -(v.y * ONE * PRECISION)) by (nonlinear_arith);
        assert((-v.z) * ONE * PRECISION == -(v.z * ONE * PRECISION)) by (nonlinear_arith);
        lemma_quotient_negated(v.x * ONE * PRECISION, m);
        lemma_quotient_negated(v.y * ONE * PRECISION, m);
        lemma_quotient_negated(v.z * ONE * PRECISION, m);
    }
}

} // verus!
