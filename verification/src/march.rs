//! Rays through the cells of the screen, and the march along a ray.

use vstd::prelude::*;
use crate::fixed::{clamped, quotient, saturate, ONE};
use crate::glyph::{min_column, ramp_step, RAMP_LEN};
use crate::sdf::{sd_torus, torus_distance, torus_gradient, torus_normal};
use crate::vector::{lemma_norm_keeps_forward, SpecVec3, Vec2, Vec3};

verus! {

/// The width of one character cell over its height is `PIXEL_ASPECT_NUM`
/// over `PIXEL_ASPECT_DEN`.
pub const PIXEL_ASPECT_NUM: i32 = 11;

/// See `PIXEL_ASPECT_NUM`.
pub const PIXEL_ASPECT_DEN: i32 = 24;

/// What is rendered: a torus, the camera's origin, the direction of the
/// light, and the least light of a lit cell.
#[derive(Clone, Copy, Debug, PartialEq, Eq, Structural)]
pub struct Scene {
    /// The major radius (`x`) and the tube radius (`y`).
    pub torus: Vec2,
    /// Where the camera stands.
    pub origin: Vec3,
    /// The direction of the light, at unit length.
    pub light: Vec3,
    /// The least light of a cell whose ray hits.
    pub min_col: i32,
}

/// How the march along one ray ended.
#[derive(Clone, Copy, Debug, PartialEq, Eq, Structural)]
pub enum March {
    /// The ray entered the torus after `steps` steps; `diff` is the light there.
    Hit { steps: u32, diff: i32 },
    /// The ray passed the far bound without entering the torus.
    Miss,
}

/// The horizontal screen coordinate of column `i`: from -1 at the left edge
/// to 1 at the right edge, times the aspect ratio of the grid and of a cell.
/// That is `(2 * i / width - 1) * (width / height) * (11 / 24)`, which is
/// `(2 * i - width) * 11 / (24 * height)`, rounded once.
pub open spec fn screen_x(i: int, width: int, height: int) -> int
    recommends
        height > 0,
{
    clamped(quotient((2 * i - width) * PIXEL_ASPECT_NUM * ONE, PIXEL_ASPECT_DEN * height))
}

/// The vertical screen coordinate of row `j`: from -1 at the top edge to 1
/// at the bottom edge.
pub open spec fn screen_y(j: int, height: int) -> int
    recommends
        height > 0,
{
    clamped(quotient((2 * j - height) * ONE, height))
}

/// The direction of the ray through the cell in column `i` and row `j`: one
/// unit forward and the screen coordinates sideways, at unit length.
pub open spec fn ray(i: int, j: int, width: int, height: int) -> SpecVec3
    recommends
        width > 0,
        height > 0,
{
    SpecVec3 { x: ONE as int, y: screen_x(i, width, height), z: screen_y(j, height) }.norm()
}

impl Scene {
    /// A scene can be marched when its tube radius, which is the step of the
    /// march, is positive.
    pub open spec fn valid(&self) -> bool {
        self.torus.y > 0
    }

    /// The distance at which the march gives up: twice the major radius
    /// beyond the camera.
    pub open spec fn far(&self) -> int {
        clamped(2 * self.torus.x - self.origin.x)
    }

    /// The point reached after `n` steps along `rd`.
    pub open spec fn sample(&self, rd: SpecVec3, n: nat) -> SpecVec3 {
        self.origin@.add(rd.mul(n * self.torus.y))
    }

    /// Whether step `n` is taken and finds the ray closer to the torus than
    /// the tube radius.
    pub open spec fn hits_at(&self, rd: SpecVec3, axis: SpecVec3, n: nat) -> bool {
        &&& n * self.torus.y < self.far()
        &&& torus_distance(self.sample(rd, n), self.torus, axis) < self.torus.y
    }

    /// Whether step `n` is the first that hits.
    pub open spec fn first_hit_at(&self, rd: SpecVec3, axis: SpecVec3, n: nat) -> bool {
        &&& self.hits_at(rd, axis, n)
        &&& forall|k: nat| k < n ==> !self.hits_at(rd, axis, k)
    }

    /// The light at the point reached after `n` steps: the part of the
    /// light's direction along the normal, and at least `min_col`.
    pub open spec fn light_at(&self, rd: SpecVec3, axis: SpecVec3, n: nat) -> int {
        let along = torus_gradient(self.sample(rd, n), self.torus, axis).dot(self.light@);
        if along < self.min_col {
            self.min_col as int
        } else {
            along
        }
    }

    /// The light that the ray `rd` brings back: that of its first hit, and
    /// none where it misses.
    pub open spec fn diffuse(&self, rd: SpecVec3, axis: SpecVec3) -> int {
        if exists|n: nat| self.first_hit_at(rd, axis, n) {
            self.light_at(rd, axis, choose|n: nat| self.first_hit_at(rd, axis, n))
        } else {
            0
        }
    }

    /// The torus of radii 1.2 and 0.3, seen from `(-2.5, 0, 0)` and lit
    /// along `(-1, -1, -1)`; a lit cell gets at least one step of the glyph
    /// ramp.
    pub fn standard() -> (s: Scene)
        ensures
            s.valid(),
            s.torus == (Vec2 { x: 1_200_000, y: 300_000 }),
            s.origin@ == (SpecVec3 { x: -2_500_000, y: 0, z: 0 }),
            s.light@ == (SpecVec3 { x: -ONE, y: -ONE, z: -ONE }).norm(),
            ONE - 4 <= s.light@.len() <= ONE,
            s.min_col == ramp_step(RAMP_LEN as int),
    {
        Scene {
            torus: Vec2::new(1_200_000, 300_000),
            origin: Vec3::new(-2_500_000, 0, 0),
            light: Vec3::new(-ONE, -ONE, -ONE).norm(),
            min_col: min_column(),
        }
    }
}

impl March {
    /// The light that the march brought back: none on a miss.
    pub open spec fn light(&self) -> int {
        match *self {
            March::Hit { steps, diff } => diff as int,
            March::Miss => 0,
        }
    }

    /// The light that the march brought back: none on a miss.
    pub fn diff(&self) -> (d: i32)
        ensures
            d == self.light(),
    {
        match *self {
            March::Hit { steps, diff } => diff,
            March::Miss => 0,
        }
    }

    /// Whether the march ended in the torus.
    pub fn is_hit(&self) -> (b: bool)
        ensures
            b == (*self is Hit),
    {
        match *self {
            March::Hit { steps, diff } => true,
            March::Miss => false,
        }
    }
}

/// The horizontal screen coordinate of column `i`.
fn ray_x(i: u16, width: u16, height: u16) -> (x: i32)
    requires
        height > 0,
    ensures
        x == screen_x(i as int, width as int, height as int),
{
    let num: i64 = (2 * (i as i64) - width as i64) * 11_000_000;
    saturate((num / (24 * (height as i64))) as i128)
}

/// The vertical screen coordinate of row `j`.
fn ray_y(j: u16, height: u16) -> (y: i32)
    requires
        height > 0,
    ensures
        y == screen_y(j as int, height as int),
{
    let num: i64 = (2 * (j as i64) - height as i64) * 1_000_000;
    saturate((num / (height as i64)) as i128)
}

/// The direction of the ray through the cell in column `i` and row `j` of a
/// grid of `width` by `height` cells.
pub fn ray_direction(i: u16, j: u16, width: u16, height: u16) -> (rd: Vec3)
    requires
        width > 0,
        height > 0,
    ensures
        rd@ == ray(i as int, j as int, width as int, height as int),
        rd.x > 0,
        ONE - 4 <= rd@.len() <= ONE,
{
    proof {
        lemma_ray_points_forward(i as int, j as int, width as int, height as int);
    }
    Vec3::new(ONE, ray_x(i, width, height), ray_y(j, height)).norm()
}

/// Marches from the camera along `rd` in steps of the tube radius, up to
/// the far bound, and stops at the first step that finds the ray closer to
/// the torus than the tube radius. There it returns the light.
pub fn march(scene: &Scene, rd: Vec3, axis: Vec3) -> (m: March)
    requires
        scene.valid(),
    ensures
        match m {
            March::Hit { steps, diff } => {
                &&& scene.first_hit_at(rd@, axis@, steps as nat)
                &&& diff == scene.light_at(rd@, axis@, steps as nat)
                &&& diff >= scene.min_col
            },
            March::Miss => forall|n: nat| !scene.hits_at(rd@, axis@, n),
        },
        m.light() == scene.diffuse(rd@, axis@),
{
    let step: i32 = scene.torus.y;
    let far: i32 = saturate(2 * (scene.torus.x as i128) - scene.origin.x as i128);
    let mut k: i64 = 0;
    let mut n: u32 = 0;
    while k < far as i64
        invariant
            scene.valid(),
            step == scene.torus.y,
            far == scene.far(),
            k == n * step,
            0 <= k,
            n <= k,
            forall|j: nat| j < n ==> !scene.hits_at(rd@, axis@, j),
        decreases far + step - k,
    {
        let p = scene.origin.add(rd.mul(k as i32));
        let d: i32 = sd_torus(p, scene.torus, axis);
        if d < step {
            let normal = torus_normal(p, scene.torus, axis);
            let along: i32 = normal.dot(scene.light);
            let diff: i32 = if along < scene.min_col {
                scene.min_col
            } else {
                along
            };
            proof {
                assert(scene.first_hit_at(rd@, axis@, n as nat));
                assert forall|m: nat| scene.first_hit_at(rd@, axis@, m) implies m == n by {
                    lemma_first_hit_unique(*scene, rd@, axis@, n as nat, m);
                }
            }
            return March::Hit { steps: n, diff };
        }
        assert((n + 1) * step == n * step + step && n + 1 <= (n + 1) * step) by (nonlinear_arith)
            requires
                step >= 1,
                n >= 0,
        ;
        k = k + step as i64;
        n = n + 1;
    }
    proof {
        assert forall|j: nat| !scene.hits_at(rd@, axis@, j) by {
            if j >= n {
                assert(j * step >= n * step) by (nonlinear_arith)
                    requires
                        j >= n,
                        step >= 1,
                ;
            }
        }
    }
    March::Miss
}

/// Every ray points forward: the first component of its direction is
/// positive.
pub proof fn lemma_ray_points_forward(i: int, j: int, width: int, height: int)
    ensures
        ray(i, j, width, height).x > 0,
{
    lemma_norm_keeps_forward(
        SpecVec3 { x: ONE as int, y: screen_x(i, width, height), z: screen_y(j, height) },
    );
}

/// Two steps that are both the first to hit are the same step.
pub proof fn lemma_first_hit_unique(scene: Scene, rd: SpecVec3, axis: SpecVec3, n: nat, m: nat)
    requires
        scene.first_hit_at(rd, axis, n),
        scene.first_hit_at(rd, axis, m),
    ensures
        n == m,
{
}

} // verus!
