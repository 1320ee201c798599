//! Rays: an origin, a direction, and parametric point evaluation.

use vstd::prelude::*;
use crate::fx::SCALE;
use crate::fx::abs_int;
use crate::fx::fx_mul;
use crate::fx::fx_mul_i64;
use crate::fx::lemma_abs_mul_le;
use crate::fx::lemma_trunc_div_abs_bound;
use crate::vec3::Vec3;

verus! {

/// Magnitude bound on a ray origin's components: ten thousand world units.
pub const ORIGIN_BOUND: i64 = 10_000_000_000;

/// Magnitude bound on a ray direction's components: ten world units.
pub const DIR_BOUND: i64 = 10_000_000;

/// Largest parametric distance the hit search supports: one million units,
/// standing in for an unbounded search along the ray.
pub const T_MAX: i64 = 1_000_000_000_000;

/// Smallest accepted hit distance: 0.001 units, which discards
/// near-degenerate self-intersections of bounce rays.
pub const T_MIN: i64 = 1_000;

/// Magnitude bound on the components of any point a supported ray can reach:
/// `ORIGIN_BOUND` plus `T_MAX * DIR_BOUND / SCALE`.
pub const POINT_BOUND: i64 = 10_010_000_000_000;

#[derive(Clone, Copy, PartialEq, Eq, Structural, Debug)]
pub struct Ray {
    pub orig: Vec3,
    pub dir: Vec3,
}

impl Ray {
    /// A well-formed ray: origin and direction within the supported volume.
    pub open spec fn wf(self) -> bool {
        abs_int(self.orig.x as int) <= ORIGIN_BOUND as int && abs_int(self.orig.y as int)
            <= ORIGIN_BOUND as int && abs_int(self.orig.z as int) <= ORIGIN_BOUND as int && abs_int(
            self.dir.x as int,
        ) <= DIR_BOUND as int && abs_int(self.dir.y as int) <= DIR_BOUND as int && abs_int(
            self.dir.z as int,
        ) <= DIR_BOUND as int
    }

    /// The point `origin + t * direction`, componentwise over the fixed-point
    /// integers.
    pub open spec fn spec_at(self, t: int) -> (int, int, int) {
        (
            self.orig.x + fx_mul(t, self.dir.x as int),
            self.orig.y + fx_mul(t, self.dir.y as int),
            self.orig.z + fx_mul(t, self.dir.z as int),
        )
    }

    pub fn new(origin: Vec3, direction: Vec3) -> (r: Ray)
        ensures
            r.orig == origin,
            r.dir == direction,
    {
        Ray { orig: origin, dir: direction }
    }

    pub fn origin(&self) -> (r: Vec3)
        ensures
            r == self.orig,
    {
        self.orig
    }

    pub fn direction(&self) -> (r: Vec3)
        ensures
            r == self.dir,
    {
        self.dir
    }

    /// Evaluates the ray at parameter `t`: `origin + t * direction`.
    pub fn at(&self, t: i64) -> (p: Vec3)
        requires
            self.wf(),
            abs_int(t as int) <= T_MAX as int,
        ensures
            p.x as int == self.spec_at(t as int).0,
            p.y as int == self.spec_at(t as int).1,
            p.z as int == self.spec_at(t as int).2,
            abs_int(p.x as int) <= POINT_BOUND as int,
            abs_int(p.y as int) <= POINT_BOUND as int,
            abs_int(p.z as int) <= POINT_BOUND as int,
    {
        proof {
            lemma_at_bounds(*self, t as int);
        }
        Vec3 {
            x: self.orig.x + fx_mul_i64(t, self.dir.x),
            y: self.orig.y + fx_mul_i64(t, self.dir.y),
            z: self.orig.z + fx_mul_i64(t, self.dir.z),
        }
    }
}

/// Any point a well-formed ray reaches within the supported parameter range
/// has components bounded by `POINT_BOUND`.
pub proof fn lemma_at_bounds(ray: Ray, t: int)
    requires
        ray.wf(),
        abs_int(t) <= T_MAX as int,
    ensures
        abs_int(fx_mul(t, ray.dir.x as int)) <= 10_000_000_000_000,
        abs_int(fx_mul(t, ray.dir.y as int)) <= 10_000_000_000_000,
        abs_int(fx_mul(t, ray.dir.z as int)) <= 10_000_000_000_000,
        abs_int(ray.spec_at(t).0) <= POINT_BOUND as int,
        abs_int(ray.spec_at(t).1) <= POINT_BOUND as int,
        abs_int(ray.spec_at(t).2) <= POINT_BOUND as int,
{
    lemma_abs_mul_le(t, ray.dir.x as int, T_MAX as int, DIR_BOUND as int);
    lemma_abs_mul_le(t, ray.dir.y as int, T_MAX as int, DIR_BOUND as int);
    lemma_abs_mul_le(t, ray.dir.z as int, T_MAX as int, DIR_BOUND as int);
    lemma_trunc_div_abs_bound(
        t * (ray.dir.x as int),
        SCALE as int,
        (T_MAX as int) * (DIR_BOUND as int),
    );
    lemma_trunc_div_abs_bound(
        t * (ray.dir.y as int),
        SCALE as int,
        (T_MAX as int) * (DIR_BOUND as int),
    );
    lemma_trunc_div_abs_bound(
        t * (ray.dir.z as int),
        SCALE as int,
        (T_MAX as int) * (DIR_BOUND as int),
    );
}

} // verus!
