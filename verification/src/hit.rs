//! The hit-testing protocol: hit records, the `Hit` capability, and the
//! scene (an ordered collection of spheres resolved to its nearest hit).

use vstd::prelude::*;
use crate::fx::abs_int;
use crate::fx::SCALE;
use crate::ray::Ray;
use crate::ray::T_MAX;
use crate::ray::POINT_BOUND;
use crate::vec3::Vec3;
use crate::sphere::Sphere;
use crate::sphere::lemma_sphere_hit_bounds;
use crate::sphere::lemma_sphere_hit_narrowing;

verus! {

/// A successful intersection: the hit point, the outward surface normal at
/// that point, and the parametric distance along the ray.
#[derive(Clone, Copy, PartialEq, Eq, Structural, Debug)]
pub struct HitRecord {
    pub p: Vec3,
    pub normal: Vec3,
    pub t: i64,
}

/// The machine-range guarantees every produced hit record obeys: the hit
/// point lies in the supported volume and the normal's components are within
/// twice the unit scale.
pub open spec fn record_in_bounds(h: HitRecord) -> bool {
    abs_int(h.p.x as int) <= POINT_BOUND as int && abs_int(h.p.y as int) <= POINT_BOUND as int
        && abs_int(h.p.z as int) <= POINT_BOUND as int && abs_int(h.normal.x as int) <= 2 * (
    SCALE as int) && abs_int(h.normal.y as int) <= 2 * (SCALE as int) && abs_int(
        h.normal.z as int,
    ) <= 2 * (SCALE as int)
}

/// The capability of being hit by a ray.
pub trait Hit: Sized {
    /// The instance's geometry is within the supported volume.
    spec fn wf(&self) -> bool;

    /// The mathematical hit result: the nearest intersection with `ray` at a
    /// parametric distance strictly inside `(t_min, t_max)`, or `None` when
    /// there is none in range.
    spec fn spec_hit(&self, ray: Ray, t_min: i64, t_max: i64) -> Option<HitRecord>;

    /// Intersects `ray` with this object over the open interval
    /// `(t_min, t_max)`.
    fn hit(&self, ray: &Ray, t_min: i64, t_max: i64) -> (r: Option<HitRecord>)
        requires
            self.wf(),
            ray.wf(),
            0 <= t_min,
            t_max <= T_MAX,
        ensures
            r == self.spec_hit(*ray, t_min, t_max),
    ;
}

/// The hit of the first `n` spheres of the scene, resolved the way the scan
/// does it: each accepted hit narrows the upper bound of the search, so a
/// later sphere only replaces the current best by hitting strictly nearer.
pub open spec fn spec_world_hit_prefix(
    spheres: Seq<Sphere>,
    ray: Ray,
    t_min: i64,
    t_max: i64,
    n: int,
) -> Option<HitRecord>
    decreases n,
{
    if n <= 0 {
        None
    } else {
        let prev = spec_world_hit_prefix(spheres, ray, t_min, t_max, n - 1);
        let bound = match prev {
            Some(h) => h.t,
            None => t_max,
        };
        match spheres[n - 1].spec_hit(ray, t_min, bound) {
            Some(h2) => Some(h2),
            None => prev,
        }
    }
}

/// An ordered scene of spheres; hit testing is a linear scan that keeps the
/// nearest accepted hit.
pub struct World {
    pub objects: Vec<Sphere>,
}

impl World {
    /// Every member's geometry is within the supported volume.
    pub open spec fn is_wf(self) -> bool {
        forall|i: int|
            0 <= i < self.objects@.len() ==> (#[trigger] self.objects@[i]).is_wf()
    }

    pub fn new() -> (w: World)
        ensures
            w.objects@.len() == 0,
            w.is_wf(),
    {
        World { objects: Vec::new() }
    }

    pub fn push(&mut self, s: Sphere)
        ensures
            final(self).objects@ == old(self).objects@.push(s),
    {
        self.objects.push(s);
    }

    /// Tests every member's geometry bounds at run time, for callers outside
    /// the verified world that must establish `is_wf` before tracing.
    pub fn check_wf(&self) -> (r: bool)
        ensures
            r == self.is_wf(),
    {
        let n: usize = self.objects.len();
        let mut i: usize = 0;
        while i < n
            invariant
                n == self.objects@.len(),
                i <= n,
                forall|k: int| 0 <= k < i ==> (#[trigger] self.objects@[k]).is_wf(),
            decreases n - i,
        {
            if !self.objects[i].check_wf() {
                return false;
            }
            i = i + 1;
        }
        true
    }
}

impl Hit for World {
    open spec fn wf(&self) -> bool {
        self.is_wf()
    }

    open spec fn spec_hit(&self, ray: Ray, t_min: i64, t_max: i64) -> Option<HitRecord> {
        spec_world_hit_prefix(self.objects@, ray, t_min, t_max, self.objects@.len() as int)
    }

    /// The linear scan over the members: each accepted hit narrows `t_max`,
    /// so the scan returns the nearest hit in range, or `None`.
    fn hit(&self, ray: &Ray, t_min: i64, t_max: i64) -> (r: Option<HitRecord>) {
        let mut best: Option<HitRecord> = None;
        let mut closest: i64 = t_max;
        let n: usize = self.objects.len();
        let mut i: usize = 0;
        while i < n
            invariant
                n == self.objects@.len(),
                i <= n,
                self.is_wf(),
                ray.wf(),
                0 <= t_min,
                t_max <= T_MAX,
                best == spec_world_hit_prefix(self.objects@, *ray, t_min, t_max, i as int),
                closest == match best {
                    Some(h) => h.t,
                    None => t_max,
                },
                best matches Some(h) ==> t_min < h.t < t_max && record_in_bounds(h),
            decreases n - i,
        {
            proof {
                lemma_sphere_hit_bounds(self.objects@[i as int], *ray, t_min, closest);
            }
            let found = self.objects[i].hit(ray, t_min, closest);
            match found {
                Some(h) => {
                    closest = h.t;
                    best = Some(h);
                },
                None => {},
            }
            i = i + 1;
        }
        best
    }
}

/// Every hit the scene reports lies strictly inside the requested interval
/// and within the machine-range bounds of `record_in_bounds`.
pub proof fn lemma_world_prefix_bounds(
    spheres: Seq<Sphere>,
    ray: Ray,
    t_min: i64,
    t_max: i64,
    n: int,
)
    requires
        forall|i: int| 0 <= i < spheres.len() ==> (#[trigger] spheres[i]).is_wf(),
        ray.wf(),
        0 <= t_min,
        t_max <= T_MAX,
        0 <= n <= spheres.len(),
    ensures
        spec_world_hit_prefix(spheres, ray, t_min, t_max, n) matches Some(h) ==> t_min < h.t
            < t_max && record_in_bounds(h),
    decreases n,
{
    if n > 0 {
        lemma_world_prefix_bounds(spheres, ray, t_min, t_max, n - 1);
        let prev = spec_world_hit_prefix(spheres, ray, t_min, t_max, n - 1);
        let bound = match prev {
            Some(h) => h.t,
            None => t_max,
        };
        lemma_sphere_hit_bounds(spheres[n - 1], ray, t_min, bound);
    }
}

/// The scan's result over the first `n` spheres is the nearest hit among
/// them: it beats (or matches) every member's own hit over the full
/// interval, and it is `None` only when no member hits at all.
proof fn lemma_world_prefix_nearest(
    spheres: Seq<Sphere>,
    ray: Ray,
    t_min: i64,
    t_max: i64,
    n: int,
    i: int,
)
    requires
        forall|k: int| 0 <= k < spheres.len() ==> (#[trigger] spheres[k]).is_wf(),
        ray.wf(),
        0 <= t_min,
        t_max <= T_MAX,
        0 <= i < n <= spheres.len(),
    ensures
        spec_world_hit_prefix(spheres, ray, t_min, t_max, n) matches Some(h) ==> (spheres[
            i
        ].spec_hit(ray, t_min, t_max) matches Some(hi) ==> h.t <= hi.t),
        spec_world_hit_prefix(spheres, ray, t_min, t_max, n) is None ==> spheres[i].spec_hit(
            ray,
            t_min,
            t_max,
        ) is None,
    decreases n,
{
    lemma_world_prefix_bounds(spheres, ray, t_min, t_max, n - 1);
    let prev = spec_world_hit_prefix(spheres, ray, t_min, t_max, n - 1);
    let bound = match prev {
        Some(h) => h.t,
        None => t_max,
    };
    lemma_sphere_hit_narrowing(spheres[n - 1], ray, t_min, bound, t_max);
    lemma_sphere_hit_bounds(spheres[n - 1], ray, t_min, bound);
    if i < n - 1 {
        lemma_world_prefix_nearest(spheres, ray, t_min, t_max, n - 1, i);
    }
}

/// Law: the scene's hit is the nearest member hit in range. When the scene
/// reports a record, no member's own hit over the same interval is nearer;
/// when it reports none, no member hits within the interval.
pub proof fn lemma_world_hit_nearest(w: World, ray: Ray, t_min: i64, t_max: i64, i: int)
    requires
        w.is_wf(),
        ray.wf(),
        0 <= t_min,
        t_max <= T_MAX,
        0 <= i < w.objects@.len(),
    ensures
        w.spec_hit(ray, t_min, t_max) matches Some(h) ==> (w.objects@[i].spec_hit(
            ray,
            t_min,
            t_max,
        ) matches Some(hi) ==> h.t <= hi.t),
        w.spec_hit(ray, t_min, t_max) is None ==> w.objects@[i].spec_hit(ray, t_min, t_max)
            is None,
{
    lemma_world_prefix_nearest(w.objects@, ray, t_min, t_max, w.objects@.len() as int, i);
}

/// The scene-level form of `lemma_world_prefix_bounds`.
pub proof fn lemma_world_hit_bounds(w: World, ray: Ray, t_min: i64, t_max: i64)
    requires
        w.is_wf(),
        ray.wf(),
        0 <= t_min,
        t_max <= T_MAX,
    ensures
        w.spec_hit(ray, t_min, t_max) matches Some(h) ==> t_min < h.t < t_max
            && record_in_bounds(h),
{
    lemma_world_prefix_bounds(w.objects@, ray, t_min, t_max, w.objects@.len() as int);
}

} // verus!
