//! Spheres and the analytic ray–sphere intersection.
//!
//! The hit test solves the quadratic obtained by substituting the ray's
//! parametrization into the sphere's implicit equation, entirely in exact
//! `i128` arithmetic over the fixed-point grid, and reports the nearest root
//! strictly inside the requested interval.

use vstd::prelude::*;
use crate::fx::SCALE;
use crate::fx::abs_int;
use crate::fx::trunc_div;
use crate::fx::clamp_int;
use crate::fx::sqrt_floor;
use crate::fx::trunc_div_i128;
use crate::fx::isqrt_u128;
use crate::fx::lemma_abs_mul_le;
use crate::fx::lemma_trunc_div_abs_bound;
use crate::fx::lemma_sqrt_floor_is;
use crate::fx::lemma_sqrt_floor_exists;
use crate::fx::lemma_trunc_div_monotone;
use vstd::arithmetic::div_mod::lemma_div_multiples_vanish;
use crate::ray::Ray;
use crate::ray::T_MAX;
use crate::ray::lemma_at_bounds;
use crate::vec3::Vec3;
use crate::vec3::lemma_square_nonneg;
use crate::vec3::lemma_normalise_component_brackets;
use crate::hit::Hit;
use crate::hit::HitRecord;
use crate::hit::record_in_bounds;

verus! {

/// Magnitude bound on a sphere centre's components: one thousand world units.
pub const CENTRE_BOUND: i64 = 1_000_000_000;

/// Largest supported radius: one thousand world units. The smallest is one
/// fixed-point step; a non-positive radius is degenerate geometry.
pub const RADIUS_MAX: i64 = 1_000_000_000;

#[derive(Clone, Copy, PartialEq, Eq, Structural, Debug)]
pub struct Sphere {
    pub centre: Vec3,
    pub radius: i64,
}

impl Sphere {
    /// Geometry within the supported volume: centre components bounded and a
    /// positive, bounded radius.
    pub open spec fn is_wf(self) -> bool {
        abs_int(self.centre.x as int) <= CENTRE_BOUND as int && abs_int(self.centre.y as int)
            <= CENTRE_BOUND as int && abs_int(self.centre.z as int) <= CENTRE_BOUND as int && 1
            <= self.radius <= RADIUS_MAX
    }

    /// The vector from the sphere's centre to the ray's origin.
    pub open spec fn spec_oc(self, ray: Ray) -> (int, int, int) {
        (
            ray.orig.x - self.centre.x,
            ray.orig.y - self.centre.y,
            ray.orig.z - self.centre.z,
        )
    }

    /// The quadratic's leading coefficient: the raw squared norm of the
    /// direction (at scale `SCALE * SCALE`).
    pub open spec fn spec_a(self, ray: Ray) -> int {
        ray.dir.raw_norm2()
    }

    /// Half the quadratic's linear coefficient: the raw dot product of `oc`
    /// and the direction.
    pub open spec fn spec_half_b(self, ray: Ray) -> int {
        let oc = self.spec_oc(ray);
        oc.0 * (ray.dir.x as int) + oc.1 * (ray.dir.y as int) + oc.2 * (ray.dir.z as int)
    }

    /// The quadratic's constant coefficient: `oc . oc - radius^2`, raw.
    pub open spec fn spec_c(self, ray: Ray) -> int {
        let oc = self.spec_oc(ray);
        oc.0 * oc.0 + oc.1 * oc.1 + oc.2 * oc.2 - (self.radius as int) * (self.radius as int)
    }

    /// The discriminant `half_b^2 - a * c`, raw (at scale `SCALE^4`).
    pub open spec fn spec_disc(self, ray: Ray) -> int {
        self.spec_half_b(ray) * self.spec_half_b(ray) - self.spec_a(ray) * self.spec_c(ray)
    }

    /// The smaller root `(-half_b - sqrt(disc)) / a`, as a fixed-point value.
    pub open spec fn spec_near_root(self, ray: Ray) -> int {
        trunc_div(
            (-self.spec_half_b(ray) - sqrt_floor(self.spec_disc(ray))) * (SCALE as int),
            self.spec_a(ray),
        )
    }

    /// The larger root `(-half_b + sqrt(disc)) / a`, as a fixed-point value.
    pub open spec fn spec_far_root(self, ray: Ray) -> int {
        trunc_div(
            (-self.spec_half_b(ray) + sqrt_floor(self.spec_disc(ray))) * (SCALE as int),
            self.spec_a(ray),
        )
    }

    /// The record for a hit at parameter `t`: the hit point, and the outward
    /// normal `(point - centre) / radius`. The normal's components are
    /// clamped to twice the unit scale, which keeps the stored value inside
    /// machine range for every input. For geometry well clear of the
    /// fixed-point resolution floor the computed normal is within rounding of
    /// unit length and the clamp does not engage; for radii near one
    /// fixed-point step the quotient is coarse and the clamp can bite.
    pub open spec fn spec_record(self, ray: Ray, t: int) -> HitRecord {
        let p = ray.spec_at(t);
        HitRecord {
            p: Vec3 { x: p.0 as i64, y: p.1 as i64, z: p.2 as i64 },
            normal: Vec3 {
                x: clamp_int(
                    trunc_div((p.0 - self.centre.x) * (SCALE as int), self.radius as int),
                    -2 * (SCALE as int),
                    2 * (SCALE as int),
                ) as i64,
                y: clamp_int(
                    trunc_div((p.1 - self.centre.y) * (SCALE as int), self.radius as int),
                    -2 * (SCALE as int),
                    2 * (SCALE as int),
                ) as i64,
                z: clamp_int(
                    trunc_div((p.2 - self.centre.z) * (SCALE as int), self.radius as int),
                    -2 * (SCALE as int),
                    2 * (SCALE as int),
                ) as i64,
            },
            t: t as i64,
        }
    }

    /// Tests the geometry bounds at run time, for callers outside the
    /// verified world that must establish `is_wf` before tracing.
    pub fn check_wf(&self) -> (r: bool)
        ensures
            r == self.is_wf(),
    {
        -CENTRE_BOUND <= self.centre.x && self.centre.x <= CENTRE_BOUND && -CENTRE_BOUND
            <= self.centre.y && self.centre.y <= CENTRE_BOUND && -CENTRE_BOUND <= self.centre.z
            && self.centre.z <= CENTRE_BOUND && 1 <= self.radius && self.radius <= RADIUS_MAX
    }

    /// The squared distance from this sphere's centre to the point the ray
    /// reaches at parameter `t` (raw, at scale `SCALE * SCALE`).
    pub open spec fn spec_dist2(self, ray: Ray, t: int) -> int {
        let p = ray.spec_at(t);
        (p.0 - self.centre.x) * (p.0 - self.centre.x) + (p.1 - self.centre.y) * (p.1
            - self.centre.y) + (p.2 - self.centre.z) * (p.2 - self.centre.z)
    }

    pub fn new(centre: Vec3, radius: i64) -> (s: Sphere)
        ensures
            s.centre == centre,
            s.radius == radius,
    {
        Sphere { centre, radius }
    }

    /// Builds the hit record for parameter `t`.
    fn make_record(&self, ray: &Ray, t: i64) -> (h: HitRecord)
        requires
            self.is_wf(),
            ray.wf(),
            0 <= t <= T_MAX,
        ensures
            h == self.spec_record(*ray, t as int),
    {
        let p: Vec3 = ray.at(t);
        proof {
            lemma_at_bounds(*ray, t as int);
        }
        let nx: i64 = self.normal_component(p.x, self.centre.x);
        let ny: i64 = self.normal_component(p.y, self.centre.y);
        let nz: i64 = self.normal_component(p.z, self.centre.z);
        HitRecord { p, normal: Vec3 { x: nx, y: ny, z: nz }, t }
    }

    /// One component of the outward normal: `(p - c) / radius` in fixed
    /// point, clamped to twice the unit scale.
    fn normal_component(&self, p: i64, c: i64) -> (n: i64)
        requires
            1 <= self.radius,
            abs_int(p as int) <= 11_000_000_000_000,
            abs_int(c as int) <= CENTRE_BOUND as int,
        ensures
            n as int == clamp_int(
                trunc_div(((p - c) as int) * (SCALE as int), self.radius as int),
                -2 * (SCALE as int),
                2 * (SCALE as int),
            ),
    {
        let d: i64 = p - c;
        proof {
            lemma_abs_mul_le(d as int, SCALE as int, 11_001_000_000_000, SCALE as int);
        }
        let prod: i128 = (d as i128) * (SCALE as i128);
        let q: i128 = trunc_div_i128(prod, self.radius as i128);
        if q > 2_000_000 {
            2_000_000
        } else if q < -2_000_000 {
            -2_000_000
        } else {
            q as i64
        }
    }
}

impl Hit for Sphere {
    open spec fn wf(&self) -> bool {
        self.is_wf()
    }

    /// The nearest root of the intersection quadratic strictly inside
    /// `(t_min, t_max)`; the farther root if only that one is in range; and
    /// no hit when the discriminant is negative, when neither root is in
    /// range, or when the direction is degenerate (zero).
    open spec fn spec_hit(&self, ray: Ray, t_min: i64, t_max: i64) -> Option<HitRecord> {
        if self.spec_a(ray) == 0 {
            None
        } else if self.spec_disc(ray) < 0 {
            None
        } else if t_min < self.spec_near_root(ray) < t_max {
            Some(self.spec_record(ray, self.spec_near_root(ray)))
        } else if t_min < self.spec_far_root(ray) < t_max {
            Some(self.spec_record(ray, self.spec_far_root(ray)))
        } else {
            None
        }
    }

    fn hit(&self, ray: &Ray, t_min: i64, t_max: i64) -> (r: Option<HitRecord>) {
        let dx: i64 = ray.dir.x;
        let dy: i64 = ray.dir.y;
        let dz: i64 = ray.dir.z;
        let ocx: i64 = ray.orig.x - self.centre.x;
        let ocy: i64 = ray.orig.y - self.centre.y;
        let ocz: i64 = ray.orig.z - self.centre.z;
        proof {
            lemma_abs_mul_le(dx as int, dx as int, 10_000_000, 10_000_000);
            lemma_abs_mul_le(dy as int, dy as int, 10_000_000, 10_000_000);
            lemma_abs_mul_le(dz as int, dz as int, 10_000_000, 10_000_000);
            lemma_abs_mul_le(ocx as int, dx as int, 11_000_000_000, 10_000_000);
            lemma_abs_mul_le(ocy as int, dy as int, 11_000_000_000, 10_000_000);
            lemma_abs_mul_le(ocz as int, dz as int, 11_000_000_000, 10_000_000);
            lemma_abs_mul_le(ocx as int, ocx as int, 11_000_000_000, 11_000_000_000);
            lemma_abs_mul_le(ocy as int, ocy as int, 11_000_000_000, 11_000_000_000);
            lemma_abs_mul_le(ocz as int, ocz as int, 11_000_000_000, 11_000_000_000);
            lemma_abs_mul_le(
                self.radius as int,
                self.radius as int,
                RADIUS_MAX as int,
                RADIUS_MAX as int,
            );
        }
        let a: i64 = dx * dx + dy * dy + dz * dz;
        let half_b: i64 = ocx * dx + ocy * dy + ocz * dz;
        let c_val: i128 = (ocx as i128) * (ocx as i128) + (ocy as i128) * (ocy as i128) + (
        ocz as i128) * (ocz as i128) - (self.radius as i128) * (self.radius as i128);
        if a == 0 {
            return None;
        }
        proof {
            lemma_abs_mul_le(
                half_b as int,
                half_b as int,
                330_000_000_000_000_000,
                330_000_000_000_000_000,
            );
            lemma_abs_mul_le(a as int, c_val as int, 300_000_000_000_000, 364_000_000_000_000_000_000);
        }
        let disc: i128 = (half_b as i128) * (half_b as i128) - (a as i128) * c_val;
        if disc < 0 {
            return None;
        }
        let sq: u64 = isqrt_u128(disc as u128);
        proof {
            lemma_sqrt_floor_is(disc as int, sq as int);
            assert(sq as int <= 500_000_000_000_000_000) by (nonlinear_arith)
                requires
                    0 <= sq as int,
                    (sq as int) * (sq as int) <= 220_000_000_000_000_000_000_000_000_000_000_000,
            ;
        }
        let neg_hb: i128 = -(half_b as i128);
        let num1: i128 = neg_hb - (sq as i128);
        proof {
            lemma_abs_mul_le(num1 as int, SCALE as int, 830_000_000_000_000_000, SCALE as int);
        }
        let t1s: i128 = num1 * (SCALE as i128);
        let t1: i128 = trunc_div_i128(t1s, a as i128);
        if (t_min as i128) < t1 && t1 < (t_max as i128) {
            let h = self.make_record(ray, t1 as i64);
            return Some(h);
        }
        let num2: i128 = neg_hb + (sq as i128);
        proof {
            lemma_abs_mul_le(num2 as int, SCALE as int, 830_000_000_000_000_000, SCALE as int);
        }
        let t2s: i128 = num2 * (SCALE as i128);
        let t2: i128 = trunc_div_i128(t2s, a as i128);
        if (t_min as i128) < t2 && t2 < (t_max as i128) {
            let h = self.make_record(ray, t2 as i64);
            return Some(h);
        }
        None
    }
}

/// The record built for an in-range parameter is within the machine-range
/// bounds of `record_in_bounds`, and keeps that parameter as its `t`.
proof fn lemma_record_bounds(s: Sphere, ray: Ray, t: int)
    requires
        s.is_wf(),
        ray.wf(),
        0 <= t <= T_MAX as int,
    ensures
        record_in_bounds(s.spec_record(ray, t)),
        s.spec_record(ray, t).t as int == t,
{
    lemma_at_bounds(ray, t);
}

/// Law-style bound for the reported surface normal: when the radius is at
/// least a hundredth of a unit and the hit point's squared distance from the
/// centre is within rounding of the squared radius, the clamp in
/// `spec_record` does not engage — the stored components are exactly the
/// quotients `(point - centre) * SCALE / radius` — and the stored normal has
/// near-unit norm. (How closely the truncated quadratic roots put the hit
/// point to the surface depends on the scene's scale; this bounds the normal
/// computation's own contribution.)
pub proof fn lemma_record_normal_near_unit(s: Sphere, ray: Ray, t: int)
    requires
        s.is_wf(),
        ray.wf(),
        0 <= t <= T_MAX as int,
        s.radius >= 10_000,
        (s.radius - 2) * (s.radius - 2) <= s.spec_dist2(ray, t),
        s.spec_dist2(ray, t) < (s.radius + 3) * (s.radius + 3),
    ensures
        s.spec_record(ray, t).normal.x as int == trunc_div(
            (ray.spec_at(t).0 - s.centre.x) * (SCALE as int),
            s.radius as int,
        ),
        s.spec_record(ray, t).normal.y as int == trunc_div(
            (ray.spec_at(t).1 - s.centre.y) * (SCALE as int),
            s.radius as int,
        ),
        s.spec_record(ray, t).normal.z as int == trunc_div(
            (ray.spec_at(t).2 - s.centre.z) * (SCALE as int),
            s.radius as int,
        ),
        SCALE as int - 402 <= sqrt_floor(s.spec_record(ray, t).normal.raw_norm2()) <= SCALE as int
            + 300,
{
    let sc = SCALE as int;
    let r = s.radius as int;
    let p = ray.spec_at(t);
    let d0 = p.0 - s.centre.x;
    let d1 = p.1 - s.centre.y;
    let d2c = p.2 - s.centre.z;
    let dist2 = s.spec_dist2(ray, t);
    assert(dist2 == d0 * d0 + d1 * d1 + d2c * d2c);
    lemma_square_nonneg(d0);
    lemma_square_nonneg(d1);
    lemma_square_nonneg(d2c);
    assert(abs_int(d0) <= r + 2) by (nonlinear_arith)
        requires
            d0 * d0 + d1 * d1 + d2c * d2c < (r + 3) * (r + 3),
            d1 * d1 >= 0,
            d2c * d2c >= 0,
            r >= 0,
    ;
    assert(abs_int(d1) <= r + 2) by (nonlinear_arith)
        requires
            d0 * d0 + d1 * d1 + d2c * d2c < (r + 3) * (r + 3),
            d0 * d0 >= 0,
            d2c * d2c >= 0,
            r >= 0,
    ;
    assert(abs_int(d2c) <= r + 2) by (nonlinear_arith)
        requires
            d0 * d0 + d1 * d1 + d2c * d2c < (r + 3) * (r + 3),
            d0 * d0 >= 0,
            d1 * d1 >= 0,
            r >= 0,
    ;
    lemma_normalise_component_brackets(d0, r);
    lemma_normalise_component_brackets(d1, r);
    lemma_normalise_component_brackets(d2c, r);
    let q0 = trunc_div(d0 * sc, r);
    let q1 = trunc_div(d1 * sc, r);
    let q2 = trunc_div(d2c * sc, r);
    let m0 = abs_int(q0);
    let m1 = abs_int(q1);
    let m2 = abs_int(q2);
    let a0 = abs_int(d0);
    let a1 = abs_int(d1);
    let a2 = abs_int(d2c);
    lemma_abs_mul_le(d0, sc, r + 2, sc);
    lemma_abs_mul_le(d1, sc, r + 2, sc);
    lemma_abs_mul_le(d2c, sc, r + 2, sc);
    assert((r + 2) * sc <= r * (sc + 200)) by (nonlinear_arith)
        requires
            r >= 10_000,
            sc == 1_000_000,
    ;
    lemma_trunc_div_abs_bound(d0 * sc, r, r * (sc + 200));
    lemma_trunc_div_abs_bound(d1 * sc, r, r * (sc + 200));
    lemma_trunc_div_abs_bound(d2c * sc, r, r * (sc + 200));
    lemma_div_multiples_vanish(sc + 200, r);
    assert(m0 <= sc + 200 && m1 <= sc + 200 && m2 <= sc + 200);
    let n = s.spec_record(ray, t).normal;
    assert(n.x as int == q0);
    assert(n.y as int == q1);
    assert(n.z as int == q2);
    lemma_square_nonneg(q0);
    lemma_square_nonneg(q1);
    lemma_square_nonneg(q2);
    let norm2 = n.raw_norm2();
    assert(norm2 == m0 * m0 + m1 * m1 + m2 * m2);
    lemma_sqrt_floor_exists(norm2);
    let nn = sqrt_floor(norm2);

    // Upper bound: each |q_i| * r <= a_i * sc, so norm2 * r^2 is at most
    // dist2 * sc^2, which sits below ((r + 3) * sc)^2.
    assert((m0 * r) * (m0 * r) <= (a0 * sc) * (a0 * sc)) by (nonlinear_arith)
        requires
            0 <= m0 * r <= a0 * sc,
    ;
    assert((m1 * r) * (m1 * r) <= (a1 * sc) * (a1 * sc)) by (nonlinear_arith)
        requires
            0 <= m1 * r <= a1 * sc,
    ;
    assert((m2 * r) * (m2 * r) <= (a2 * sc) * (a2 * sc)) by (nonlinear_arith)
        requires
            0 <= m2 * r <= a2 * sc,
    ;
    assert((m0 * m0) * (r * r) == (m0 * r) * (m0 * r)) by (nonlinear_arith);
    assert((m1 * m1) * (r * r) == (m1 * r) * (m1 * r)) by (nonlinear_arith);
    assert((m2 * m2) * (r * r) == (m2 * r) * (m2 * r)) by (nonlinear_arith);
    assert((a0 * a0) * (sc * sc) == (a0 * sc) * (a0 * sc)) by (nonlinear_arith);
    assert((a1 * a1) * (sc * sc) == (a1 * sc) * (a1 * sc)) by (nonlinear_arith);
    assert((a2 * a2) * (sc * sc) == (a2 * sc) * (a2 * sc)) by (nonlinear_arith);
    assert((m0 * m0 + m1 * m1 + m2 * m2) * (r * r) == (m0 * m0) * (r * r) + (m1 * m1) * (r * r) + (
    m2 * m2) * (r * r)) by (nonlinear_arith);
    assert((a0 * a0 + a1 * a1 + a2 * a2) * (sc * sc) == (a0 * a0) * (sc * sc) + (a1 * a1) * (sc
        * sc) + (a2 * a2) * (sc * sc)) by (nonlinear_arith);
    assert(norm2 * (r * r) <= dist2 * (sc * sc));
    assert(dist2 * (sc * sc) < ((r + 3) * sc) * ((r + 3) * sc)) by (nonlinear_arith)
        requires
            dist2 < (r + 3) * (r + 3),
            0 < sc,
    ;
    assert((nn * r) * (nn * r) <= norm2 * (r * r)) by (nonlinear_arith)
        requires
            nn * nn <= norm2,
            0 <= nn,
            0 <= r,
    ;
    assert(nn * r < (r + 3) * sc) by (nonlinear_arith)
        requires
            (nn * r) * (nn * r) < ((r + 3) * sc) * ((r + 3) * sc),
            0 <= nn * r,
            0 < (r + 3) * sc,
    ;
    if nn > sc + 300 {
        assert(nn * r >= (sc + 301) * r) by (nonlinear_arith)
            requires
                nn >= sc + 301,
                0 < r,
        ;
        assert((sc + 301) * r == sc * r + 301 * r) by (nonlinear_arith);
        assert((r + 3) * sc == r * sc + 3 * sc) by (nonlinear_arith);
        assert(sc * r == r * sc) by (nonlinear_arith);
        assert(301 * r >= 3_010_000);
        assert(false);
    }

    // Lower bound: each a_i * sc < (|q_i| + 1) * r, so dist2 * sc^2 is below
    // the expanded square sum, and dist2 >= (r - 2)^2 forces norm2 to stay
    // near sc^2.
    assert((a0 * sc) * (a0 * sc) < ((m0 + 1) * r) * ((m0 + 1) * r)) by (nonlinear_arith)
        requires
            0 <= a0 * sc < (m0 + 1) * r,
    ;
    assert((a1 * sc) * (a1 * sc) < ((m1 + 1) * r) * ((m1 + 1) * r)) by (nonlinear_arith)
        requires
            0 <= a1 * sc < (m1 + 1) * r,
    ;
    assert((a2 * sc) * (a2 * sc) < ((m2 + 1) * r) * ((m2 + 1) * r)) by (nonlinear_arith)
        requires
            0 <= a2 * sc < (m2 + 1) * r,
    ;
    let expanded = (m0 + 1) * (m0 + 1) + (m1 + 1) * (m1 + 1) + (m2 + 1) * (m2 + 1);
    assert(((m0 + 1) * (m0 + 1)) * (r * r) == ((m0 + 1) * r) * ((m0 + 1) * r))
        by (nonlinear_arith);
    assert(((m1 + 1) * (m1 + 1)) * (r * r) == ((m1 + 1) * r) * ((m1 + 1) * r))
        by (nonlinear_arith);
    assert(((m2 + 1) * (m2 + 1)) * (r * r) == ((m2 + 1) * r) * ((m2 + 1) * r))
        by (nonlinear_arith);
    assert(expanded * (r * r) == ((m0 + 1) * (m0 + 1)) * (r * r) + ((m1 + 1) * (m1 + 1)) * (r * r)
        + ((m2 + 1) * (m2 + 1)) * (r * r)) by (nonlinear_arith)
        requires
            expanded == (m0 + 1) * (m0 + 1) + (m1 + 1) * (m1 + 1) + (m2 + 1) * (m2 + 1),
    ;
    assert(dist2 * (sc * sc) < expanded * (r * r));
    assert(((r - 2) * (r - 2)) * (sc * sc) <= dist2 * (sc * sc)) by (nonlinear_arith)
        requires
            (r - 2) * (r - 2) <= dist2,
            0 <= sc * sc,
    ;
    assert(expanded == norm2 + 2 * (m0 + m1 + m2) + 3) by (nonlinear_arith)
        requires
            norm2 == m0 * m0 + m1 * m1 + m2 * m2,
            expanded == (m0 + 1) * (m0 + 1) + (m1 + 1) * (m1 + 1) + (m2 + 1) * (m2 + 1),
    ;
    if nn < sc - 402 {
        assert((nn + 1) * (nn + 1) <= (sc - 402) * (sc - 402)) by (nonlinear_arith)
            requires
                0 <= nn + 1 <= sc - 402,
        ;
        assert(expanded <= 999_202_162_807);
        assert(((r - 2) * (r - 2)) * (sc * sc) > expanded * (r * r)) by (nonlinear_arith)
            requires
                expanded <= 999_202_162_807,
                r >= 10_000,
                sc == 1_000_000,
        ;
        assert(false);
    }
}

/// Narrowing the search interval loses no nearer hit: a hit found under the
/// narrowed bound is exactly what the full interval reports, and when the
/// narrowed search finds nothing, whatever the full interval reports lies at
/// or beyond the bound.
pub proof fn lemma_sphere_hit_narrowing(s: Sphere, ray: Ray, t_min: i64, bound: i64, t_max: i64)
    requires
        bound <= t_max,
    ensures
        s.spec_hit(ray, t_min, bound) matches Some(h2) ==> s.spec_hit(ray, t_min, t_max) == Some(
            h2,
        ),
        s.spec_hit(ray, t_min, bound) is None ==> (s.spec_hit(ray, t_min, t_max) matches Some(h)
            ==> h.t >= bound),
{
    if s.spec_a(ray) != 0 && s.spec_disc(ray) >= 0 {
        lemma_square_nonneg(ray.dir.x as int);
        lemma_square_nonneg(ray.dir.y as int);
        lemma_square_nonneg(ray.dir.z as int);
        lemma_sqrt_floor_exists(s.spec_disc(ray));
        let sq = sqrt_floor(s.spec_disc(ray));
        let hb = s.spec_half_b(ray);
        lemma_trunc_div_monotone(
            (-hb - sq) * (SCALE as int),
            (-hb + sq) * (SCALE as int),
            s.spec_a(ray),
        );
        assert(s.spec_near_root(ray) <= s.spec_far_root(ray));
    }
}

/// Every hit a sphere reports lies strictly inside the requested interval
/// and within the machine-range bounds of `record_in_bounds`.
pub proof fn lemma_sphere_hit_bounds(s: Sphere, ray: Ray, t_min: i64, t_max: i64)
    requires
        s.is_wf(),
        ray.wf(),
        0 <= t_min,
        t_max <= T_MAX,
    ensures
        s.spec_hit(ray, t_min, t_max) matches Some(h) ==> t_min < h.t < t_max
            && record_in_bounds(h),
{
    if s.spec_a(ray) != 0 && s.spec_disc(ray) >= 0 {
        let near = s.spec_near_root(ray);
        let far = s.spec_far_root(ray);
        if t_min < near < t_max {
            lemma_record_bounds(s, ray, near);
        } else if t_min < far < t_max {
            lemma_record_bounds(s, ray, far);
        }
    }
}

} // verus!
