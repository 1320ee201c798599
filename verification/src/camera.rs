//! The pinhole camera: fixed 16:9 aspect ratio, viewport height of two world
//! units, focal length of one world unit, placed at the world origin.

use vstd::prelude::*;
use crate::fx::SCALE;
use crate::fx::abs_int;
use crate::fx::fx_mul;
use crate::fx::fx_div;
use crate::fx::fx_mul_i64;
use crate::fx::fx_div_i64;
use crate::fx::lemma_abs_mul_le;
use crate::fx::lemma_trunc_div_exact;
use crate::fx::lemma_trunc_div_abs_bound;
use crate::fx::lemma_trunc_div_ordered_nonneg;
use crate::ray::Ray;
use crate::vec3::Vec3;
use crate::vec3::lemma_square_nonneg;

verus! {

/// Viewport height: two world units.
pub const VIEWPORT_HEIGHT: i64 = 2_000_000;

/// Focal length: one world unit.
pub const FOCAL_LENGTH: i64 = 1_000_000;

#[derive(Clone, Copy, PartialEq, Eq, Structural, Debug)]
pub struct Camera {
    pub origin: Vec3,
    pub lower_left_corner: Vec3,
    pub horizontal: Vec3,
    pub vertical: Vec3,
}

impl Camera {
    /// The viewport width: the 16:9 aspect ratio times the viewport height,
    /// computed in fixed point.
    pub open spec fn spec_viewport_width() -> int {
        fx_mul(fx_div(16 * (SCALE as int), 9 * (SCALE as int)), VIEWPORT_HEIGHT as int)
    }

    /// A camera exactly as construction sets it up: origin at zero, the
    /// horizontal and vertical viewport spans along the x and y axes, and the
    /// lower-left corner one focal length in front of the origin.
    pub open spec fn wf(self) -> bool {
        self.origin == (Vec3 { x: 0, y: 0, z: 0 }) && self.horizontal == (Vec3 {
            x: 3_555_554,
            y: 0,
            z: 0,
        }) && self.vertical == (Vec3 { x: 0, y: VIEWPORT_HEIGHT, z: 0 })
            && self.lower_left_corner == (Vec3 {
            x: -1_777_777i64,
            y: -1_000_000i64,
            z: -1_000_000i64,
        })
    }

    /// Builds the fixed camera.
    pub fn new() -> (c: Camera)
        ensures
            c.wf(),
            c.horizontal.x as int == Self::spec_viewport_width(),
    {
        proof {
            lemma_camera_constants();
        }
        let aspect: i64 = fx_div_i64(16 * SCALE, 9 * SCALE);
        let vw: i64 = fx_mul_i64(aspect, VIEWPORT_HEIGHT);
        let origin: Vec3 = Vec3::new(0, 0, 0);
        let horizontal: Vec3 = Vec3::new(vw, 0, 0);
        let vertical: Vec3 = Vec3::new(0, VIEWPORT_HEIGHT, 0);
        let half_h: Vec3 = horizontal.div(2 * SCALE);
        let half_v: Vec3 = vertical.div(2 * SCALE);
        let lower_left: Vec3 = origin.sub(half_h).sub(half_v).sub(
            Vec3::new(0, 0, FOCAL_LENGTH),
        );
        Camera { origin, lower_left_corner: lower_left, horizontal, vertical }
    }

    /// The ray from the camera origin through the image-plane point `(u, v)`,
    /// where `u` and `v` are normalised coordinates in fixed point (the unit
    /// interval, with headroom up to 2 for per-sample jitter at the border).
    pub fn get_ray(&self, u: i64, v: i64) -> (r: Ray)
        requires
            self.wf(),
            0 <= u <= 2 * SCALE,
            0 <= v <= 2 * SCALE,
        ensures
            r.orig == self.origin,
            r.dir.x as int == self.lower_left_corner.x + fx_mul(self.horizontal.x as int, u as int)
                + fx_mul(self.vertical.x as int, v as int) - self.origin.x,
            r.dir.y as int == self.lower_left_corner.y + fx_mul(self.horizontal.y as int, u as int)
                + fx_mul(self.vertical.y as int, v as int) - self.origin.y,
            r.dir.z as int == self.lower_left_corner.z + fx_mul(self.horizontal.z as int, u as int)
                + fx_mul(self.vertical.z as int, v as int) - self.origin.z,
            r.wf(),
            r.dir.z == -FOCAL_LENGTH,
            r.dir.raw_norm2() > 0,
    {
        proof {
            lemma_abs_mul_le(self.horizontal.x as int, u as int, 3_555_554, 2_000_000);
            lemma_trunc_div_abs_bound(
                (self.horizontal.x as int) * (u as int),
                SCALE as int,
                7_111_108_000_000,
            );
            lemma_trunc_div_ordered_nonneg(
                0,
                (self.horizontal.x as int) * (u as int),
                SCALE as int,
            );
            lemma_abs_mul_le(self.vertical.y as int, v as int, 2_000_000, 2_000_000);
            lemma_trunc_div_abs_bound(
                (self.vertical.y as int) * (v as int),
                SCALE as int,
                4_000_000_000_000,
            );
        }
        let hu: Vec3 = self.horizontal.mul(u);
        let hv: Vec3 = self.vertical.mul(v);
        let dir: Vec3 = self.lower_left_corner.add(hu).add(hv).sub(self.origin);
        proof {
            lemma_square_nonneg(dir.x as int);
            lemma_square_nonneg(dir.y as int);
            lemma_square_nonneg(dir.z as int);
        }
        Ray::new(self.origin, dir)
    }
}

/// The fixed-point values the camera's construction arithmetic works out to.
proof fn lemma_camera_constants()
    ensures
        fx_div(16 * (SCALE as int), 9 * (SCALE as int)) == 1_777_777,
        fx_mul(1_777_777, VIEWPORT_HEIGHT as int) == 3_555_554,
        fx_div(3_555_554, 2 * (SCALE as int)) == 1_777_777,
        fx_div(VIEWPORT_HEIGHT as int, 2 * (SCALE as int)) == 1_000_000,
        fx_div(0, 2 * (SCALE as int)) == 0,
{
    lemma_trunc_div_exact(16_000_000int * 1_000_000, 9_000_000int, 1_777_777int, 7_000_000int);
    lemma_trunc_div_exact(1_777_777int * 2_000_000, 1_000_000int, 3_555_554int, 0int);
    lemma_trunc_div_exact(3_555_554int * 1_000_000, 2_000_000int, 1_777_777int, 0int);
    lemma_trunc_div_exact(2_000_000int * 1_000_000, 2_000_000int, 1_000_000int, 0int);
    lemma_trunc_div_exact(0int, 2_000_000int, 0int, 0int);
}

} // verus!
