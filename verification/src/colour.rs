//! Colour resolution: the sky gradient and the recursive diffuse bounce.

use vstd::prelude::*;
use vstd::arithmetic::div_mod::lemma_div_is_ordered;
use vstd::arithmetic::div_mod::lemma_div_multiples_vanish;
use crate::fx::SCALE;
use crate::fx::FX_BOUND;
use crate::fx::abs_int;
use crate::fx::fx_mul;
use crate::fx::sqrt_floor;
use crate::fx::lemma_abs_mul_le;
use crate::fx::lemma_trunc_div_abs_bound;
use crate::fx::lemma_trunc_div_ordered_nonneg;
use crate::fx::lemma_sqrt_floor_exists;
use crate::fx::lemma_trunc_div_exact;
use crate::ray::Ray;
use crate::ray::ORIGIN_BOUND;
use crate::ray::DIR_BOUND;
use crate::ray::T_MIN;
use crate::ray::T_MAX;
use crate::vec3::Vec3;
use crate::vec3::lemma_square_nonneg;
use crate::vec3::lemma_component_le_length;
use crate::hit::Hit;
use crate::hit::World;
use crate::hit::lemma_world_hit_bounds;
use crate::sampler::Sampler;

verus! {

/// The fixed diffuse albedo: every bounce keeps half the gathered light.
pub const ALBEDO_HALF: i64 = 500_000;

/// The sky gradient for a direction: linear interpolation between white
/// `(1, 1, 1)` and sky blue `(0.5, 0.7, 1)`, driven by the normalised
/// direction's y component remapped from `[-1, 1]` to `[0, 1]`.
pub open spec fn spec_world_colour(dir: Vec3) -> (int, int, int) {
    let t = (dir.spec_normalise().1 + SCALE as int) / 2;
    (
        ((SCALE as int - t) * (SCALE as int) + t * 500_000) / (SCALE as int),
        ((SCALE as int - t) * (SCALE as int) + t * 700_000) / (SCALE as int),
        ((SCALE as int - t) * (SCALE as int) + t * (SCALE as int)) / (SCALE as int),
    )
}

/// One channel of the gradient: `(1 - t) * 1 + t * b`, in fixed point.
fn lerp_channel(t: i64, b: i64) -> (r: i64)
    requires
        0 <= t <= SCALE,
        0 <= b <= SCALE,
    ensures
        r as int == ((SCALE as int - t) * (SCALE as int) + t * b) / (SCALE as int),
        0 <= r <= SCALE,
{
    proof {
        lemma_abs_mul_le(t as int, b as int, SCALE as int, SCALE as int);
        assert(0 <= (t as int) * (b as int) && (t as int) * (b as int) <= (t as int) * (
        SCALE as int)) by (nonlinear_arith)
            requires
                0 <= t,
                0 <= b <= SCALE,
        ;
        assert((SCALE as int - t) * (SCALE as int) + (t as int) * (SCALE as int) == (SCALE as int)
            * (SCALE as int)) by (nonlinear_arith);
    }
    let num: i64 = (SCALE - t) * SCALE + t * b;
    proof {
        lemma_div_is_ordered(num as int, (SCALE as int) * (SCALE as int), SCALE as int);
        lemma_div_is_ordered(0, num as int, SCALE as int);
    }
    let r: i64 = ((num as u64) / (SCALE as u64)) as i64;
    r
}

/// The sky gradient colour of a ray that hits nothing.
pub fn world_colour(ray: &Ray) -> (c: Vec3)
    requires
        ray.wf(),
        ray.dir.raw_norm2() > 0,
    ensures
        c.x as int == spec_world_colour(ray.dir).0,
        c.y as int == spec_world_colour(ray.dir).1,
        c.z as int == spec_world_colour(ray.dir).2,
        0 <= c.x <= SCALE,
        0 <= c.y <= SCALE,
        0 <= c.z <= SCALE,
{
    let unit: Vec3 = ray.direction().normalise();
    let t: i64 = (((unit.y + SCALE) as u64) / 2) as i64;
    proof {
        lemma_div_is_ordered(unit.y + SCALE, 2 * (SCALE as int), 2);
        lemma_div_is_ordered(0, unit.y + SCALE, 2);
    }
    let cx: i64 = lerp_channel(t, 500_000);
    let cy: i64 = lerp_channel(t, 700_000);
    let cz: i64 = lerp_channel(t, 1_000_000);
    Vec3::new(cx, cy, cz)
}

/// True exactly when the direction is non-degenerate (non-zero).
fn dir_nonzero(d: Vec3) -> (r: bool)
    requires
        abs_int(d.x as int) <= DIR_BOUND as int,
        abs_int(d.y as int) <= DIR_BOUND as int,
        abs_int(d.z as int) <= DIR_BOUND as int,
    ensures
        r == (d.raw_norm2() > 0),
{
    proof {
        lemma_abs_mul_le(d.x as int, d.x as int, DIR_BOUND as int, DIR_BOUND as int);
        lemma_abs_mul_le(d.y as int, d.y as int, DIR_BOUND as int, DIR_BOUND as int);
        lemma_abs_mul_le(d.z as int, d.z as int, DIR_BOUND as int, DIR_BOUND as int);
        lemma_square_nonneg(d.x as int);
        lemma_square_nonneg(d.y as int);
        lemma_square_nonneg(d.z as int);
    }
    let s: i64 = d.x * d.x + d.y * d.y + d.z * d.z;
    s > 0
}

/// True exactly when the point can serve as a ray origin.
fn in_origin_volume(p: Vec3) -> (r: bool)
    ensures
        r == (abs_int(p.x as int) <= ORIGIN_BOUND as int && abs_int(p.y as int)
            <= ORIGIN_BOUND as int && abs_int(p.z as int) <= ORIGIN_BOUND as int),
{
    -ORIGIN_BOUND <= p.x && p.x <= ORIGIN_BOUND && -ORIGIN_BOUND <= p.y && p.y <= ORIGIN_BOUND
        && -ORIGIN_BOUND <= p.z && p.z <= ORIGIN_BOUND
}

/// `c` is exactly half of the unit-range colour `b`, componentwise in fixed
/// point.
pub open spec fn is_half_of(c: Vec3, b: Vec3) -> bool {
    0 <= b.x <= SCALE && 0 <= b.y <= SCALE && 0 <= b.z <= SCALE && c.x as int == fx_mul(
        b.x as int,
        ALBEDO_HALF as int,
    ) && c.y as int == fx_mul(b.y as int, ALBEDO_HALF as int) && c.z as int == fx_mul(
        b.z as int,
        ALBEDO_HALF as int,
    )
}

/// The colour gathered by a ray, with `depth` bounces of budget left.
///
/// A zero budget gathers no light (black). A hit spawns one diffuse bounce
/// toward `point + normal + a random in-sphere sample` and keeps half of what
/// the bounce gathers; a bounce whose origin would leave the supported volume
/// is treated as absorbed. A miss returns the sky gradient, or black for a
/// degenerate (zero) direction.
pub fn ray_colour(ray: &Ray, world: &World, depth: u64, sampler: &mut Sampler) -> (c: Vec3)
    requires
        ray.wf(),
        world.is_wf(),
    ensures
        0 <= c.x <= SCALE,
        0 <= c.y <= SCALE,
        0 <= c.z <= SCALE,
        depth == 0 ==> c == (Vec3 { x: 0, y: 0, z: 0 }),
        depth > 0 && world.spec_hit(*ray, T_MIN, T_MAX) is None && ray.dir.raw_norm2() > 0
            ==> c.x as int == spec_world_colour(ray.dir).0 && c.y as int == spec_world_colour(
            ray.dir,
        ).1 && c.z as int == spec_world_colour(ray.dir).2,
        depth > 0 && world.spec_hit(*ray, T_MIN, T_MAX) is None && ray.dir.raw_norm2() == 0 ==> c
            == (Vec3 { x: 0, y: 0, z: 0 }),
        depth > 0 && world.spec_hit(*ray, T_MIN, T_MAX) is Some ==> exists|b: Vec3|
            is_half_of(c, b),
        depth > 0 && world.spec_hit(*ray, T_MIN, T_MAX) is Some ==> 0 <= c.x <= ALBEDO_HALF && 0
            <= c.y <= ALBEDO_HALF && 0 <= c.z <= ALBEDO_HALF,
        depth == 1 && world.spec_hit(*ray, T_MIN, T_MAX) is Some ==> c == (Vec3 {
            x: 0,
            y: 0,
            z: 0,
        }),
    decreases depth,
{
    if depth == 0 {
        return Vec3::new(0, 0, 0);
    }
    proof {
        lemma_world_hit_bounds(*world, *ray, T_MIN, T_MAX);
        lemma_trunc_div_exact(0, SCALE as int, 0, 0);
    }
    let found = world.hit(ray, T_MIN, T_MAX);
    match found {
        Some(h) => {
            let scatter: Vec3 = Vec3::random_in_unit_sphere(sampler);
            let target: Vec3 = h.p.add(h.normal).add(scatter);
            let bounce_dir: Vec3 = target.sub(h.p);
            if in_origin_volume(h.p) {
                let bounce: Ray = Ray::new(h.p, bounce_dir);
                let child: Vec3 = ray_colour(&bounce, world, depth - 1, sampler);
                proof {
                    lemma_half_in_range(child.x as int);
                    lemma_half_in_range(child.y as int);
                    lemma_half_in_range(child.z as int);
                }
                let att: Vec3 = child.mul(ALBEDO_HALF);
                proof {
                    assert(is_half_of(att, child));
                }
                att
            } else {
                let black: Vec3 = Vec3::new(0, 0, 0);
                proof {
                    assert(is_half_of(black, black));
                }
                black
            }
        },
        None => {
            if dir_nonzero(ray.direction()) {
                world_colour(ray)
            } else {
                Vec3::new(0, 0, 0)
            }
        },
    }
}

/// Halving a colour channel keeps it within half the unit range.
proof fn lemma_half_in_range(c: int)
    requires
        0 <= c <= SCALE as int,
    ensures
        0 <= fx_mul(c, ALBEDO_HALF as int) <= ALBEDO_HALF as int,
        abs_int(c) <= FX_BOUND as int,
        abs_int(ALBEDO_HALF as int) <= FX_BOUND as int,
{
    lemma_trunc_div_ordered_nonneg(0, c * (ALBEDO_HALF as int), SCALE as int);
    lemma_trunc_div_abs_bound(
        c * (ALBEDO_HALF as int),
        SCALE as int,
        (SCALE as int) * (ALBEDO_HALF as int),
    );
    lemma_abs_mul_le(c, ALBEDO_HALF as int, SCALE as int, ALBEDO_HALF as int);
    lemma_div_multiples_vanish(ALBEDO_HALF as int, SCALE as int);
}

/// Law: on a total scene miss, the returned colour lies on the segment
/// between white `(1, 1, 1)` and sky blue `(0.5, 0.7, 1)`: each component
/// sits between the two endpoints' components.
pub proof fn lemma_sky_on_segment(dir: Vec3)
    requires
        dir.in_bounds(),
        dir.raw_norm2() > 0,
    ensures
        500_000 <= spec_world_colour(dir).0 <= 1_000_000,
        700_000 <= spec_world_colour(dir).1 <= 1_000_000,
        spec_world_colour(dir).2 == 1_000_000,
{
    lemma_square_nonneg(dir.x as int);
    lemma_square_nonneg(dir.y as int);
    lemma_square_nonneg(dir.z as int);
    lemma_sqrt_floor_exists(dir.raw_norm2());
    let len = sqrt_floor(dir.raw_norm2());
    if len < 1 {
        assert(dir.raw_norm2() < (len + 1) * (len + 1));
        assert((len + 1) * (len + 1) <= 1) by (nonlinear_arith)
            requires
                0 <= len < 1,
        ;
    }
    assert(len >= 1);
    lemma_component_le_length(dir.y as int, dir.raw_norm2(), len);
    lemma_abs_mul_le(dir.y as int, SCALE as int, len, SCALE as int);
    lemma_trunc_div_abs_bound((dir.y as int) * (SCALE as int), len, len * (SCALE as int));
    lemma_div_multiples_vanish(SCALE as int, len);
    let uy = dir.spec_normalise().1;
    assert(-(SCALE as int) <= uy <= SCALE as int);
    let t = (uy + SCALE as int) / 2;
    lemma_div_is_ordered(0, uy + SCALE as int, 2);
    lemma_div_is_ordered(uy + SCALE as int, 2 * (SCALE as int), 2);
    assert(0 <= t <= SCALE as int);
    lemma_sky_channel_between(t, 500_000);
    lemma_sky_channel_between(t, 700_000);
    lemma_sky_channel_between(t, 1_000_000);
    assert(((SCALE as int - t) * (SCALE as int) + t * (SCALE as int)) == (SCALE as int) * (
    SCALE as int)) by (nonlinear_arith);
    lemma_div_multiples_vanish(SCALE as int, SCALE as int);
}

/// One interpolated channel sits between its endpoints.
proof fn lemma_sky_channel_between(t: int, b: int)
    requires
        0 <= t <= SCALE as int,
        0 <= b <= SCALE as int,
    ensures
        b <= ((SCALE as int - t) * (SCALE as int) + t * b) / (SCALE as int) <= SCALE as int,
{
    let num = (SCALE as int - t) * (SCALE as int) + t * b;
    assert((SCALE as int - t) * b <= (SCALE as int - t) * (SCALE as int)) by (nonlinear_arith)
        requires
            0 <= t <= SCALE as int,
            0 <= b <= SCALE as int,
    ;
    assert((SCALE as int - t) * b + t * b == (SCALE as int) * b) by (nonlinear_arith);
    assert(t * b <= t * (SCALE as int)) by (nonlinear_arith)
        requires
            0 <= t,
            0 <= b <= SCALE as int,
    ;
    assert((SCALE as int - t) * (SCALE as int) + t * (SCALE as int) == (SCALE as int) * (
    SCALE as int)) by (nonlinear_arith);
    assert((SCALE as int) * b <= num && num <= (SCALE as int) * (SCALE as int));
    lemma_div_is_ordered((SCALE as int) * b, num, SCALE as int);
    lemma_div_is_ordered(num, (SCALE as int) * (SCALE as int), SCALE as int);
    lemma_div_multiples_vanish(b, SCALE as int);
    lemma_div_multiples_vanish(SCALE as int, SCALE as int);
}

} // verus!
