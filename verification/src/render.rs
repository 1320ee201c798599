//! The render loop: per-pixel Monte Carlo sampling, colour accumulation,
//! and conversion to the display pixel stream.

use vstd::prelude::*;
use vstd::arithmetic::div_mod::lemma_div_is_ordered;
use vstd::arithmetic::div_mod::lemma_div_multiples_vanish;
use crate::fx::SCALE;
use crate::vec3::Vec3;
use crate::vec3::lemma_display_channel_clamped;
use crate::fx::FX_BOUND;
use crate::fx::abs_int;
use crate::fx::is_sqrt_floor;
use crate::fx::lemma_sqrt_floor_is;
use crate::vec3::spec_display_channel;
use crate::vec3::lemma_display_channel_monotonic;
use crate::hit::Hit;
use crate::hit::World;
use crate::ray::T_MIN;
use crate::ray::T_MAX;
use crate::camera::Camera;
use crate::colour::ray_colour;
use crate::colour::lemma_sky_on_segment;
use crate::sampler::Sampler;

verus! {

/// One normalised image-plane coordinate: `(index + jitter) / (extent - 1)`,
/// in fixed point. A one-pixel extent divides by one instead, keeping the
/// coordinate meaningful for degenerate image sizes.
fn plane_coord(index: usize, extent: usize, jitter: i64) -> (u: i64)
    requires
        1 <= extent <= 65_536,
        index < extent,
        0 <= jitter < SCALE,
    ensures
        u as int == (index * (SCALE as int) + jitter) / (if extent == 1 {
            1int
        } else {
            extent - 1
        }),
        0 <= u <= 2 * SCALE,
{
    let denom: u64 = if extent > 1 {
        (extent - 1) as u64
    } else {
        1
    };
    proof {
        assert((index as int) * (SCALE as int) <= 65_535 * 1_000_000) by (nonlinear_arith)
            requires
                0 <= index < 65_536,
        ;
    }
    let numer: u64 = (index as u64) * (SCALE as u64) + (jitter as u64);
    proof {
        assert(numer as int <= (denom as int) * (2 * (SCALE as int))) by {
            if extent == 1 {
                assert(index == 0);
            }
        }
        lemma_div_is_ordered(numer as int, (denom as int) * (2 * (SCALE as int)), denom as int);
        lemma_div_multiples_vanish(2 * (SCALE as int), denom as int);
        lemma_div_is_ordered(0, numer as int, denom as int);
    }
    (numer / denom) as i64
}

/// Accumulates `samples` jittered rays through pixel `(i, j)` and returns the
/// averaged colour, each channel in the unit range. With a zero bounce
/// budget every sample is black, so the average is black.
fn sample_pixel(
    world: &World,
    camera: &Camera,
    i: usize,
    j: usize,
    width: usize,
    height: usize,
    samples: u32,
    max_depth: u64,
    sampler: &mut Sampler,
) -> (avg: Vec3)
    requires
        world.is_wf(),
        camera.wf(),
        1 <= width <= 65_536,
        1 <= height <= 65_536,
        i < width,
        j < height,
        1 <= samples <= 1_000_000,
    ensures
        0 <= avg.x <= SCALE,
        0 <= avg.y <= SCALE,
        0 <= avg.z <= SCALE,
        max_depth == 0 ==> avg == (Vec3 { x: 0, y: 0, z: 0 }),
        max_depth > 0 && world.objects@.len() == 0 ==> avg.z == SCALE && avg.x >= 500_000
            && avg.y >= 700_000,
{
    let mut sx: i64 = 0;
    let mut sy: i64 = 0;
    let mut sz: i64 = 0;
    let mut k: u32 = 0;
    while k < samples
        invariant
            world.is_wf(),
            camera.wf(),
            1 <= width <= 65_536,
            1 <= height <= 65_536,
            i < width,
            j < height,
            1 <= samples <= 1_000_000,
            k <= samples,
            0 <= sx <= (k as int) * (SCALE as int),
            0 <= sy <= (k as int) * (SCALE as int),
            0 <= sz <= (k as int) * (SCALE as int),
            max_depth == 0 ==> sx == 0 && sy == 0 && sz == 0,
            max_depth > 0 && world.objects@.len() == 0 ==> sz == (k as int) * (SCALE as int) && sx
                >= (k as int) * 500_000 && sy >= (k as int) * 700_000,
        decreases samples - k,
    {
        let ju: i64 = sampler.next_in(0, SCALE);
        let jv: i64 = sampler.next_in(0, SCALE);
        let u: i64 = plane_coord(i, width, ju);
        let v: i64 = plane_coord(j, height, jv);
        let r = camera.get_ray(u, v);
        let c = ray_colour(&r, world, max_depth, sampler);
        proof {
            if max_depth > 0 && world.objects@.len() == 0 {
                assert(world.spec_hit(r, T_MIN, T_MAX) is None);
                assert(abs_int(r.dir.x as int) <= FX_BOUND as int);
                assert(abs_int(r.dir.y as int) <= FX_BOUND as int);
                assert(abs_int(r.dir.z as int) <= FX_BOUND as int);
                lemma_sky_on_segment(r.dir);
            }
        }
        sx = sx + c.x;
        sy = sy + c.y;
        sz = sz + c.z;
        k = k + 1;
    }
    let n64: u64 = samples as u64;
    proof {
        lemma_div_is_ordered(sx as int, (samples as int) * (SCALE as int), samples as int);
        lemma_div_is_ordered(sy as int, (samples as int) * (SCALE as int), samples as int);
        lemma_div_is_ordered(sz as int, (samples as int) * (SCALE as int), samples as int);
        lemma_div_multiples_vanish(SCALE as int, samples as int);
        lemma_div_multiples_vanish(0, samples as int);
        if max_depth > 0 && world.objects@.len() == 0 {
            lemma_div_multiples_vanish(500_000, samples as int);
            lemma_div_multiples_vanish(700_000, samples as int);
            lemma_div_is_ordered((samples as int) * 500_000, sx as int, samples as int);
            lemma_div_is_ordered((samples as int) * 700_000, sy as int, samples as int);
        }
        lemma_div_is_ordered(0, sx as int, samples as int);
        lemma_div_is_ordered(0, sy as int, samples as int);
        lemma_div_is_ordered(0, sz as int, samples as int);
    }
    let ax: i64 = ((sx as u64) / n64) as i64;
    let ay: i64 = ((sy as u64) / n64) as i64;
    let az: i64 = ((sz as u64) / n64) as i64;
    Vec3::new(ax, ay, az)
}

/// Renders the scene to a row-major pixel stream, top row first: for each
/// pixel, `samples` jittered camera rays are traced with a bounce budget of
/// `max_depth`, averaged, and mapped to display channels. A zero bounce
/// budget renders every pixel black.
pub fn render(
    world: &World,
    camera: &Camera,
    width: usize,
    height: usize,
    samples: u32,
    max_depth: u64,
    sampler: &mut Sampler,
) -> (pixels: Vec<(u8, u8, u8)>)
    requires
        world.is_wf(),
        camera.wf(),
        1 <= width <= 65_536,
        1 <= height <= 65_536,
        width * height <= 100_000_000,
        1 <= samples <= 1_000_000,
    ensures
        pixels@.len() == width * height,
        max_depth == 0 ==> forall|k: int|
            0 <= k < pixels@.len() ==> pixels@[k] == (0u8, 0u8, 0u8),
        max_depth > 0 && world.objects@.len() == 0 ==> forall|k: int|
            0 <= k < pixels@.len() ==> (#[trigger] pixels@[k]).2 == 255u8 && pixels@[k].0 >= 181u8
                && pixels@[k].1 >= 214u8,
{
    let mut pixels: Vec<(u8, u8, u8)> = Vec::new();
    let mut row: usize = 0;
    while row < height
        invariant
            world.is_wf(),
            camera.wf(),
            1 <= width <= 65_536,
            1 <= height <= 65_536,
            width * height <= 100_000_000,
            1 <= samples <= 1_000_000,
            row <= height,
            pixels@.len() == row * width,
            max_depth == 0 ==> forall|k: int|
                0 <= k < pixels@.len() ==> pixels@[k] == (0u8, 0u8, 0u8),
            max_depth > 0 && world.objects@.len() == 0 ==> forall|k: int|
                0 <= k < pixels@.len() ==> (#[trigger] pixels@[k]).2 == 255u8 && pixels@[k].0
                    >= 181u8 && pixels@[k].1 >= 214u8,
        decreases height - row,
    {
        proof {
            assert((row + 1) * width == row * width + width) by (nonlinear_arith);
            assert((row + 1) * width <= height * width) by (nonlinear_arith)
                requires
                    row + 1 <= height,
                    0 <= width,
            ;
            assert(height * width == width * height) by (nonlinear_arith);
        }
        let j: usize = height - 1 - row;
        let mut i: usize = 0;
        while i < width
            invariant
                world.is_wf(),
                camera.wf(),
                1 <= width <= 65_536,
                1 <= height <= 65_536,
                width * height <= 100_000_000,
                1 <= samples <= 1_000_000,
                row < height,
                j == height - 1 - row,
                i <= width,
                row * width + width <= width * height,
                pixels@.len() == row * width + i,
                max_depth == 0 ==> forall|k: int|
                    0 <= k < pixels@.len() ==> pixels@[k] == (0u8, 0u8, 0u8),
                max_depth > 0 && world.objects@.len() == 0 ==> forall|k: int|
                    0 <= k < pixels@.len() ==> (#[trigger] pixels@[k]).2 == 255u8 && pixels@[k].0
                        >= 181u8 && pixels@[k].1 >= 214u8,
            decreases width - i,
        {
            let avg: Vec3 = sample_pixel(
                world,
                camera,
                i,
                j,
                width,
                height,
                samples,
                max_depth,
                sampler,
            );
            let pix: (u8, u8, u8) = avg.to_display_colour();
            proof {
                if max_depth == 0 {
                    lemma_display_channel_clamped(0);
                }
                if max_depth > 0 && world.objects@.len() == 0 {
                    lemma_display_channel_clamped(avg.z as int);
                    lemma_display_floor_values();
                    lemma_display_channel_monotonic(500_000, avg.x as int);
                    lemma_display_channel_monotonic(700_000, avg.y as int);
                }
            }
            pixels.push(pix);
            i = i + 1;
        }
        proof {
            assert((row + 1) * width == row * width + width) by (nonlinear_arith);
        }
        row = row + 1;
    }
    proof {
        assert(height * width == width * height) by (nonlinear_arith);
    }
    pixels
}

/// The display values of the sky gradient's dimmest channels: red bottoms out
/// at 0.5 and green at 0.7, which gamma-correct to 181 and 214.
proof fn lemma_display_floor_values()
    ensures
        spec_display_channel(500_000) == 181,
        spec_display_channel(700_000) == 214,
{
    assert(707_106int * 707_106 == 499_998_895_236);
    assert(707_107int * 707_107 == 500_000_309_449);
    assert(is_sqrt_floor(500_000_000_000, 707_106));
    lemma_sqrt_floor_is(500_000_000_000, 707_106);
    assert(707_106int * 256 == 181_019_136);
    vstd::arithmetic::div_mod::lemma_fundamental_div_mod_converse_div(
        181_019_136,
        1_000_000,
        181,
        19_136,
    );
    assert(836_660int * 836_660 == 699_999_955_600);
    assert(836_661int * 836_661 == 700_001_628_921);
    assert(is_sqrt_floor(700_000_000_000, 836_660));
    lemma_sqrt_floor_is(700_000_000_000, 836_660);
    assert(836_660int * 256 == 214_184_960);
    vstd::arithmetic::div_mod::lemma_fundamental_div_mod_converse_div(
        214_184_960,
        1_000_000,
        214,
        184_960,
    );
}

} // verus!
