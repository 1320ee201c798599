// Hit testing, nearest-hit resolution, colour recursion, and end-to-end
// rendering, on concrete scenes. Fixed point: 1_000_000 stands for 1.0.

use raytrace::vec3::Vec3;
use raytrace::ray::Ray;
use raytrace::ray::T_MAX;
use raytrace::sphere::Sphere;
use raytrace::hit::Hit;
use raytrace::hit::World;
use raytrace::camera::Camera;
use raytrace::colour::ray_colour;
use raytrace::render::render;
use raytrace::sampler::Sampler;

#[test]
fn sphere_hit_round_trip() {
    // Unit sphere at the origin, ray from (0,0,5) toward (0,0,-1):
    // hit at t = 4, point (0,0,1), outward normal (0,0,1).
    let s = Sphere::new(Vec3::new(0, 0, 0), 1_000_000);
    let r = Ray::new(Vec3::new(0, 0, 5_000_000), Vec3::new(0, 0, -1_000_000));
    let h = s.hit(&r, 1_000, T_MAX).expect("ray must hit the sphere");
    assert_eq!(h.t, 4_000_000);
    assert_eq!(h.p, Vec3::new(0, 0, 1_000_000));
    assert_eq!(h.normal, Vec3::new(0, 0, 1_000_000));
}

#[test]
fn sphere_miss_returns_none() {
    // Origin (2,2,5), direction (0,0,-1), against the unit sphere at origin.
    let s = Sphere::new(Vec3::new(0, 0, 0), 1_000_000);
    let r = Ray::new(
        Vec3::new(2_000_000, 2_000_000, 5_000_000),
        Vec3::new(0, 0, -1_000_000),
    );
    assert!(s.hit(&r, 1_000, T_MAX).is_none());
}

#[test]
fn sphere_hit_respects_open_interval() {
    let s = Sphere::new(Vec3::new(0, 0, 0), 1_000_000);
    let r = Ray::new(Vec3::new(0, 0, 5_000_000), Vec3::new(0, 0, -1_000_000));
    // Nearer root is t = 4, farther is t = 6; excluding both gives no hit.
    assert!(s.hit(&r, 1_000, 3_000_000).is_none());
    // Excluding only the nearer root returns the farther one.
    let h = s.hit(&r, 4_500_000, T_MAX).expect("farther root is in range");
    assert_eq!(h.t, 6_000_000);
    assert_eq!(h.p, Vec3::new(0, 0, -1_000_000));
    // Interior normal is not flipped: it still points away from the centre.
    assert_eq!(h.normal, Vec3::new(0, 0, -1_000_000));
}

#[test]
fn sphere_degenerate_direction_misses() {
    let s = Sphere::new(Vec3::new(0, 0, 0), 1_000_000);
    let r = Ray::new(Vec3::new(0, 0, 5_000_000), Vec3::new(0, 0, 0));
    assert!(s.hit(&r, 1_000, T_MAX).is_none());
}

#[test]
fn world_hit_returns_nearest_of_two() {
    // Two spheres of radius 0.5 along the same ray, at z = -1 and z = -3;
    // the returned t must be the smaller valid root, 0.5.
    let near = Sphere::new(Vec3::new(0, 0, -1_000_000), 500_000);
    let far = Sphere::new(Vec3::new(0, 0, -3_000_000), 500_000);
    let r = Ray::new(Vec3::new(0, 0, 0), Vec3::new(0, 0, -1_000_000));

    let mut w = World::new();
    w.push(far);
    w.push(near);
    let h = w.hit(&r, 1_000, T_MAX).expect("ray must hit a sphere");
    assert_eq!(h.t, 500_000);
    assert_eq!(h.p, Vec3::new(0, 0, -500_000));

    // The same scene with the members in the other order agrees.
    let mut w2 = World::new();
    w2.push(near);
    w2.push(far);
    let h2 = w2.hit(&r, 1_000, T_MAX).expect("ray must hit a sphere");
    assert_eq!(h2.t, 500_000);
}

#[test]
fn world_check_wf() {
    let mut w = World::new();
    assert!(w.check_wf());
    w.push(Sphere::new(Vec3::new(0, 0, -1_000_000), 500_000));
    assert!(w.check_wf());
    // A zero radius is degenerate geometry and fails the check.
    w.push(Sphere::new(Vec3::new(0, 0, -2_000_000), 0));
    assert!(!w.check_wf());
}

#[test]
fn world_empty_misses() {
    let w = World::new();
    let r = Ray::new(Vec3::new(0, 0, 0), Vec3::new(0, 0, -1_000_000));
    assert!(w.hit(&r, 1_000, T_MAX).is_none());
}

#[test]
fn ray_colour_zero_budget_is_black() {
    // Even with a sphere dead ahead, a zero bounce budget gathers no light.
    let mut w = World::new();
    w.push(Sphere::new(Vec3::new(0, 0, -1_000_000), 500_000));
    let r = Ray::new(Vec3::new(0, 0, 0), Vec3::new(0, 0, -1_000_000));
    let mut s = Sampler::from_seed(5);
    let c = ray_colour(&r, &w, 0, &mut s);
    assert_eq!(c, Vec3::new(0, 0, 0));
}

#[test]
fn ray_colour_miss_is_sky_gradient() {
    let w = World::new();
    let mut s = Sampler::from_seed(5);
    // Straight ahead: unit y = 0, t = 0.5, halfway between white and blue.
    let ahead = Ray::new(Vec3::new(0, 0, 0), Vec3::new(0, 0, -1_000_000));
    assert_eq!(
        ray_colour(&ahead, &w, 5, &mut s),
        Vec3::new(750_000, 850_000, 1_000_000)
    );
    // Straight up: unit y = 1, t = 1, exactly sky blue.
    let up = Ray::new(Vec3::new(0, 0, 0), Vec3::new(0, 1_000_000, 0));
    assert_eq!(
        ray_colour(&up, &w, 5, &mut s),
        Vec3::new(500_000, 700_000, 1_000_000)
    );
    // Straight down: unit y = -1, t = 0, exactly white.
    let down = Ray::new(Vec3::new(0, 0, 0), Vec3::new(0, -1_000_000, 0));
    assert_eq!(
        ray_colour(&down, &w, 5, &mut s),
        Vec3::new(1_000_000, 1_000_000, 1_000_000)
    );
}

#[test]
fn ray_colour_miss_lies_on_sky_segment() {
    let w = World::new();
    let mut s = Sampler::from_seed(17);
    let dirs = [
        Vec3::new(300_000, 400_000, -1_000_000),
        Vec3::new(-250_000, -900_000, -100_000),
        Vec3::new(1, 2, 3),
    ];
    for d in dirs {
        let c = ray_colour(&Ray::new(Vec3::new(0, 0, 0), d), &w, 3, &mut s);
        assert!(500_000 <= c.x() && c.x() <= 1_000_000);
        assert!(700_000 <= c.y() && c.y() <= 1_000_000);
        assert_eq!(c.z(), 1_000_000);
    }
}

#[test]
fn ray_colour_bounce_attenuates() {
    // A hit keeps at most half of what the bounce gathers.
    let mut w = World::new();
    w.push(Sphere::new(Vec3::new(0, 0, -1_000_000), 500_000));
    let r = Ray::new(Vec3::new(0, 0, 0), Vec3::new(0, 0, -1_000_000));
    let mut s = Sampler::from_seed(11);
    for _ in 0..20 {
        let c = ray_colour(&r, &w, 4, &mut s);
        assert!(0 <= c.x() && c.x() <= 500_000);
        assert!(0 <= c.y() && c.y() <= 500_000);
        assert!(0 <= c.z() && c.z() <= 500_000);
    }
}

#[test]
fn ray_colour_one_bounce_hit_is_black() {
    // With one bounce of budget, a hit spends it: the bounce traces at
    // budget zero and gathers nothing, and half of black is black.
    let mut w = World::new();
    w.push(Sphere::new(Vec3::new(0, 0, -1_000_000), 500_000));
    let r = Ray::new(Vec3::new(0, 0, 0), Vec3::new(0, 0, -1_000_000));
    let mut s = Sampler::from_seed(23);
    for _ in 0..10 {
        assert_eq!(ray_colour(&r, &w, 1, &mut s), Vec3::new(0, 0, 0));
    }
}

#[test]
fn hit_normal_is_near_unit_length() {
    // An off-axis hit: the reported outward normal has near-unit norm.
    let sphere = Sphere::new(Vec3::new(0, 0, 0), 1_000_000);
    let r = Ray::new(
        Vec3::new(5_000_000, 5_000_000, 5_000_000),
        Vec3::new(-1_000_000, -1_000_000, -1_000_000),
    );
    let h = sphere.hit(&r, 1_000, T_MAX).expect("diagonal ray must hit");
    let len = h.normal.length();
    assert!(
        (len - 1_000_000).abs() <= 500,
        "normal length {} too far from unit",
        len
    );
}

#[test]
fn camera_construction() {
    let c = Camera::new();
    assert_eq!(c.origin, Vec3::new(0, 0, 0));
    assert_eq!(c.horizontal, Vec3::new(3_555_554, 0, 0));
    assert_eq!(c.vertical, Vec3::new(0, 2_000_000, 0));
    assert_eq!(c.lower_left_corner, Vec3::new(-1_777_777, -1_000_000, -1_000_000));
}

#[test]
fn camera_ray_corners() {
    let c = Camera::new();
    let bottom_left = c.get_ray(0, 0);
    assert_eq!(bottom_left.origin(), Vec3::new(0, 0, 0));
    assert_eq!(bottom_left.direction(), Vec3::new(-1_777_777, -1_000_000, -1_000_000));
    let top_right = c.get_ray(1_000_000, 1_000_000);
    assert_eq!(top_right.direction(), Vec3::new(1_777_777, 1_000_000, -1_000_000));
}

#[test]
fn render_two_by_one_zero_depth_reproducible() {
    // End to end: a 2x1 image, 1 sample per pixel, zero bounce budget, one
    // sphere at (0,0,-1) with radius 0.5, fixed seed. A zero budget renders
    // black, and equal seeds give identical pixel streams.
    let mut w = World::new();
    w.push(Sphere::new(Vec3::new(0, 0, -1_000_000), 500_000));
    let cam = Camera::new();

    let mut s1 = Sampler::from_seed(2026);
    let first = render(&w, &cam, 2, 1, 1, 0, &mut s1);
    let mut s2 = Sampler::from_seed(2026);
    let second = render(&w, &cam, 2, 1, 1, 0, &mut s2);

    assert_eq!(first.len(), 2);
    assert_eq!(first, second);
    assert_eq!(first, vec![(0, 0, 0), (0, 0, 0)]);
}

#[test]
fn render_empty_scene_is_sky() {
    // Every ray of an empty scene reaches the sky: blue saturates at 255,
    // and red and green never fall below the gradient's dimmest endpoint.
    let w = World::new();
    let cam = Camera::new();
    let mut s = Sampler::from_seed(31);
    let pixels = render(&w, &cam, 4, 4, 3, 5, &mut s);
    assert_eq!(pixels.len(), 16);
    for &(r, g, b) in &pixels {
        assert_eq!(b, 255);
        assert!(r >= 181);
        assert!(g >= 214);
    }
}

#[test]
fn render_reproducible_with_bounces() {
    let mut w = World::new();
    w.push(Sphere::new(Vec3::new(0, 0, -1_000_000), 500_000));
    w.push(Sphere::new(Vec3::new(0, -100_500_000, -1_000_000), 100_000_000));
    let cam = Camera::new();

    let mut s1 = Sampler::from_seed(7);
    let first = render(&w, &cam, 8, 4, 4, 5, &mut s1);
    let mut s2 = Sampler::from_seed(7);
    let second = render(&w, &cam, 8, 4, 4, 5, &mut s2);

    assert_eq!(first.len(), 32);
    assert_eq!(first, second);
    // The top-left pixel looks past the spheres into the sky: not black.
    assert!(first[0] != (0, 0, 0));
}
