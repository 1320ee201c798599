// Vector algebra, rays, and the display-colour mapping, on concrete values.
// Fixed point: 1_000_000 stands for 1.0.

use raytrace::vec3::Vec3;
use raytrace::ray::Ray;
use raytrace::sampler::Sampler;

#[test]
fn vec3_new_and_accessors() {
    let v = Vec3::new(1_000_000, -2_000_000, 3_000_000);
    assert_eq!(v.x(), 1_000_000);
    assert_eq!(v.y(), -2_000_000);
    assert_eq!(v.z(), 3_000_000);
    assert_eq!(v.index(0), 1_000_000);
    assert_eq!(v.index(1), -2_000_000);
    assert_eq!(v.index(2), 3_000_000);
}

#[test]
fn vec3_add_sub() {
    let a = Vec3::new(1_000_000, 2_000_000, 3_000_000);
    let b = Vec3::new(400_000, -500_000, 600_000);
    assert_eq!(a.add(b), Vec3::new(1_400_000, 1_500_000, 3_600_000));
    assert_eq!(a.sub(b), Vec3::new(600_000, 2_500_000, 2_400_000));
    let mut c = a;
    c.add_assign(b);
    assert_eq!(c, a.add(b));
    let mut d = a;
    d.sub_assign(b);
    assert_eq!(d, a.sub(b));
}

#[test]
fn vec3_scale_divide() {
    let a = Vec3::new(1_000_000, -2_000_000, 3_000_000);
    // times 2.0
    assert_eq!(a.mul(2_000_000), Vec3::new(2_000_000, -4_000_000, 6_000_000));
    // divided by 2.0
    assert_eq!(a.div(2_000_000), Vec3::new(500_000, -1_000_000, 1_500_000));
    let mut m = a;
    m.mul_assign(2_000_000);
    assert_eq!(m, a.mul(2_000_000));
    let mut d = a;
    d.div_assign(2_000_000);
    assert_eq!(d, a.div(2_000_000));
}

#[test]
fn vec3_dot_exact() {
    // (1,2,3) . (4,5,6) = 32
    let a = Vec3::new(1_000_000, 2_000_000, 3_000_000);
    let b = Vec3::new(4_000_000, 5_000_000, 6_000_000);
    assert_eq!(a.dot(b), 32_000_000);
}

#[test]
fn vec3_dot_commutes() {
    let a = Vec3::new(123_456, -654_321, 999_999);
    let b = Vec3::new(-777_777, 314_159, 271_828);
    assert_eq!(a.dot(b), b.dot(a));
}

#[test]
fn vec3_cross_exact() {
    // x cross y = z
    let x = Vec3::new(1_000_000, 0, 0);
    let y = Vec3::new(0, 1_000_000, 0);
    assert_eq!(x.cross(y), Vec3::new(0, 0, 1_000_000));
}

#[test]
fn vec3_cross_anticommutes() {
    let a = Vec3::new(1_250_000, -3_500_000, 2_000_000);
    let b = Vec3::new(-500_000, 750_000, 4_000_000);
    let ab = a.cross(b);
    let ba = b.cross(a);
    assert_eq!(ab.x(), -ba.x());
    assert_eq!(ab.y(), -ba.y());
    assert_eq!(ab.z(), -ba.z());
}

#[test]
fn vec3_length_exact() {
    // |(3,4,0)| = 5
    let v = Vec3::new(3_000_000, 4_000_000, 0);
    assert_eq!(v.length(), 5_000_000);
}

#[test]
fn vec3_normalise_exact() {
    let v = Vec3::new(3_000_000, 4_000_000, 0);
    assert_eq!(v.normalise(), Vec3::new(600_000, 800_000, 0));
}

#[test]
fn vec3_normalise_length_near_unit() {
    // The normalised length is 1.0 within fixed-point rounding tolerance for
    // vectors well above the resolution floor (a vector whose components sit
    // near one fixed-point step, such as (1, 1, 1), normalises with large
    // relative error: the rounded-down norm of such a vector is itself only
    // a step or two).
    let samples = [
        Vec3::new(1_000_000, 2_000_000, 3_000_000),
        Vec3::new(-7_123_456, 33_000, 999_999),
        Vec3::new(10_000, 10_000, 10_000),
        Vec3::new(0, 0, -1_000_000),
    ];
    for v in samples {
        let len = v.normalise().length();
        assert!(
            (len - 1_000_000).abs() <= 2_000,
            "normalised length {} too far from unit",
            len
        );
    }
}

#[test]
fn ray_at_is_origin_plus_t_direction() {
    let origin = Vec3::new(1_000_000, 2_000_000, 3_000_000);
    let dir = Vec3::new(-500_000, 250_000, 1_000_000);
    let r = Ray::new(origin, dir);
    // t = 2.0
    let t: i64 = 2_000_000;
    let p = r.at(t);
    let expected = origin.add(dir.mul(t));
    assert_eq!(p, expected);
    assert_eq!(p, Vec3::new(0, 2_500_000, 5_000_000));
    // t = 0 gives the origin back
    assert_eq!(r.at(0), origin);
}

#[test]
fn ray_accessors() {
    let r = Ray::new(Vec3::new(1, 2, 3), Vec3::new(4, 5, 6));
    assert_eq!(r.origin(), Vec3::new(1, 2, 3));
    assert_eq!(r.direction(), Vec3::new(4, 5, 6));
}

#[test]
fn display_colour_zero_maps_to_zero() {
    let c = Vec3::new(0, 0, 0);
    assert_eq!(c.to_display_colour(), (0, 0, 0));
}

#[test]
fn display_colour_saturates_at_999_squared() {
    // 0.998001 = 0.999^2 is the first input mapped to 255.
    let c = Vec3::new(998_001, 1_000_000, 5_000_000);
    assert_eq!(c.to_display_colour(), (255, 255, 255));
}

#[test]
fn display_colour_negative_clamps_to_zero() {
    let c = Vec3::new(-123_456, 0, 998_000);
    let (r, g, _b) = c.to_display_colour();
    assert_eq!(r, 0);
    assert_eq!(g, 0);
}

#[test]
fn display_colour_gamma_midpoint() {
    // 0.25 -> sqrt -> 0.5 -> 128
    let c = Vec3::new(250_000, 640_000, 10_000);
    // 0.64 -> 0.8 -> 204.8 -> 204; 0.01 -> 0.1 -> 25.6 -> 25
    assert_eq!(c.to_display_colour(), (128, 204, 25));
}

#[test]
fn display_colour_monotonic_on_samples() {
    let mut prev: u8 = 0;
    let mut i: i64 = 0;
    while i <= 1_100_000 {
        let (r, _, _) = Vec3::new(i, 0, 0).to_display_colour();
        assert!(r >= prev, "display channel decreased at input {}", i);
        prev = r;
        i += 10_000;
    }
    assert_eq!(prev, 255);
}

#[test]
fn random_vector_within_range() {
    let mut s = Sampler::from_seed(42);
    for _ in 0..100 {
        let v = Vec3::random(-1_000_000, 1_000_000, &mut s);
        assert!(v.x() >= -1_000_000 && v.x() < 1_000_000);
        assert!(v.y() >= -1_000_000 && v.y() < 1_000_000);
        assert!(v.z() >= -1_000_000 && v.z() < 1_000_000);
    }
}

#[test]
fn random_singleton_range_is_pinned() {
    // A width-one range leaves the generator no choice: if the wrapper did
    // not really sample the range, this would not hold for every draw.
    let mut s = Sampler::from_seed(7);
    let v = Vec3::random(5, 6, &mut s);
    assert_eq!(v, Vec3::new(5, 5, 5));
}

#[test]
fn random_in_unit_sphere_is_inside_and_nonzero() {
    let mut s = Sampler::from_seed(1234);
    for _ in 0..100 {
        let v = Vec3::random_in_unit_sphere(&mut s);
        let raw: i64 = v.x() * v.x() + v.y() * v.y() + v.z() * v.z();
        assert!(raw > 0);
        assert!(raw < 1_000_000_000_000);
    }
}

#[test]
fn sampler_seed_determinism() {
    let mut a = Sampler::from_seed(99);
    let mut b = Sampler::from_seed(99);
    for _ in 0..32 {
        assert_eq!(
            Vec3::random(-1_000_000, 1_000_000, &mut a),
            Vec3::random(-1_000_000, 1_000_000, &mut b)
        );
    }
}
