//! Three-component fixed-point vectors, used interchangeably as points,
//! directions and RGB colours.
//!
//! Components are fixed-point numbers (see `fx`): an `i64` component `v`
//! stands for the real number `v / SCALE`. All operations state their result
//! exactly, as truncated fixed-point arithmetic over the mathematical
//! integers.

use vstd::prelude::*;
use vstd::arithmetic::div_mod::lemma_div_is_ordered;
use vstd::arithmetic::div_mod::lemma_div_multiples_vanish;
use vstd::arithmetic::div_mod::lemma_fundamental_div_mod;
use vstd::arithmetic::div_mod::lemma_mod_bound;
use crate::fx::SCALE;
use crate::fx::FX_BOUND;
use crate::fx::abs_int;
use crate::fx::trunc_div;
use crate::fx::fx_mul;
use crate::fx::fx_div;
use crate::fx::sqrt_floor;
use crate::fx::is_sqrt_floor;
use crate::fx::fx_mul_i64;
use crate::fx::fx_div_i64;
use crate::fx::trunc_div_i128;
use crate::fx::isqrt_u128;
use crate::fx::lemma_abs_mul_le;
use crate::fx::lemma_trunc_div_abs_bound;
use crate::fx::lemma_sqrt_floor_is;
use crate::fx::lemma_sqrt_floor_exists;
use crate::fx::lemma_sqrt_floor_monotonic;
use crate::sampler::Sampler;

verus! {

/// Largest colour channel value that survives the display clamp: 0.999 in
/// fixed point.
pub const CHANNEL_MAX: i64 = 999_000;

#[derive(Clone, Copy, PartialEq, Eq, Structural, Debug)]
pub struct Vec3 {
    pub x: i64,
    pub y: i64,
    pub z: i64,
}

impl Vec3 {
    /// Every component's magnitude is within the range the vector operations
    /// accept (one million world units).
    pub open spec fn in_bounds(self) -> bool {
        abs_int(self.x as int) <= FX_BOUND as int && abs_int(self.y as int) <= FX_BOUND as int
            && abs_int(self.z as int) <= FX_BOUND as int
    }

    /// The squared Euclidean norm before rescaling: at scale `SCALE * SCALE`.
    pub open spec fn raw_norm2(self) -> int {
        (self.x as int) * (self.x as int) + (self.y as int) * (self.y as int) + (self.z as int)
            * (self.z as int)
    }

    /// The dot product as a fixed-point scalar.
    pub open spec fn spec_dot(self, other: Vec3) -> int {
        trunc_div(
            (self.x as int) * (other.x as int) + (self.y as int) * (other.y as int) + (
            self.z as int) * (other.z as int),
            SCALE as int,
        )
    }

    /// The cross product, componentwise, as fixed-point values.
    pub open spec fn spec_cross(self, other: Vec3) -> (int, int, int) {
        (
            fx_mul(self.y as int, other.z as int) - fx_mul(self.z as int, other.y as int),
            fx_mul(self.z as int, other.x as int) - fx_mul(self.x as int, other.z as int),
            fx_mul(self.x as int, other.y as int) - fx_mul(self.y as int, other.x as int),
        )
    }

    /// The Euclidean norm as a fixed-point scalar, rounded down.
    pub open spec fn spec_length(self) -> int {
        sqrt_floor(self.raw_norm2())
    }

    /// The vector scaled to unit length, componentwise: each component divided
    /// by the fixed-point norm (meaningful only for a non-zero vector).
    pub open spec fn spec_normalise(self) -> (int, int, int) {
        let len = self.spec_length();
        (
            trunc_div((self.x as int) * (SCALE as int), len),
            trunc_div((self.y as int) * (SCALE as int), len),
            trunc_div((self.z as int) * (SCALE as int), len),
        )
    }

    pub open spec fn spec_index(self, i: int) -> i64 {
        if i == 0 {
            self.x
        } else if i == 1 {
            self.y
        } else {
            self.z
        }
    }

    pub fn new(x: i64, y: i64, z: i64) -> (v: Vec3)
        ensures
            v.x == x,
            v.y == y,
            v.z == z,
    {
        Vec3 { x, y, z }
    }

    pub fn x(self) -> (r: i64)
        ensures
            r == self.x,
    {
        self.x
    }

    pub fn y(self) -> (r: i64)
        ensures
            r == self.y,
    {
        self.y
    }

    pub fn z(self) -> (r: i64)
        ensures
            r == self.z,
    {
        self.z
    }

    pub fn index(self, i: usize) -> (r: i64)
        requires
            i < 3,
        ensures
            r == self.spec_index(i as int),
    {
        if i == 0 {
            self.x
        } else if i == 1 {
            self.y
        } else {
            self.z
        }
    }

    pub fn add(self, other: Vec3) -> (r: Vec3)
        requires
            i64::MIN <= self.x + other.x <= i64::MAX,
            i64::MIN <= self.y + other.y <= i64::MAX,
            i64::MIN <= self.z + other.z <= i64::MAX,
        ensures
            r.x == self.x + other.x,
            r.y == self.y + other.y,
            r.z == self.z + other.z,
    {
        Vec3 { x: self.x + other.x, y: self.y + other.y, z: self.z + other.z }
    }

    pub fn add_assign(&mut self, other: Vec3)
        requires
            i64::MIN <= old(self).x + other.x <= i64::MAX,
            i64::MIN <= old(self).y + other.y <= i64::MAX,
            i64::MIN <= old(self).z + other.z <= i64::MAX,
        ensures
            final(self).x == old(self).x + other.x,
            final(self).y == old(self).y + other.y,
            final(self).z == old(self).z + other.z,
    {
        self.x = self.x + other.x;
        self.y = self.y + other.y;
        self.z = self.z + other.z;
    }

    pub fn sub(self, other: Vec3) -> (r: Vec3)
        requires
            i64::MIN <= self.x - other.x <= i64::MAX,
            i64::MIN <= self.y - other.y <= i64::MAX,
            i64::MIN <= self.z - other.z <= i64::MAX,
        ensures
            r.x == self.x - other.x,
            r.y == self.y - other.y,
            r.z == self.z - other.z,
    {
        Vec3 { x: self.x - other.x, y: self.y - other.y, z: self.z - other.z }
    }

    pub fn sub_assign(&mut self, other: Vec3)
        requires
            i64::MIN <= old(self).x - other.x <= i64::MAX,
            i64::MIN <= old(self).y - other.y <= i64::MAX,
            i64::MIN <= old(self).z - other.z <= i64::MAX,
        ensures
            final(self).x == old(self).x - other.x,
            final(self).y == old(self).y - other.y,
            final(self).z == old(self).z - other.z,
    {
        self.x = self.x - other.x;
        self.y = self.y - other.y;
        self.z = self.z - other.z;
    }

    /// Scalar multiply: each component times the fixed-point scalar `k`.
    pub fn mul(self, k: i64) -> (r: Vec3)
        requires
            self.in_bounds(),
            abs_int(k as int) <= FX_BOUND as int,
        ensures
            r.x as int == fx_mul(self.x as int, k as int),
            r.y as int == fx_mul(self.y as int, k as int),
            r.z as int == fx_mul(self.z as int, k as int),
    {
        proof {
            lemma_fx_mul_fits(self.x as int, k as int);
            lemma_fx_mul_fits(self.y as int, k as int);
            lemma_fx_mul_fits(self.z as int, k as int);
        }
        Vec3 { x: fx_mul_i64(self.x, k), y: fx_mul_i64(self.y, k), z: fx_mul_i64(self.z, k) }
    }

    /// Scalar divide: each component divided by the fixed-point scalar `k`.
    pub fn div(self, k: i64) -> (r: Vec3)
        requires
            self.in_bounds(),
            k != 0,
            abs_int(k as int) <= FX_BOUND as int,
        ensures
            r.x as int == fx_div(self.x as int, k as int),
            r.y as int == fx_div(self.y as int, k as int),
            r.z as int == fx_div(self.z as int, k as int),
    {
        proof {
            lemma_fx_div_fits(self.x as int, k as int);
            lemma_fx_div_fits(self.y as int, k as int);
            lemma_fx_div_fits(self.z as int, k as int);
        }
        Vec3 { x: fx_div_i64(self.x, k), y: fx_div_i64(self.y, k), z: fx_div_i64(self.z, k) }
    }

    /// In-place scalar multiply.
    pub fn mul_assign(&mut self, k: i64)
        requires
            old(self).in_bounds(),
            abs_int(k as int) <= FX_BOUND as int,
        ensures
            final(self).x as int == fx_mul(old(self).x as int, k as int),
            final(self).y as int == fx_mul(old(self).y as int, k as int),
            final(self).z as int == fx_mul(old(self).z as int, k as int),
    {
        let r: Vec3 = self.mul(k);
        self.x = r.x;
        self.y = r.y;
        self.z = r.z;
    }

    /// In-place scalar divide.
    pub fn div_assign(&mut self, k: i64)
        requires
            old(self).in_bounds(),
            k != 0,
            abs_int(k as int) <= FX_BOUND as int,
        ensures
            final(self).x as int == fx_div(old(self).x as int, k as int),
            final(self).y as int == fx_div(old(self).y as int, k as int),
            final(self).z as int == fx_div(old(self).z as int, k as int),
    {
        let r: Vec3 = self.div(k);
        self.x = r.x;
        self.y = r.y;
        self.z = r.z;
    }

    pub fn dot(self, other: Vec3) -> (r: i64)
        requires
            self.in_bounds(),
            other.in_bounds(),
        ensures
            r as int == self.spec_dot(other),
    {
        proof {
            lemma_abs_mul_le(self.x as int, other.x as int, FX_BOUND as int, FX_BOUND as int);
            lemma_abs_mul_le(self.y as int, other.y as int, FX_BOUND as int, FX_BOUND as int);
            lemma_abs_mul_le(self.z as int, other.z as int, FX_BOUND as int, FX_BOUND as int);
        }
        let px: i128 = (self.x as i128) * (other.x as i128);
        let py: i128 = (self.y as i128) * (other.y as i128);
        let pz: i128 = (self.z as i128) * (other.z as i128);
        let s: i128 = px + py + pz;
        proof {
            lemma_trunc_div_abs_bound(
                s as int,
                SCALE as int,
                3 * (FX_BOUND as int) * (FX_BOUND as int),
            );
        }
        let q: i128 = trunc_div_i128(s, SCALE as i128);
        q as i64
    }

    pub fn cross(self, other: Vec3) -> (r: Vec3)
        requires
            self.in_bounds(),
            other.in_bounds(),
        ensures
            r.x as int == self.spec_cross(other).0,
            r.y as int == self.spec_cross(other).1,
            r.z as int == self.spec_cross(other).2,
    {
        proof {
            lemma_fx_mul_fits(self.y as int, other.z as int);
            lemma_fx_mul_fits(self.z as int, other.y as int);
            lemma_fx_mul_fits(self.z as int, other.x as int);
            lemma_fx_mul_fits(self.x as int, other.z as int);
            lemma_fx_mul_fits(self.x as int, other.y as int);
            lemma_fx_mul_fits(self.y as int, other.x as int);
        }
        let rx: i64 = fx_mul_i64(self.y, other.z) - fx_mul_i64(self.z, other.y);
        let ry: i64 = fx_mul_i64(self.z, other.x) - fx_mul_i64(self.x, other.z);
        let rz: i64 = fx_mul_i64(self.x, other.y) - fx_mul_i64(self.y, other.x);
        Vec3 { x: rx, y: ry, z: rz }
    }

    pub fn length(self) -> (r: i64)
        requires
            self.in_bounds(),
        ensures
            r as int == self.spec_length(),
            0 <= r,
            is_sqrt_floor(self.raw_norm2(), r as int),
    {
        proof {
            lemma_abs_mul_le(self.x as int, self.x as int, FX_BOUND as int, FX_BOUND as int);
            lemma_abs_mul_le(self.y as int, self.y as int, FX_BOUND as int, FX_BOUND as int);
            lemma_abs_mul_le(self.z as int, self.z as int, FX_BOUND as int, FX_BOUND as int);
            lemma_square_nonneg(self.x as int);
            lemma_square_nonneg(self.y as int);
            lemma_square_nonneg(self.z as int);
        }
        let px: i128 = (self.x as i128) * (self.x as i128);
        let py: i128 = (self.y as i128) * (self.y as i128);
        let pz: i128 = (self.z as i128) * (self.z as i128);
        let s: i128 = px + py + pz;
        let g: u64 = isqrt_u128(s as u128);
        proof {
            lemma_sqrt_floor_is(s as int, g as int);
            assert(g as int <= 2_000_000_000_000) by (nonlinear_arith)
                requires
                    0 <= g as int,
                    (g as int) * (g as int) <= 3_000_000_000_000_000_000_000_000,
            ;
        }
        g as i64
    }

    pub fn normalise(self) -> (r: Vec3)
        requires
            self.in_bounds(),
            self.raw_norm2() > 0,
        ensures
            r.x as int == self.spec_normalise().0,
            r.y as int == self.spec_normalise().1,
            r.z as int == self.spec_normalise().2,
            abs_int(r.x as int) <= SCALE as int,
            abs_int(r.y as int) <= SCALE as int,
            abs_int(r.z as int) <= SCALE as int,
            r.in_bounds(),
    {
        let len: i64 = self.length();
        proof {
            assert(len >= 1);
            lemma_square_nonneg(self.x as int);
            lemma_square_nonneg(self.y as int);
            lemma_square_nonneg(self.z as int);
            lemma_component_le_length(self.x as int, self.raw_norm2(), len as int);
            lemma_component_le_length(self.y as int, self.raw_norm2(), len as int);
            lemma_component_le_length(self.z as int, self.raw_norm2(), len as int);
            lemma_normalise_component_fits(self.x as int, len as int);
            lemma_normalise_component_fits(self.y as int, len as int);
            lemma_normalise_component_fits(self.z as int, len as int);
        }
        Vec3 { x: fx_div_i64(self.x, len), y: fx_div_i64(self.y, len), z: fx_div_i64(self.z, len) }
    }

    /// Each component drawn independently, uniformly from `[lo, hi)`.
    pub fn random(lo: i64, hi: i64, sampler: &mut Sampler) -> (v: Vec3)
        requires
            lo < hi,
        ensures
            lo <= v.x < hi,
            lo <= v.y < hi,
            lo <= v.z < hi,
    {
        let x: i64 = sampler.next_in(lo, hi);
        let y: i64 = sampler.next_in(lo, hi);
        let z: i64 = sampler.next_in(lo, hi);
        Vec3 { x, y, z }
    }

    /// Rejection-samples a non-zero vector of length below one from the cube
    /// `[-1, 1)` on each axis. The rejection loop is given a generous retry
    /// budget; if every draw is rejected (vanishingly unlikely), a fixed
    /// in-sphere vector is returned so the function stays total.
    pub fn random_in_unit_sphere(sampler: &mut Sampler) -> (v: Vec3)
        ensures
            0 < v.raw_norm2() < (SCALE as int) * (SCALE as int),
            abs_int(v.x as int) < SCALE as int,
            abs_int(v.y as int) < SCALE as int,
            abs_int(v.z as int) < SCALE as int,
            v.in_bounds(),
    {
        let mut attempts: u32 = 0;
        while attempts < 64
            invariant
                attempts <= 64,
            decreases 64 - attempts,
        {
            let v: Vec3 = Vec3::random(-SCALE, SCALE, sampler);
            proof {
                lemma_abs_mul_le(v.x as int, v.x as int, SCALE as int, SCALE as int);
                lemma_abs_mul_le(v.y as int, v.y as int, SCALE as int, SCALE as int);
                lemma_abs_mul_le(v.z as int, v.z as int, SCALE as int, SCALE as int);
                lemma_square_nonneg(v.x as int);
                lemma_square_nonneg(v.y as int);
                lemma_square_nonneg(v.z as int);
            }
            let raw: i64 = v.x * v.x + v.y * v.y + v.z * v.z;
            if 0 < raw && raw < SCALE * SCALE {
                proof {
                    lemma_in_sphere_components(v.x as int, v.y as int, v.z as int);
                }
                return v;
            }
            attempts = attempts + 1;
        }
        let v: Vec3 = Vec3 { x: 500_000, y: 0, z: 0 };
        v
    }

    /// The triple of display channels for this colour: each component is
    /// clamped, gamma-corrected by a square root, and scaled to `[0, 255]`.
    pub fn to_display_colour(self) -> (r: (u8, u8, u8))
        ensures
            r.0 as int == spec_display_channel(self.x as int),
            r.1 as int == spec_display_channel(self.y as int),
            r.2 as int == spec_display_channel(self.z as int),
    {
        (display_channel(self.x), display_channel(self.y), display_channel(self.z))
    }
}

/// One colour channel mapped to its display value: the channel is clamped to
/// `[0, 0.999]`, gamma-corrected by a square root, scaled by 256 and rounded
/// down, giving an integer in `[0, 255]`.
pub open spec fn spec_display_channel(c: int) -> int {
    let cc = if c < 0 {
        0
    } else if c > CHANNEL_MAX as int {
        CHANNEL_MAX as int
    } else {
        c
    };
    (sqrt_floor(cc * (SCALE as int)) * 256) / (SCALE as int)
}

fn display_channel(c: i64) -> (r: u8)
    ensures
        r as int == spec_display_channel(c as int),
{
    let cc: i64 = if c < 0 {
        0
    } else if c > CHANNEL_MAX {
        CHANNEL_MAX
    } else {
        c
    };
    let raw: u64 = (cc as u64) * (SCALE as u64);
    let g: u64 = isqrt_u128(raw as u128);
    proof {
        assert(raw as int == (cc as int) * (SCALE as int));
        assert(raw as int <= 999_000_000_000);
        lemma_sqrt_floor_is(raw as int, g as int);
        assert(g as int <= 999_999) by (nonlinear_arith)
            requires
                0 <= g as int,
                (g as int) * (g as int) <= 999_000_000_000,
        ;
    }
    let out: u64 = (g * 256) / (SCALE as u64);
    proof {
        lemma_div_is_ordered((g as int) * 256, 255_999_744, 1_000_000);
    }
    out as u8
}

pub proof fn lemma_square_nonneg(a: int)
    ensures
        a * a >= 0,
        a * a == abs_int(a) * abs_int(a),
{
    assert(a * a >= 0 && a * a == abs_int(a) * abs_int(a)) by (nonlinear_arith);
}

proof fn lemma_fx_mul_fits(a: int, b: int)
    requires
        abs_int(a) <= FX_BOUND as int,
        abs_int(b) <= FX_BOUND as int,
    ensures
        abs_int(fx_mul(a, b)) <= 1_000_000_000_000_000_000,
{
    lemma_abs_mul_le(a, b, FX_BOUND as int, FX_BOUND as int);
    lemma_trunc_div_abs_bound(a * b, SCALE as int, (FX_BOUND as int) * (FX_BOUND as int));
}

proof fn lemma_fx_div_fits(a: int, b: int)
    requires
        abs_int(a) <= FX_BOUND as int,
        b != 0,
    ensures
        abs_int(fx_div(a, b)) <= (FX_BOUND as int) * (SCALE as int),
{
    lemma_abs_mul_le(a, SCALE as int, FX_BOUND as int, SCALE as int);
    lemma_trunc_div_abs_bound(
        a * (SCALE as int),
        abs_int(b as int),
        (FX_BOUND as int) * (SCALE as int),
    );
    assert(trunc_div(a * (SCALE as int), b) == trunc_div(a * (SCALE as int), abs_int(b))
        || trunc_div(a * (SCALE as int), b) == -trunc_div(a * (SCALE as int), abs_int(b)));
    lemma_div_is_ordered_wrapper(
        abs_int(a * (SCALE as int)),
        (FX_BOUND as int) * (SCALE as int),
        1,
    );
}

proof fn lemma_div_is_ordered_wrapper(a: int, b: int, d: int)
    requires
        0 <= a <= b,
        0 < d,
    ensures
        a / d <= b / d,
{
    lemma_div_is_ordered(a, b, d);
}

/// Each component's magnitude is at most the vector's rounded-down norm.
pub proof fn lemma_component_le_length(c: int, norm2: int, len: int)
    requires
        is_sqrt_floor(norm2, len),
        c * c <= norm2,
    ensures
        abs_int(c) <= len,
{
    assert(is_sqrt_floor(c * c, abs_int(c))) by (nonlinear_arith);
    lemma_sqrt_floor_monotonic(c * c, norm2, abs_int(c), len);
}

/// A component divided by a norm that bounds it lands within one unit length.
proof fn lemma_normalise_component_fits(c: int, len: int)
    requires
        1 <= len,
        abs_int(c) <= len,
    ensures
        abs_int(fx_div(c, len)) <= SCALE as int,
{
    lemma_abs_mul_le(c, SCALE as int, len, SCALE as int);
    lemma_trunc_div_abs_bound(c * (SCALE as int), len, len * (SCALE as int));
    lemma_div_multiples_vanish(SCALE as int, len);
}

proof fn lemma_in_sphere_components(x: int, y: int, z: int)
    requires
        x * x + y * y + z * z < (SCALE as int) * (SCALE as int),
    ensures
        abs_int(x) < SCALE as int,
        abs_int(y) < SCALE as int,
        abs_int(z) < SCALE as int,
{
    assert(abs_int(x) < SCALE as int && abs_int(y) < SCALE as int && abs_int(z) < SCALE as int)
        by (nonlinear_arith)
        requires
            x * x + y * y + z * z < (SCALE as int) * (SCALE as int),
            SCALE == 1_000_000,
    ;
}

/// `(a / b) * b` brackets `a` for non-negative operands.
proof fn lemma_div_mul_brackets(a: int, b: int)
    requires
        0 <= a,
        0 < b,
    ensures
        (a / b) * b <= a,
        a < (a / b + 1) * b,
        0 <= a / b,
{
    lemma_fundamental_div_mod(a, b);
    lemma_mod_bound(a, b);
    lemma_div_is_ordered(0, a, b);
    assert(b * (a / b) == (a / b) * b) by (nonlinear_arith);
    assert((a / b + 1) * b == (a / b) * b + b) by (nonlinear_arith);
}

/// One normalised component's magnitude, times the norm, brackets the
/// component's exact scaled value.
pub proof fn lemma_normalise_component_brackets(c: int, len: int)
    requires
        0 < len,
    ensures
        abs_int(trunc_div(c * (SCALE as int), len)) * len <= abs_int(c) * (SCALE as int),
        abs_int(c) * (SCALE as int) < (abs_int(trunc_div(c * (SCALE as int), len)) + 1) * len,
{
    assert(abs_int(c * (SCALE as int)) == abs_int(c) * (SCALE as int)) by (nonlinear_arith);
    lemma_div_mul_brackets(abs_int(c) * (SCALE as int), len);
}

/// Law: normalising scales a vector to unit length, within fixed-point
/// rounding, for vectors whose norm is at least a hundredth of a unit.
/// (Below that threshold the rounded-down norm is too coarse to divide by:
/// a vector with all components at one fixed-point step has norm 1, and
/// normalising it returns a vector of length near 1.7.)
pub proof fn lemma_normalise_unit_length(v: Vec3)
    requires
        v.in_bounds(),
        v.spec_length() >= 10_000,
    ensures
        SCALE as int - 4 <= sqrt_floor(
            v.spec_normalise().0 * v.spec_normalise().0 + v.spec_normalise().1
                * v.spec_normalise().1 + v.spec_normalise().2 * v.spec_normalise().2,
        ) <= SCALE as int + 100,
{
    let s = SCALE as int;
    let raw = v.raw_norm2();
    lemma_square_nonneg(v.x as int);
    lemma_square_nonneg(v.y as int);
    lemma_square_nonneg(v.z as int);
    lemma_sqrt_floor_exists(raw);
    let len = v.spec_length();
    lemma_component_le_length(v.x as int, raw, len);
    lemma_component_le_length(v.y as int, raw, len);
    lemma_component_le_length(v.z as int, raw, len);
    lemma_normalise_component_fits(v.x as int, len);
    lemma_normalise_component_fits(v.y as int, len);
    lemma_normalise_component_fits(v.z as int, len);
    lemma_normalise_component_brackets(v.x as int, len);
    lemma_normalise_component_brackets(v.y as int, len);
    lemma_normalise_component_brackets(v.z as int, len);
    let n0 = v.spec_normalise().0;
    let n1 = v.spec_normalise().1;
    let n2 = v.spec_normalise().2;
    lemma_square_nonneg(n0);
    lemma_square_nonneg(n1);
    lemma_square_nonneg(n2);
    let m0 = abs_int(n0);
    let m1 = abs_int(n1);
    let m2 = abs_int(n2);
    let a0 = abs_int(v.x as int);
    let a1 = abs_int(v.y as int);
    let a2 = abs_int(v.z as int);
    let norm2 = n0 * n0 + n1 * n1 + n2 * n2;
    assert(norm2 == m0 * m0 + m1 * m1 + m2 * m2);
    assert(raw == a0 * a0 + a1 * a1 + a2 * a2);
    lemma_sqrt_floor_exists(norm2);
    let nn = sqrt_floor(norm2);

    // Upper bound: each |n_i| * len <= a_i * s, so norm2 * len^2 <= raw * s^2
    // and raw < (len + 1)^2, hence nn * len < (len + 1) * s.
    assert((m0 * len) * (m0 * len) <= (a0 * s) * (a0 * s)) by (nonlinear_arith)
        requires
            0 <= m0 * len <= a0 * s,
    ;
    assert((m1 * len) * (m1 * len) <= (a1 * s) * (a1 * s)) by (nonlinear_arith)
        requires
            0 <= m1 * len <= a1 * s,
    ;
    assert((m2 * len) * (m2 * len) <= (a2 * s) * (a2 * s)) by (nonlinear_arith)
        requires
            0 <= m2 * len <= a2 * s,
    ;
    assert((m0 * m0) * (len * len) == (m0 * len) * (m0 * len)) by (nonlinear_arith);
    assert((m1 * m1) * (len * len) == (m1 * len) * (m1 * len)) by (nonlinear_arith);
    assert((m2 * m2) * (len * len) == (m2 * len) * (m2 * len)) by (nonlinear_arith);
    assert((a0 * a0) * (s * s) == (a0 * s) * (a0 * s)) by (nonlinear_arith);
    assert((a1 * a1) * (s * s) == (a1 * s) * (a1 * s)) by (nonlinear_arith);
    assert((a2 * a2) * (s * s) == (a2 * s) * (a2 * s)) by (nonlinear_arith);
    assert((m0 * m0 + m1 * m1 + m2 * m2) * (len * len) == (m0 * m0) * (len * len) + (m1 * m1) * (
    len * len) + (m2 * m2) * (len * len)) by (nonlinear_arith);
    assert((a0 * a0 + a1 * a1 + a2 * a2) * (s * s) == (a0 * a0) * (s * s) + (a1 * a1) * (s * s) + (
    a2 * a2) * (s * s)) by (nonlinear_arith);
    assert(norm2 * (len * len) <= raw * (s * s));
    assert(raw * (s * s) < ((len + 1) * s) * ((len + 1) * s)) by (nonlinear_arith)
        requires
            raw < (len + 1) * (len + 1),
            0 < s,
    ;
    assert((nn * len) * (nn * len) <= norm2 * (len * len)) by (nonlinear_arith)
        requires
            nn * nn <= norm2,
            0 <= nn,
            0 <= len,
    ;
    assert(nn * len < (len + 1) * s) by (nonlinear_arith)
        requires
            (nn * len) * (nn * len) < ((len + 1) * s) * ((len + 1) * s),
            0 <= nn * len,
            0 < (len + 1) * s,
    ;
    if nn > s + 100 {
        assert(nn * len >= (s + 101) * len) by (nonlinear_arith)
            requires
                nn >= s + 101,
                0 < len,
        ;
        assert((s + 101) * len == s * len + 101 * len) by (nonlinear_arith);
        assert((len + 1) * s == len * s + s) by (nonlinear_arith);
        assert(s * len == len * s) by (nonlinear_arith);
        assert(101 * len >= 1_010_000);
        assert(false);
    }

    // Lower bound: each a_i * s < (|n_i| + 1) * len, so raw * s^2 is below
    // the expanded square sum, and raw >= len^2 forces norm2 > s^2 - 6s - 3.
    assert((a0 * s) * (a0 * s) < ((m0 + 1) * len) * ((m0 + 1) * len)) by (nonlinear_arith)
        requires
            0 <= a0 * s < (m0 + 1) * len,
    ;
    assert((a1 * s) * (a1 * s) < ((m1 + 1) * len) * ((m1 + 1) * len)) by (nonlinear_arith)
        requires
            0 <= a1 * s < (m1 + 1) * len,
    ;
    assert((a2 * s) * (a2 * s) < ((m2 + 1) * len) * ((m2 + 1) * len)) by (nonlinear_arith)
        requires
            0 <= a2 * s < (m2 + 1) * len,
    ;
    let expanded = (m0 + 1) * (m0 + 1) + (m1 + 1) * (m1 + 1) + (m2 + 1) * (m2 + 1);
    assert(((m0 + 1) * (m0 + 1)) * (len * len) == ((m0 + 1) * len) * ((m0 + 1) * len))
        by (nonlinear_arith);
    assert(((m1 + 1) * (m1 + 1)) * (len * len) == ((m1 + 1) * len) * ((m1 + 1) * len))
        by (nonlinear_arith);
    assert(((m2 + 1) * (m2 + 1)) * (len * len) == ((m2 + 1) * len) * ((m2 + 1) * len))
        by (nonlinear_arith);
    assert(expanded * (len * len) == ((m0 + 1) * (m0 + 1)) * (len * len) + ((m1 + 1) * (m1 + 1)) * (
    len * len) + ((m2 + 1) * (m2 + 1)) * (len * len)) by (nonlinear_arith)
        requires
            expanded == (m0 + 1) * (m0 + 1) + (m1 + 1) * (m1 + 1) + (m2 + 1) * (m2 + 1),
    ;
    assert(raw * (s * s) < expanded * (len * len));
    assert((len * len) * (s * s) <= raw * (s * s)) by (nonlinear_arith)
        requires
            len * len <= raw,
            0 <= s * s,
    ;
    assert(0 < len * len) by (nonlinear_arith)
        requires
            1 <= len,
    ;
    assert(s * s < expanded) by (nonlinear_arith)
        requires
            (len * len) * (s * s) < expanded * (len * len),
            0 < len * len,
    ;
    assert(expanded == norm2 + 2 * (m0 + m1 + m2) + 3) by (nonlinear_arith)
        requires
            norm2 == m0 * m0 + m1 * m1 + m2 * m2,
            expanded == (m0 + 1) * (m0 + 1) + (m1 + 1) * (m1 + 1) + (m2 + 1) * (m2 + 1),
    ;
    assert(norm2 > s * s - 6 * s - 3);
    if nn < s - 4 {
        assert((nn + 1) * (nn + 1) <= (s - 4) * (s - 4)) by (nonlinear_arith)
            requires
                0 <= nn + 1 <= s - 4,
        ;
        assert(false);
    }
}

/// Law: the dot product is commutative.
pub proof fn lemma_dot_commutes(a: Vec3, b: Vec3)
    ensures
        a.spec_dot(b) == b.spec_dot(a),
{
}

/// Law: the cross product is anticommutative — swapping the operands negates
/// every component.
pub proof fn lemma_cross_anticommutes(a: Vec3, b: Vec3)
    ensures
        a.spec_cross(b).0 == -b.spec_cross(a).0,
        a.spec_cross(b).1 == -b.spec_cross(a).1,
        a.spec_cross(b).2 == -b.spec_cross(a).2,
{
}

/// Law: the display mapping is monotonic — a brighter channel never maps to a
/// smaller display value.
pub proof fn lemma_display_channel_monotonic(c1: int, c2: int)
    requires
        c1 <= c2,
    ensures
        spec_display_channel(c1) <= spec_display_channel(c2),
{
    let m1 = if c1 < 0 {
        0int
    } else if c1 > CHANNEL_MAX as int {
        CHANNEL_MAX as int
    } else {
        c1
    };
    let m2 = if c2 < 0 {
        0int
    } else if c2 > CHANNEL_MAX as int {
        CHANNEL_MAX as int
    } else {
        c2
    };
    assert(0 <= m1 <= m2);
    lemma_sqrt_floor_exists(m1 * (SCALE as int));
    lemma_sqrt_floor_exists(m2 * (SCALE as int));
    lemma_sqrt_floor_monotonic(
        m1 * (SCALE as int),
        m2 * (SCALE as int),
        sqrt_floor(m1 * (SCALE as int)),
        sqrt_floor(m2 * (SCALE as int)),
    );
    lemma_div_is_ordered_wrapper(
        sqrt_floor(m1 * (SCALE as int)) * 256,
        sqrt_floor(m2 * (SCALE as int)) * 256,
        SCALE as int,
    );
}

/// Law: the display mapping is clamped — it stays within `[0, 255]`, maps
/// non-positive input to 0, and saturates at 255 from `0.999` squared upward.
pub proof fn lemma_display_channel_clamped(c: int)
    ensures
        0 <= spec_display_channel(c) <= 255,
        c <= 0 ==> spec_display_channel(c) == 0,
        c >= 998_001 ==> spec_display_channel(c) == 255,
{
    let m = if c < 0 {
        0int
    } else if c > CHANNEL_MAX as int {
        CHANNEL_MAX as int
    } else {
        c
    };
    lemma_sqrt_floor_exists(m * (SCALE as int));
    let w = sqrt_floor(m * (SCALE as int));
    assert(w <= 999_499) by (nonlinear_arith)
        requires
            is_sqrt_floor(m * (SCALE as int), w),
            0 <= m <= 999_000,
            SCALE == 1_000_000,
    ;
    lemma_div_is_ordered_wrapper(0, w * 256, SCALE as int);
    lemma_div_is_ordered_wrapper(w * 256, 255_871_744, SCALE as int);
    if c <= 0 {
        assert(m == 0);
        assert(w == 0) by (nonlinear_arith)
            requires
                is_sqrt_floor(0, w),
        ;
    }
    if c >= 998_001 {
        assert(m >= 998_001);
        assert(w >= 999_000) by (nonlinear_arith)
            requires
                is_sqrt_floor(m * (SCALE as int), w),
                998_001 <= m,
                SCALE == 1_000_000,
        ;
        lemma_div_is_ordered_wrapper(255_744_000, w * 256, SCALE as int);
    }
}

} // verus!
