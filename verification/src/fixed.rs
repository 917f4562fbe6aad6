//! Fixed-point scalars and three-component vectors.
use vstd::prelude::*;

verus! {

/// Steps per world unit, per second and per unit of force.
pub const UNIT: i64 = 1_000_000;

/// `v` brought into the range of `i64`.
pub open spec fn clamp64(v: int) -> int {
    if v < i64::MIN {
        i64::MIN as int
    } else if v > i64::MAX {
        i64::MAX as int
    } else {
        v
    }
}

/// The product of `d` and the fixed-point factor `t`, rounded toward zero.
pub open spec fn scaled(d: int, t: int) -> int {
    if d * t >= 0 {
        (d * t) / (UNIT as int)
    } else {
        -((-(d * t)) / (UNIT as int))
    }
}

/// Computes `clamp64`.
pub fn clamp_to_i64(v: i128) -> (r: i64)
    ensures
        r == clamp64(v as int),
{
    if v < i64::MIN as i128 {
        i64::MIN
    } else if v > i64::MAX as i128 {
        i64::MAX
    } else {
        v as i64
    }
}

/// Computes `scaled` for a difference of two `i64` values.
fn scale(d: i128, t: i64) -> (r: i128)
    requires
        -0x1_0000_0000_0000_0000 < d < 0x1_0000_0000_0000_0000,
    ensures
        r == scaled(d as int, t as int),
        -0x1000_0000_0000_0000_0000_0000_0000 < r < 0x1000_0000_0000_0000_0000_0000_0000,
{
    assert(-0x8000_0000_0000_0000_0000_0000_0000_0000 < d * t
        < 0x8000_0000_0000_0000_0000_0000_0000_0000) by (nonlinear_arith)
        requires
            -0x1_0000_0000_0000_0000 < d < 0x1_0000_0000_0000_0000,
            -0x8000_0000_0000_0000 <= t < 0x8000_0000_0000_0000,
    ;
    let p: i128 = d * (t as i128);
    if p >= 0 {
        p / (UNIT as i128)
    } else {
        -((-p) / (UNIT as i128))
    }
}

/// The fixed-point product of a rate and a time span, kept within `i64`.
pub open spec fn rate_times(rate: i64, span: u32) -> int {
    clamp64(scaled(rate as int, span as int))
}

/// Computes `rate_times`.
pub fn rate_over(rate: i64, span: u32) -> (r: i64)
    ensures
        r == rate_times(rate, span),
{
    clamp_to_i64(scale(rate as i128, span as i64))
}

/// The sum of two coordinates, kept within `i64`.
pub open spec fn sum_coord(a: i64, b: i64) -> int {
    clamp64(a + b)
}

/// The point at fraction `t` of the way from `a` to `b`, kept within `i64`.
/// A `t` outside of `0..=UNIT` extrapolates.
pub open spec fn lerp_coord(a: i64, b: i64, t: i64) -> int {
    clamp64(a + scaled(b - a, t as int))
}

/// A point, an offset, a force or an impulse in fixed-point steps.
#[derive(Clone, Copy, Debug, PartialEq, Eq, Structural)]
pub struct Vec3 {
    pub x: i64,
    pub y: i64,
    pub z: i64,
}

impl Vec3 {
    /// The component-wise saturating sum.
    pub open spec fn spec_saturating_add(self, rhs: Vec3) -> Vec3 {
        Vec3 {
            x: sum_coord(self.x, rhs.x) as i64,
            y: sum_coord(self.y, rhs.y) as i64,
            z: sum_coord(self.z, rhs.z) as i64,
        }
    }

    /// The component-wise interpolation from `self` toward `rhs`.
    pub open spec fn spec_lerp(self, rhs: Vec3, t: i64) -> Vec3 {
        Vec3 {
            x: lerp_coord(self.x, rhs.x, t) as i64,
            y: lerp_coord(self.y, rhs.y, t) as i64,
            z: lerp_coord(self.z, rhs.z, t) as i64,
        }
    }

    /// The vector with the given components.
    pub fn new(x: i64, y: i64, z: i64) -> (v: Vec3)
        ensures
            v == (Vec3 { x, y, z }),
    {
        Vec3 { x, y, z }
    }

    /// Adds component by component; a sum beyond the range of `i64` stops
    /// at the range's end.
    #[verifier::when_used_as_spec(spec_saturating_add)]
    pub fn saturating_add(self, rhs: Vec3) -> (v: Vec3)
        ensures
            v == self.spec_saturating_add(rhs),
    {
        Vec3 {
            x: clamp_to_i64(self.x as i128 + rhs.x as i128),
            y: clamp_to_i64(self.y as i128 + rhs.y as i128),
            z: clamp_to_i64(self.z as i128 + rhs.z as i128),
        }
    }

    /// Moves the fraction `t` of the way from `self` to `rhs`, component by
    /// component. The step is rounded toward zero, and a result beyond the
    /// range of `i64` stops at the range's end.
    #[verifier::when_used_as_spec(spec_lerp)]
    pub fn lerp(self, rhs: Vec3, t: i64) -> (v: Vec3)
        ensures
            v == self.spec_lerp(rhs, t),
    {
        Vec3 {
            x: lerp_one(self.x, rhs.x, t),
            y: lerp_one(self.y, rhs.y, t),
            z: lerp_one(self.z, rhs.z, t),
        }
    }
}

/// Computes `lerp_coord`.
pub fn lerp_one(a: i64, b: i64, t: i64) -> (r: i64)
    ensures
        r == lerp_coord(a, b, t),
{
    let step: i128 = scale(b as i128 - a as i128, t);
    clamp_to_i64(a as i128 + step)
}

} // verus!
