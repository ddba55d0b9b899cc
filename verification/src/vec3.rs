//! Three-component fixed-point vectors.
//!
//! `Vec3` carries world coordinates in fixed-point steps (`1000` per unit).
//! Specifications speak of `V3`, the same triple over unbounded integers,
//! reached through the view `v@`.

use vstd::prelude::*;
use crate::fixed::FRAC;
use crate::fixed::fx_mul;
use crate::fixed::fx_mul_spec;
use crate::fixed::isqrt;
use crate::fixed::lemma_mul_abs_bound;
use crate::fixed::lemma_sqrt_floor_bounds;
use crate::fixed::lemma_tdiv_abs_le;
use crate::fixed::scale_div;
use crate::fixed::sqrt_floor;
use crate::fixed::tdiv;

verus! {

/// Largest component magnitude for which squared norms and scaled products
/// stay inside the machine integer range.
pub const COMPONENT_LIMIT: i64 = 0x4000_0000_0000_0000;

/// Fixed-point vector: each component counts thousandths of a world unit.
#[derive(Clone, Copy, PartialEq, Eq, Structural, Debug)]
pub struct Vec3 {
    pub x: i64,
    pub y: i64,
    pub z: i64,
}

/// Mathematical counterpart of `Vec3`: the same triple over `int`.
pub struct V3 {
    pub x: int,
    pub y: int,
    pub z: int,
}

impl View for Vec3 {
    type V = V3;

    open spec fn view(&self) -> V3 {
        V3 { x: self.x as int, y: self.y as int, z: self.z as int }
    }
}

pub open spec fn vzero() -> V3 {
    V3 { x: 0, y: 0, z: 0 }
}

pub open spec fn vadd(a: V3, b: V3) -> V3 {
    V3 { x: a.x + b.x, y: a.y + b.y, z: a.z + b.z }
}

pub open spec fn vsub(a: V3, b: V3) -> V3 {
    V3 { x: a.x - b.x, y: a.y - b.y, z: a.z - b.z }
}

/// Componentwise fixed-point scaling by `s`.
pub open spec fn vscale(a: V3, s: int) -> V3 {
    V3 { x: fx_mul_spec(a.x, s), y: fx_mul_spec(a.y, s), z: fx_mul_spec(a.z, s) }
}

pub open spec fn norm_sq(a: V3) -> int {
    a.x * a.x + a.y * a.y + a.z * a.z
}

/// Euclidean length, rounded down to a whole fixed-point step.
pub open spec fn norm(a: V3) -> int {
    sqrt_floor(norm_sq(a))
}

/// Rescaling of `a` to length `len`: each component becomes
/// `a * len / |a|`, truncated toward zero.
pub open spec fn vnormalize_to(a: V3, len: int) -> V3 {
    V3 {
        x: tdiv(a.x * len, norm(a)),
        y: tdiv(a.y * len, norm(a)),
        z: tdiv(a.z * len, norm(a)),
    }
}

/// The `Vec3` holding a mathematical triple whose components fit `i64`.
pub open spec fn v3_to_vec3(v: V3) -> Vec3 {
    Vec3 { x: v.x as i64, y: v.y as i64, z: v.z as i64 }
}

/// A vector whose view is `w` is exactly the `Vec3` form of `w`.
pub proof fn lemma_view_roundtrip(v: Vec3, w: V3)
    requires
        v@ == w,
    ensures
        v == v3_to_vec3(w),
{
}

/// Every component of `a` lies within `b` of zero.
pub open spec fn vec_bounded(a: V3, b: int) -> bool {
    -b <= a.x <= b && -b <= a.y <= b && -b <= a.z <= b
}

/// A squared norm is never negative and dominates each component's square.
pub proof fn lemma_norm_sq_bounds(a: V3)
    ensures
        norm_sq(a) >= a.x * a.x >= 0,
        norm_sq(a) >= a.y * a.y >= 0,
        norm_sq(a) >= a.z * a.z >= 0,
        norm_sq(a) >= 0,
{
    assert(a.x * a.x >= 0 && a.y * a.y >= 0 && a.z * a.z >= 0) by (nonlinear_arith);
}

/// No component magnitude exceeds the vector's norm.
pub proof fn lemma_component_le_norm(a: V3)
    ensures
        -norm(a) <= a.x <= norm(a),
        -norm(a) <= a.y <= norm(a),
        -norm(a) <= a.z <= norm(a),
{
    lemma_norm_sq_bounds(a);
    lemma_sqrt_floor_bounds(norm_sq(a));
    lemma_sq_dominated(a.x, norm(a), norm_sq(a));
    lemma_sq_dominated(a.y, norm(a), norm_sq(a));
    lemma_sq_dominated(a.z, norm(a), norm_sq(a));
}

/// If `c * c` stays under a bound that `(s + 1) * (s + 1)` exceeds,
/// then `c` lies within `s` of zero.
proof fn lemma_sq_dominated(c: int, s: int, n: int)
    requires
        s >= 0,
        c * c <= n,
        n < (s + 1) * (s + 1),
    ensures
        -s <= c <= s,
{
    if c > s || c < -s {
        assert(c * c >= (s + 1) * (s + 1)) by (nonlinear_arith)
            requires
                s >= 0,
                c > s || c < -s,
        ;
    }
}

impl Vec3 {
    pub fn new(x: i64, y: i64, z: i64) -> (r: Vec3)
        ensures
            r@ == (V3 { x: x as int, y: y as int, z: z as int }),
    {
        Vec3 { x, y, z }
    }

    /// Componentwise sum.
    pub fn add_v(&self, other: &Vec3) -> (r: Vec3)
        requires
            i64::MIN <= self@.x + other@.x <= i64::MAX,
            i64::MIN <= self@.y + other@.y <= i64::MAX,
            i64::MIN <= self@.z + other@.z <= i64::MAX,
        ensures
            r@ == vadd(self@, other@),
    {
        Vec3 { x: self.x + other.x, y: self.y + other.y, z: self.z + other.z }
    }

    /// Componentwise difference.
    pub fn sub_v(&self, other: &Vec3) -> (r: Vec3)
        requires
            i64::MIN <= self@.x - other@.x <= i64::MAX,
            i64::MIN <= self@.y - other@.y <= i64::MAX,
            i64::MIN <= self@.z - other@.z <= i64::MAX,
        ensures
            r@ == vsub(self@, other@),
    {
        Vec3 { x: self.x - other.x, y: self.y - other.y, z: self.z - other.z }
    }

    /// Fixed-point scaling: each component becomes `c * s / FRAC`.
    pub fn mul_s(&self, s: i64) -> (r: Vec3)
        requires
            -(i64::MAX as int) <= fx_mul_spec(self@.x, s as int) <= i64::MAX as int,
            -(i64::MAX as int) <= fx_mul_spec(self@.y, s as int) <= i64::MAX as int,
            -(i64::MAX as int) <= fx_mul_spec(self@.z, s as int) <= i64::MAX as int,
        ensures
            r@ == vscale(self@, s as int),
    {
        Vec3 { x: fx_mul(self.x, s), y: fx_mul(self.y, s), z: fx_mul(self.z, s) }
    }

    /// Euclidean length in fixed-point steps, rounded down.
    pub fn length(&self) -> (r: i64)
        requires
            vec_bounded(self@, COMPONENT_LIMIT as int),
        ensures
            r == norm(self@),
            r >= 0,
    {
        proof {
            lemma_mul_abs_bound(self@.x, self@.x, COMPONENT_LIMIT as int, COMPONENT_LIMIT as int);
            lemma_mul_abs_bound(self@.y, self@.y, COMPONENT_LIMIT as int, COMPONENT_LIMIT as int);
            lemma_mul_abs_bound(self@.z, self@.z, COMPONENT_LIMIT as int, COMPONENT_LIMIT as int);
            lemma_norm_sq_bounds(self@);
        }
        let xx: i128 = (self.x as i128) * (self.x as i128);
        let yy: i128 = (self.y as i128) * (self.y as i128);
        let zz: i128 = (self.z as i128) * (self.z as i128);
        let sum: u128 = (xx as u128) + (yy as u128) + (zz as u128);
        let root = isqrt(sum);
        proof {
            lemma_sqrt_floor_bounds(sum as int);
            assert(norm(self@) * norm(self@) <= 3 * (COMPONENT_LIMIT as int) * (COMPONENT_LIMIT
                as int));
            assert(norm(self@) <= i64::MAX) by (nonlinear_arith)
                requires
                    norm(self@) >= 0,
                    norm(self@) * norm(self@) <= 3 * (COMPONENT_LIMIT as int) * (COMPONENT_LIMIT
                        as int),
            ;
        }
        root as i64
    }

    /// Rescale to length `len`, truncating each component toward zero.
    /// The result's components never exceed `len` in magnitude.
    pub fn normalize_to(&self, len: i64) -> (r: Vec3)
        requires
            vec_bounded(self@, COMPONENT_LIMIT as int),
            norm(self@) >= 1,
            0 <= len <= COMPONENT_LIMIT,
        ensures
            r@ == vnormalize_to(self@, len as int),
            vec_bounded(r@, len as int),
    {
        proof {
            lemma_component_le_norm(self@);
            lemma_normalize_bounded(self@, len as int);
        }
        let n = self.length();
        Vec3 {
            x: scale_div(self.x, len, n),
            y: scale_div(self.y, len, n),
            z: scale_div(self.z, len, n),
        }
    }
}

/// Rescaling to length `len` keeps every component within `len` of zero.
pub proof fn lemma_normalize_bounded(a: V3, len: int)
    requires
        norm(a) >= 1,
        len >= 0,
    ensures
        vec_bounded(vnormalize_to(a, len), len),
{
    lemma_component_le_norm(a);
    lemma_scaled_component_bounded(a.x, len, norm(a));
    lemma_scaled_component_bounded(a.y, len, norm(a));
    lemma_scaled_component_bounded(a.z, len, norm(a));
}

/// A component within `s` of zero, scaled by `len / s`, stays within `len`.
proof fn lemma_scaled_component_bounded(c: int, len: int, s: int)
    requires
        s >= 1,
        len >= 0,
        -s <= c <= s,
    ensures
        -len <= tdiv(c * len, s) <= len,
{
    assert(-(s * len) <= c * len <= s * len) by (nonlinear_arith)
        requires
            -s <= c <= s,
            len >= 0,
    ;
    lemma_tdiv_abs_le(c * len, s);
    if c * len >= 0 {
        assert(tdiv(c * len, s) == (c * len) / s);
        assert((c * len) / s <= len) by (nonlinear_arith)
            requires
                s >= 1,
                c * len <= s * len,
                c * len >= 0,
                len >= 0,
        ;
    } else {
        assert(tdiv(c * len, s) == -((-(c * len)) / s));
        assert((-(c * len)) / s <= len) by (nonlinear_arith)
            requires
                s >= 1,
                -(c * len) <= s * len,
                -(c * len) >= 0,
                len >= 0,
        ;
    }
}

} // verus!
