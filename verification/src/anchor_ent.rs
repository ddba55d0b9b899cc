//! The central force field: a stateless attractor that pulls any point
//! toward an idle-distance shell around a fixed anchor position, with a
//! velocity-damping term.

use vstd::prelude::*;
use crate::fixed::fx_mul_spec;
use crate::fixed::lemma_fx_mul_div_bound;
use crate::fixed::lemma_tdiv_exact;
use crate::fixed::lemma_sqrt_floor_bounds;
use crate::vec3::V3;
use crate::vec3::Vec3;
use crate::vec3::norm;
use crate::vec3::norm_sq;
use crate::vec3::vec_bounded;
use crate::vec3::vnormalize_to;
use crate::vec3::vscale;
use crate::vec3::vsub;
use crate::vec3::vzero;

verus! {

/// Radius of the force-neutral shell around the anchor: 15 units.
pub const ANCHOR_FIELD_LEN: i64 = 15000;

/// Linear gain of the restoring force: 15 per unit of deviation.
pub const ANCHOR_FIELD_STR: i64 = 15000;

/// Velocity damping coefficient: 0.2.
pub const ANCHOR_FIELD_DAMP: i64 = 200;

/// Largest anchor or query coordinate the force computation accepts.
pub const ANCHOR_COORD_LIMIT: i64 = 0x100_0000_0000;

/// Largest shell radius or force gain the force computation accepts.
pub const ANCHOR_PARAM_LIMIT: i64 = 0x10_0000;

/// Every component of the force returned by `force_at` stays within this
/// bound when the anchor is well formed and the query point is in range.
pub const ANCHOR_FORCE_LIMIT: i64 = 0x10_0000_0000_0000;

pub struct AnchorEnt {
    pub pos: Vec3,
    pub strength: i64,
    pub distance: i64,
}

impl AnchorEnt {
    /// Parameter ranges under which every force computation stays exact.
    pub open spec fn wf(&self) -> bool {
        &&& vec_bounded(self.pos@, ANCHOR_COORD_LIMIT as int)
        &&& 0 <= self.strength <= ANCHOR_PARAM_LIMIT
        &&& 1 <= self.distance <= ANCHOR_PARAM_LIMIT
    }

    pub open spec fn spec_pos(&self) -> V3 {
        self.pos@
    }

    pub open spec fn spec_strength(&self) -> int {
        self.strength as int
    }

    pub open spec fn spec_distance(&self) -> int {
        self.distance as int
    }

    /// The idle offset for a displacement `delta` from the query point to
    /// the anchor: `delta` rescaled to the shell radius, or the canonical
    /// `+x` offset when `delta` is exactly zero.
    pub open spec fn idle_offset_spec(&self, delta: V3) -> V3 {
        if delta == vzero() {
            V3 { x: self.distance as int, y: 0, z: 0 }
        } else {
            vnormalize_to(delta, self.distance as int)
        }
    }

    /// The undamped force on a point: the deviation of the displacement
    /// from its idle offset, scaled by the field strength.
    pub open spec fn force_spec(&self, other_pos: V3) -> V3 {
        vscale(
            vsub(vsub(self.pos@, other_pos), self.idle_offset_spec(vsub(self.pos@, other_pos))),
            self.strength as int,
        )
    }

    /// The force with the damping term: `force - velocity * damping`.
    pub open spec fn damped_force_spec(&self, other_pos: V3, other_vel: V3) -> V3 {
        vsub(self.force_spec(other_pos), vscale(other_vel, ANCHOR_FIELD_DAMP as int))
    }

    /// Anchor at the origin with the stock shell radius and gain.
    pub fn default() -> (r: AnchorEnt)
        ensures
            r.wf(),
            r.spec_pos() == vzero(),
            r.spec_strength() == ANCHOR_FIELD_STR as int,
            r.spec_distance() == ANCHOR_FIELD_LEN as int,
    {
        AnchorEnt {
            pos: Vec3::new(0, 0, 0),
            strength: ANCHOR_FIELD_STR,
            distance: ANCHOR_FIELD_LEN,
        }
    }

    /// The undamped restoring force at `other_pos`: zero exactly on the
    /// idle shell, pointing toward the shell elsewhere, linear in the
    /// deviation from the shell.
    pub fn force_at(&self, other_pos: Vec3) -> (r: Vec3)
        requires
            self.wf(),
            vec_bounded(other_pos@, ANCHOR_COORD_LIMIT as int),
        ensures
            r@ == self.force_spec(other_pos@),
            vec_bounded(r@, ANCHOR_FORCE_LIMIT as int),
    {
        let delta = self.pos.sub_v(&other_pos);
        proof {
            lemma_force_parts_bounded(*self, other_pos@);
        }
        let idle_pos = if delta.x == 0 && delta.y == 0 && delta.z == 0 {
            Vec3::new(self.distance, 0, 0)
        } else {
            proof {
                lemma_nonzero_norm_positive(delta@);
            }
            delta.normalize_to(self.distance)
        };
        delta.sub_v(&idle_pos).mul_s(self.strength)
    }

    /// The restoring force less `other_vel` times the damping coefficient.
    pub fn damped_force_at(&self, other_pos: Vec3, other_vel: Vec3) -> (r: Vec3)
        requires
            self.wf(),
            vec_bounded(other_pos@, ANCHOR_COORD_LIMIT as int),
            vec_bounded(other_vel@, ANCHOR_COORD_LIMIT as int),
        ensures
            r@ == self.damped_force_spec(other_pos@, other_vel@),
            vec_bounded(r@, ANCHOR_FORCE_LIMIT as int + ANCHOR_COORD_LIMIT as int),
    {
        proof {
            lemma_fx_mul_div_bound(
                other_vel@.x,
                ANCHOR_FIELD_DAMP as int,
                ANCHOR_COORD_LIMIT as int,
                ANCHOR_FIELD_DAMP as int,
            );
            lemma_fx_mul_div_bound(
                other_vel@.y,
                ANCHOR_FIELD_DAMP as int,
                ANCHOR_COORD_LIMIT as int,
                ANCHOR_FIELD_DAMP as int,
            );
            lemma_fx_mul_div_bound(
                other_vel@.z,
                ANCHOR_FIELD_DAMP as int,
                ANCHOR_COORD_LIMIT as int,
                ANCHOR_FIELD_DAMP as int,
            );
        }
        let damping_factor = other_vel.mul_s(ANCHOR_FIELD_DAMP);
        self.force_at(other_pos).sub_v(&damping_factor)
    }
}

/// A vector that is not exactly zero has norm at least one.
pub proof fn lemma_nonzero_norm_positive(a: V3)
    requires
        a != vzero(),
    ensures
        norm(a) >= 1,
{
    assert(norm_sq(a) >= 1) by (nonlinear_arith)
        requires
            a.x != 0 || a.y != 0 || a.z != 0,
    ;
    lemma_sqrt_floor_bounds(norm_sq(a));
    assert(norm(a) >= 1) by (nonlinear_arith)
        requires
            norm(a) >= 0,
            norm_sq(a) >= 1,
            norm_sq(a) < (norm(a) + 1) * (norm(a) + 1),
    ;
}

/// Intermediate bounds for the force computation: the displacement, the
/// idle offset, their difference, and the scaled result all fit.
proof fn lemma_force_parts_bounded(a: AnchorEnt, p: V3)
    requires
        a.wf(),
        vec_bounded(p, ANCHOR_COORD_LIMIT as int),
    ensures
        vec_bounded(vsub(a.spec_pos(), p), 2 * ANCHOR_COORD_LIMIT as int),
        vec_bounded(a.idle_offset_spec(vsub(a.spec_pos(), p)), ANCHOR_PARAM_LIMIT as int),
        vec_bounded(
            vsub(
                vsub(a.spec_pos(), p),
                a.idle_offset_spec(vsub(a.spec_pos(), p)),
            ),
            2 * ANCHOR_COORD_LIMIT as int + ANCHOR_PARAM_LIMIT as int,
        ),
        vec_bounded(a.force_spec(p), ANCHOR_FORCE_LIMIT as int),
{
    let delta = vsub(a.spec_pos(), p);
    if delta == vzero() {
    } else {
        lemma_nonzero_norm_positive(delta);
        crate::vec3::lemma_normalize_bounded(delta, a.spec_distance());
    }
    let dev = vsub(delta, a.idle_offset_spec(delta));
    let lim: int = 2 * ANCHOR_COORD_LIMIT as int + ANCHOR_PARAM_LIMIT as int;
    lemma_fx_mul_div_bound(dev.x, a.spec_strength(), lim, ANCHOR_PARAM_LIMIT as int);
    lemma_fx_mul_div_bound(dev.y, a.spec_strength(), lim, ANCHOR_PARAM_LIMIT as int);
    lemma_fx_mul_div_bound(dev.z, a.spec_strength(), lim, ANCHOR_PARAM_LIMIT as int);
}

/// On the idle shell the force vanishes: a point whose displacement from
/// the anchor has norm exactly the shell radius feels a zero force,
/// whatever its direction.
pub proof fn lemma_idle_shell_force(a: AnchorEnt, p: V3)
    requires
        a.wf(),
        norm(vsub(a.spec_pos(), p)) == a.spec_distance(),
    ensures
        a.force_spec(p) == vzero(),
{
    let delta = vsub(a.spec_pos(), p);
    lemma_sqrt_floor_bounds(norm_sq(delta));
    assert(delta != vzero()) by {
        if delta == vzero() {
            assert(norm_sq(delta) == 0) by (nonlinear_arith)
                requires
                    delta.x == 0,
                    delta.y == 0,
                    delta.z == 0,
            ;
            crate::fixed::lemma_sqrt_floor_unique(0, 0);
        }
    }
    let idle = a.idle_offset_spec(delta);
    lemma_tdiv_exact(delta.x, a.spec_distance());
    lemma_tdiv_exact(delta.y, a.spec_distance());
    lemma_tdiv_exact(delta.z, a.spec_distance());
    assert(idle == delta);
    assert(fx_mul_spec(0, a.spec_strength()) == 0);
}

/// At the anchor position itself the displacement is zero, the canonical
/// `+x` idle offset applies, and the force has magnitude
/// `strength * distance` (in fixed point) along `-x`.
pub proof fn lemma_anchor_point_force(a: AnchorEnt)
    requires
        a.wf(),
    ensures
        a.force_spec(a.spec_pos()) == (V3 {
            x: -fx_mul_spec(a.spec_distance(), a.spec_strength()),
            y: 0,
            z: 0,
        }),
{
    let delta = vsub(a.spec_pos(), a.spec_pos());
    assert(delta == vzero());
    assert((-a.spec_distance()) * a.spec_strength() == -(a.spec_distance()
        * a.spec_strength())) by (nonlinear_arith);
    assert(fx_mul_spec(0, a.spec_strength()) == 0);
}

} // verus!
