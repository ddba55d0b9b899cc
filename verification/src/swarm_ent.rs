//! A swarm particle: identity, position and velocity, with one
//! semi-implicit integration step.

use vstd::prelude::*;
use crate::fixed::lemma_fx_mul_div_bound;
use crate::vec3::Vec3;
use crate::vec3::vadd;
use crate::vec3::vec_bounded;
use crate::vec3::vscale;

verus! {

/// Longest time step one integration accepts: 16 units.
pub const INTEGRATE_DT_LIMIT: i64 = 16000;

/// Largest acceleration component one integration accepts.
pub const INTEGRATE_ACCEL_LIMIT: i64 = 0x40_0000_0000_0000;

/// Largest velocity component one integration accepts.
pub const INTEGRATE_VEL_LIMIT: i64 = 0x40_0000_0000_0000;

/// Largest position component one integration accepts.
pub const INTEGRATE_POS_LIMIT: i64 = 0x2000_0000_0000_0000;

/// Velocity components stay within this bound after one integration step
/// from inputs within the limits above.
pub const INTEGRATE_VEL_OUT: i64 = 0x440_0000_0000_0000;

/// Position components stay within this bound after one integration step
/// from inputs within the limits above.
pub const INTEGRATE_POS_OUT: i64 = 0x6400_0000_0000_0000;

/// One particle of the swarm.
#[derive(Clone, Copy, PartialEq, Eq, Structural, Debug)]
pub struct SwarmEnt {
    pub id: usize,
    pub pos: Vec3,
    pub vel: Vec3,
}

impl SwarmEnt {
    /// One semi-implicit integration step: the velocity moves first by
    /// `accel * dt`, and the position then moves by the *new* velocity
    /// times `dt`. The order is load-bearing for stability.
    pub fn integrate(&mut self, delta_t: i64, accel: Vec3)
        requires
            0 <= delta_t <= INTEGRATE_DT_LIMIT,
            vec_bounded(accel@, INTEGRATE_ACCEL_LIMIT as int),
            vec_bounded(old(self).vel@, INTEGRATE_VEL_LIMIT as int),
            vec_bounded(old(self).pos@, INTEGRATE_POS_LIMIT as int),
        ensures
            final(self).id == old(self).id,
            final(self).vel@ == vadd(old(self).vel@, vscale(accel@, delta_t as int)),
            final(self).pos@ == vadd(old(self).pos@, vscale(final(self).vel@, delta_t as int)),
            vec_bounded(final(self).vel@, INTEGRATE_VEL_OUT as int),
            vec_bounded(final(self).pos@, INTEGRATE_POS_OUT as int),
    {
        proof {
            lemma_fx_mul_div_bound(
                accel@.x,
                delta_t as int,
                INTEGRATE_ACCEL_LIMIT as int,
                INTEGRATE_DT_LIMIT as int,
            );
            lemma_fx_mul_div_bound(
                accel@.y,
                delta_t as int,
                INTEGRATE_ACCEL_LIMIT as int,
                INTEGRATE_DT_LIMIT as int,
            );
            lemma_fx_mul_div_bound(
                accel@.z,
                delta_t as int,
                INTEGRATE_ACCEL_LIMIT as int,
                INTEGRATE_DT_LIMIT as int,
            );
        }
        self.vel = self.vel.add_v(&accel.mul_s(delta_t));
        proof {
            lemma_fx_mul_div_bound(
                self.vel@.x,
                delta_t as int,
                INTEGRATE_VEL_OUT as int,
                INTEGRATE_DT_LIMIT as int,
            );
            lemma_fx_mul_div_bound(
                self.vel@.y,
                delta_t as int,
                INTEGRATE_VEL_OUT as int,
                INTEGRATE_DT_LIMIT as int,
            );
            lemma_fx_mul_div_bound(
                self.vel@.z,
                delta_t as int,
                INTEGRATE_VEL_OUT as int,
                INTEGRATE_DT_LIMIT as int,
            );
        }
        self.pos = self.pos.add_v(&self.vel.mul_s(delta_t));
    }
}

} // verus!
