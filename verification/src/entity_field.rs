//! The simulation orchestrator: the anchor force field, the deformable
//! terrain, and the particle swarm, advanced one tick at a time, with
//! pairwise collision detection and iterative resolution.

use vstd::prelude::*;
use crate::anchor_ent::AnchorEnt;
use crate::fixed::lemma_fx_mul_div_bound;
use crate::fixed::lemma_sqrt_floor_bounds;
use crate::fixed::lemma_sqrt_floor_unique;
use crate::fixed::lemma_tdiv_exact;
use crate::fixed::tdiv;
use crate::swarm_ent::SwarmEnt;
use crate::vec3::V3;
use crate::vec3::Vec3;
use crate::vec3::norm;
use crate::vec3::v3_to_vec3;
use crate::vec3::norm_sq;
use crate::vec3::vadd;
use crate::vec3::vec_bounded;
use crate::vec3::vnormalize_to;
use crate::vec3::vscale;
use crate::vec3::vsub;
use crate::vec3::vzero;
use crate::world_manifold::Deformation;
use crate::world_manifold::WorldManifold;
use crate::world_manifold::FieldError;
use crate::world_manifold::cell_of;

verus! {

/// Field strength each particle presses into the terrain every tick.
pub const SWARM_FIELD_STR: i64 = 100;

/// Two particles closer than this collide: 2 units.
pub const COLL_DIAMETER: i64 = 2000;

/// Extra separation margin on resolution, 5% of the diameter, against
/// immediate re-collision.
pub const COLL_PADDING: i64 = 100;

/// Upper bound on resolution passes per tick: a deliberate cost cap, not
/// a full constraint solver.
pub const MAX_RESOLUTION_PASSES: usize = 5;

/// Largest swarm the resolver accepts.
pub const MAX_SWARM: usize = 4096;

/// Largest particle coordinate collision detection accepts: the squared
/// pair distance must fit the exact arithmetic.
pub const DETECT_COORD_LIMIT: i64 = 0x2000_0000_0000_0000;

/// An unordered overlap between two distinct particles, stored with the
/// smaller identity first.
#[derive(Clone, Copy, PartialEq, Eq, Structural, Debug)]
pub struct Collision {
    pub ent1_id: usize,
    pub ent2_id: usize,
}

/// The whole simulation state.
pub struct EntityField {
    pub anchor: AnchorEnt,
    pub world: WorldManifold,
    pub swarm: Vec<SwarmEnt>,
}

/// Two particles overlap: their squared distance is under the squared
/// collision diameter.
pub open spec fn collides(a: SwarmEnt, b: SwarmEnt) -> bool {
    norm_sq(vsub(a.pos@, b.pos@)) < (COLL_DIAMETER as int) * (COLL_DIAMETER as int)
}

/// The collisions of particle `i` against partners `j, j+1, ...` in
/// ascending order.
pub open spec fn row_pairs(s: Seq<SwarmEnt>, i: int, j: int) -> Seq<Collision>
    decreases s.len() - j,
{
    if j >= s.len() || j < 0 {
        Seq::empty()
    } else if 0 <= i < s.len() && collides(s[i], s[j]) {
        seq![(Collision { ent1_id: i as usize, ent2_id: j as usize })] + row_pairs(s, i, j + 1)
    } else {
        row_pairs(s, i, j + 1)
    }
}

/// All collisions with first index at least `i`, in ascending
/// lexicographic order.
pub open spec fn collisions_from(s: Seq<SwarmEnt>, i: int) -> Seq<Collision>
    decreases s.len() - i,
{
    if i >= s.len() || i < 0 {
        Seq::empty()
    } else {
        row_pairs(s, i, i + 1) + collisions_from(s, i + 1)
    }
}

/// Every colliding unordered pair exactly once, each with the smaller
/// index first, in ascending lexicographic order of indices.
pub open spec fn collisions_spec(s: Seq<SwarmEnt>) -> Seq<Collision> {
    collisions_from(s, 0)
}

/// Entries of one row enumeration: first index fixed at `i`, partners at
/// least `j`, every pair a real collision.
pub proof fn lemma_row_pairs_props(s: Seq<SwarmEnt>, i: int, j: int)
    requires
        s.len() <= usize::MAX,
        0 <= i < s.len(),
        i < j,
    ensures
        forall|k: int|
            0 <= k < row_pairs(s, i, j).len() ==> (#[trigger] row_pairs(s, i, j)[k]).ent1_id == i
                && j <= row_pairs(s, i, j)[k].ent2_id < s.len() && i < row_pairs(s, i, j)[k].ent2_id
                && collides(s[i], s[row_pairs(s, i, j)[k].ent2_id as int]),
    decreases s.len() - j,
{
    if j >= s.len() {
    } else {
        lemma_row_pairs_props(s, i, j + 1);
        let r = row_pairs(s, i, j);
        let rest = row_pairs(s, i, j + 1);
        if collides(s[i], s[j]) {
            assert forall|k: int|
                0 <= k < r.len() implies (#[trigger] r[k]).ent1_id == i && j <= r[k].ent2_id
                < s.len() && i < r[k].ent2_id && collides(s[i], s[r[k].ent2_id as int]) by {
                if k == 0 {
                    assert(r[0] == (Collision { ent1_id: i as usize, ent2_id: j as usize }));
                } else {
                    assert(r[k] == rest[k - 1]);
                }
            }
        }
    }
}

/// Entries of the full enumeration: ordered indices inside the swarm,
/// every pair a real collision.
pub proof fn lemma_collisions_from_props(s: Seq<SwarmEnt>, i: int)
    requires
        s.len() <= usize::MAX,
        0 <= i,
    ensures
        forall|k: int|
            0 <= k < collisions_from(s, i).len() ==> i <= (#[trigger] collisions_from(s, i)[k]).ent1_id
                && collisions_from(s, i)[k].ent1_id < collisions_from(s, i)[k].ent2_id
                && collisions_from(s, i)[k].ent2_id < s.len() && collides(
                s[collisions_from(s, i)[k].ent1_id as int],
                s[collisions_from(s, i)[k].ent2_id as int],
            ),
    decreases s.len() - i,
{
    if i >= s.len() {
    } else {
        lemma_row_pairs_props(s, i, i + 1);
        lemma_collisions_from_props(s, i + 1);
        let r = collisions_from(s, i);
        let left = row_pairs(s, i, i + 1);
        let rest = collisions_from(s, i + 1);
        assert forall|k: int|
            0 <= k < r.len() implies i <= (#[trigger] r[k]).ent1_id && r[k].ent1_id
            < r[k].ent2_id && r[k].ent2_id < s.len() && collides(
            s[r[k].ent1_id as int],
            s[r[k].ent2_id as int],
        ) by {
            if k < left.len() {
                assert(r[k] == left[k]);
            } else {
                assert(r[k] == rest[k - left.len()]);
            }
        }
    }
}

/// Collision pairing: no detected pair relates a particle to itself, and
/// no two detected pairs are the same unordered pair — in particular the
/// enumeration never holds both `(i, j)` and `(j, i)`.
pub proof fn lemma_collision_pairing(s: Seq<SwarmEnt>, k1: int, k2: int)
    requires
        s.len() <= usize::MAX,
        0 <= k1 < collisions_spec(s).len(),
        0 <= k2 < collisions_spec(s).len(),
    ensures
        collisions_spec(s)[k1].ent1_id != collisions_spec(s)[k1].ent2_id,
        !(collisions_spec(s)[k1].ent1_id == collisions_spec(s)[k2].ent2_id && collisions_spec(
            s,
        )[k1].ent2_id == collisions_spec(s)[k2].ent1_id),
{
    lemma_collisions_from_props(s, 0);
}

impl EntityField {
    /// Well-formedness: sound anchor and terrain, a bounded swarm, and
    /// each particle's identity equal to its index — identities are
    /// stable and unique for the whole run.
    pub open spec fn wf(&self) -> bool {
        &&& self.anchor.wf()
        &&& self.world.wf()
        &&& self.swarm@.len() <= MAX_SWARM
        &&& forall|i: int| 0 <= i < self.swarm@.len() ==> (#[trigger] self.swarm@[i]).id == i
    }

    /// Every particle position within `b` of the origin, componentwise.
    pub open spec fn swarm_pos_bounded(s: Seq<SwarmEnt>, b: int) -> bool {
        forall|i: int| 0 <= i < s.len() ==> vec_bounded((#[trigger] s[i]).pos@, b)
    }

    /// Every particle velocity within `b`, componentwise.
    pub open spec fn swarm_vel_bounded(s: Seq<SwarmEnt>, b: int) -> bool {
        forall|i: int| 0 <= i < s.len() ==> vec_bounded((#[trigger] s[i]).vel@, b)
    }

    /// Detect every colliding pair, ascending smaller index first: the
    /// deterministic enumeration that fixes resolution order.
    pub fn find_collisions(&self) -> (r: Vec<Collision>)
        requires
            Self::swarm_pos_bounded(self.swarm@, DETECT_COORD_LIMIT as int),
        ensures
            r@ == collisions_spec(self.swarm@),
    {
        let ghost s = self.swarm@;
        let n = self.swarm.len();
        let mut collisions: Vec<Collision> = Vec::new();
        let mut i: usize = 0;
        proof {
            assert(collisions@ + collisions_from(s, 0) =~= collisions_from(s, 0));
        }
        while i < n
            invariant
                i <= n,
                n == s.len(),
                self.swarm@ == s,
                Self::swarm_pos_bounded(s, DETECT_COORD_LIMIT as int),
                collisions@ + collisions_from(s, i as int) == collisions_spec(s),
            decreases n - i,
        {
            let mut j: usize = i + 1;
            proof {
                assert(collisions@ + (row_pairs(s, i as int, i as int + 1) + collisions_from(
                    s,
                    i as int + 1,
                )) =~= (collisions@ + row_pairs(s, i as int, i as int + 1)) + collisions_from(
                    s,
                    i as int + 1,
                ));
            }
            while j < n
                invariant
                    i < j <= n,
                    n == s.len(),
                    self.swarm@ == s,
                    Self::swarm_pos_bounded(s, DETECT_COORD_LIMIT as int),
                    (collisions@ + row_pairs(s, i as int, j as int)) + collisions_from(
                        s,
                        i as int + 1,
                    ) == collisions_spec(s),
                decreases n - j,
            {
                let first_ent = self.swarm[i];
                let second_ent = self.swarm[j];
                let ghost pre = collisions@;
                let delta = first_ent.pos.sub_v(&second_ent.pos);
                let dist = delta.length();
                proof {
                    lemma_collides_iff_dist(first_ent, second_ent);
                }
                if dist < COLL_DIAMETER {
                    collisions.push(Collision { ent1_id: i, ent2_id: j });
                }
                proof {
                    if collides(s[i as int], s[j as int]) {
                        assert(collisions@ =~= pre + seq![
                            (Collision { ent1_id: i, ent2_id: j }),
                        ]);
                        assert(pre + row_pairs(s, i as int, j as int) =~= pre + (seq![
                            (Collision { ent1_id: i, ent2_id: j }),
                        ] + row_pairs(s, i as int, j as int + 1)));
                        assert(pre + (seq![(Collision { ent1_id: i, ent2_id: j })] + row_pairs(
                            s,
                            i as int,
                            j as int + 1,
                        )) =~= (pre + seq![(Collision { ent1_id: i, ent2_id: j })]) + row_pairs(
                            s,
                            i as int,
                            j as int + 1,
                        ));
                    }
                }
                j = j + 1;
            }
            proof {
                assert(row_pairs(s, i as int, n as int) =~= Seq::<Collision>::empty());
                assert(collisions@ + row_pairs(s, i as int, n as int) =~= collisions@);
            }
            i = i + 1;
        }
        proof {
            assert(collisions_from(s, n as int) =~= Seq::<Collision>::empty());
            assert(collisions@ + collisions_from(s, n as int) =~= collisions@);
        }
        collisions
    }
}

/// Largest particle coordinate `tick` leaves behind, and the resolver
/// accepts at a pass's start.
pub const RESOLVE_POS_LIMIT: i64 = 0x1800_0000_0000_0000;

/// Largest velocity component the resolver accepts; resolution never
/// grows it.
pub const RESOLVE_VEL_LIMIT: i64 = 0x200_0000_0000_0000;

/// Most displacement one resolution pass can add to one coordinate:
/// every possible pair, half the padded diameter each way.
pub const PASS_DRIFT: i64 = 35232153600;

/// The displacement resolution adds to the first particle of a pair; the
/// second gets its negation. Half the padded overlap along the line
/// between the two, or along the canonical `+x` direction when the two
/// positions coincide exactly.
pub open spec fn correction_disp(a: SwarmEnt, b: SwarmEnt) -> V3 {
    let cv = vsub(a.pos@, b.pos@);
    let overlap = COLL_DIAMETER as int - norm(cv) + COLL_PADDING as int;
    if cv == vzero() {
        V3 { x: overlap / 2, y: 0, z: 0 }
    } else {
        vnormalize_to(cv, overlap / 2)
    }
}

/// One pair resolved: positions displaced half the overlap apart along
/// the connecting line, velocities exchanged as the combined velocity
/// split in opposite halves. The correction is computed against the
/// pass's immutable snapshot `snap`; the displacement lands on the
/// running state `cur`.
pub open spec fn resolve_pair(snap: Seq<SwarmEnt>, cur: Seq<SwarmEnt>, c: Collision) -> Seq<
    SwarmEnt,
> {
    let i = c.ent1_id as int;
    let j = c.ent2_id as int;
    let a = snap[i];
    let b = snap[j];
    let disp = correction_disp(a, b);
    let total = vadd(a.vel@, b.vel@);
    let na = SwarmEnt {
        id: cur[i].id,
        pos: v3_to_vec3(vadd(cur[i].pos@, disp)),
        vel: v3_to_vec3(vscale(total, -500)),
    };
    let nb = SwarmEnt {
        id: cur[j].id,
        pos: v3_to_vec3(vsub(cur[j].pos@, disp)),
        vel: v3_to_vec3(vscale(total, 500)),
    };
    cur.update(i, na).update(j, nb)
}

impl EntityField {
    /// Resolve one detected overlap: move the pair half the padded
    /// overlap apart along their connecting line, and exchange their
    /// combined velocity in opposite halves. Corrections are computed
    /// against the pass snapshot `snap`, displacements land on the
    /// current state.
    pub fn resolve_single_collision(&mut self, collision: &Collision, snap: &Vec<SwarmEnt>)
        requires
            old(self).swarm@.len() == snap@.len(),
            collision.ent1_id < collision.ent2_id,
            (collision.ent2_id as int) < snap@.len(),
            collides(snap@[collision.ent1_id as int], snap@[collision.ent2_id as int]),
            Self::swarm_pos_bounded(snap@, DETECT_COORD_LIMIT as int),
            Self::swarm_pos_bounded(old(self).swarm@, DETECT_COORD_LIMIT as int - 2100),
            Self::swarm_vel_bounded(snap@, RESOLVE_VEL_LIMIT as int),
            Self::swarm_vel_bounded(old(self).swarm@, RESOLVE_VEL_LIMIT as int),
        ensures
            final(self).swarm@ == resolve_pair(snap@, old(self).swarm@, *collision),
            final(self).swarm@.len() == old(self).swarm@.len(),
            forall|k: int|
                0 <= k < final(self).swarm@.len() ==> (#[trigger] final(self).swarm@[k]).id == old(
                    self,
                ).swarm@[k].id,
            forall|k: int|
                0 <= k < final(self).swarm@.len() ==> vec_bounded(
                    vsub((#[trigger] final(self).swarm@[k]).pos@, old(self).swarm@[k].pos@),
                    (COLL_DIAMETER as int + COLL_PADDING as int) / 2,
                ),
            Self::swarm_vel_bounded(final(self).swarm@, RESOLVE_VEL_LIMIT as int),
            final(self).world == old(self).world,
            final(self).anchor == old(self).anchor,
    {
        let first_id = collision.ent1_id;
        let second_id = collision.ent2_id;
        let first_ent = snap[first_id];
        let second_ent = snap[second_id];
        let collision_vec = first_ent.pos.sub_v(&second_ent.pos);
        let dist = collision_vec.length();
        proof {
            lemma_collides_iff_dist(first_ent, second_ent);
        }
        let overlap = COLL_DIAMETER - dist + COLL_PADDING;
        let half = ((overlap as u64) / 2) as i64;
        let disp = if collision_vec.x == 0 && collision_vec.y == 0 && collision_vec.z == 0 {
            Vec3::new(half, 0, 0)
        } else {
            proof {
                crate::anchor_ent::lemma_nonzero_norm_positive(collision_vec@);
            }
            collision_vec.normalize_to(half)
        };
        let mut a = self.swarm[first_id];
        let mut b = self.swarm[second_id];
        a.pos = a.pos.add_v(&disp);
        b.pos = b.pos.sub_v(&disp);
        let total_vel = first_ent.vel.add_v(&second_ent.vel);
        proof {
            lemma_fx_mul_div_bound(
                total_vel@.x,
                -500,
                2 * RESOLVE_VEL_LIMIT as int,
                500,
            );
            lemma_fx_mul_div_bound(
                total_vel@.y,
                -500,
                2 * RESOLVE_VEL_LIMIT as int,
                500,
            );
            lemma_fx_mul_div_bound(
                total_vel@.z,
                -500,
                2 * RESOLVE_VEL_LIMIT as int,
                500,
            );
            lemma_fx_mul_div_bound(total_vel@.x, 500, 2 * RESOLVE_VEL_LIMIT as int, 500);
            lemma_fx_mul_div_bound(total_vel@.y, 500, 2 * RESOLVE_VEL_LIMIT as int, 500);
            lemma_fx_mul_div_bound(total_vel@.z, 500, 2 * RESOLVE_VEL_LIMIT as int, 500);
        }
        a.vel = total_vel.mul_s(-500);
        b.vel = total_vel.mul_s(500);
        self.swarm.set(first_id, a);
        self.swarm.set(second_id, b);
        proof {
            crate::vec3::lemma_view_roundtrip(
                a.pos,
                vadd(old(self).swarm@[first_id as int].pos@, correction_disp(first_ent, second_ent)),
            );
            crate::vec3::lemma_view_roundtrip(
                b.pos,
                vsub(old(self).swarm@[second_id as int].pos@, correction_disp(first_ent, second_ent)),
            );
            assert(final(self).swarm@ =~= resolve_pair(snap@, old(self).swarm@, *collision));
        }
    }
}

/// The running state after the first `k` detected pairs of one pass
/// were resolved in enumeration order.
pub open spec fn resolve_pairs_prefix(
    snap: Seq<SwarmEnt>,
    pairs: Seq<Collision>,
    k: int,
) -> Seq<SwarmEnt>
    decreases k,
{
    if k <= 0 {
        snap
    } else {
        resolve_pair(snap, resolve_pairs_prefix(snap, pairs, k - 1), pairs[k - 1])
    }
}

/// One full resolution pass: every pair detected against the immutable
/// snapshot of the pass's start, resolved in enumeration order.
pub open spec fn resolve_pass(s: Seq<SwarmEnt>) -> Seq<SwarmEnt> {
    resolve_pairs_prefix(s, collisions_spec(s), collisions_spec(s).len() as int)
}

/// Up to `k` resolution passes, stopping early once nothing overlaps.
pub open spec fn resolve_rounds(s: Seq<SwarmEnt>, k: nat) -> Seq<SwarmEnt>
    decreases k,
{
    if k == 0 || collisions_spec(s).len() == 0 {
        s
    } else {
        resolve_rounds(resolve_pass(s), (k - 1) as nat)
    }
}

/// One row of the enumeration holds at most the partners after `j`.
proof fn lemma_row_pairs_len(s: Seq<SwarmEnt>, i: int, j: int)
    requires
        0 <= j <= s.len(),
    ensures
        row_pairs(s, i, j).len() <= s.len() - j,
    decreases s.len() - j,
{
    if j < s.len() {
        lemma_row_pairs_len(s, i, j + 1);
    }
}

/// The enumeration from `i` holds at most `(len - i) * len` pairs.
proof fn lemma_collisions_from_len(s: Seq<SwarmEnt>, i: int)
    requires
        0 <= i <= s.len(),
    ensures
        collisions_from(s, i).len() <= (s.len() - i) * s.len(),
    decreases s.len() - i,
{
    if i >= s.len() {
        assert((s.len() - i) * s.len() == 0) by (nonlinear_arith)
            requires
                i == s.len(),
        ;
    } else {
        lemma_row_pairs_len(s, i, i + 1);
        lemma_collisions_from_len(s, i + 1);
        assert((s.len() - i - 1) + (s.len() - i - 1) * s.len() <= (s.len() - i) * s.len())
            by (nonlinear_arith)
            requires
                0 <= i < s.len(),
        ;
    }
}

/// A swarm of at most `MAX_SWARM` particles yields at most
/// `MAX_SWARM * MAX_SWARM` detected pairs.
proof fn lemma_collisions_spec_len(s: Seq<SwarmEnt>)
    requires
        s.len() <= MAX_SWARM,
    ensures
        collisions_spec(s).len() <= MAX_SWARM * MAX_SWARM,
{
    lemma_collisions_from_len(s, 0);
    assert(s.len() * s.len() <= (MAX_SWARM as int) * (MAX_SWARM as int)) by (nonlinear_arith)
        requires
            0 <= s.len() <= MAX_SWARM as int,
    ;
}

impl EntityField {
    /// A copy of the swarm, the immutable snapshot one pass resolves
    /// against.
    fn snapshot_swarm(&self) -> (r: Vec<SwarmEnt>)
        ensures
            r@ == self.swarm@,
    {
        let mut r: Vec<SwarmEnt> = Vec::new();
        let mut i: usize = 0;
        while i < self.swarm.len()
            invariant
                i <= self.swarm@.len(),
                r@.len() == i,
                forall|j: int| 0 <= j < i ==> #[trigger] r@[j] == self.swarm@[j],
            decreases self.swarm@.len() - i,
        {
            r.push(self.swarm[i]);
            i = i + 1;
        }
        proof {
            assert(r@ =~= self.swarm@);
        }
        r
    }

    /// Detect and resolve overlaps in passes: each pass resolves every
    /// pair found against an immutable snapshot of its start, and the
    /// loop stops after `MAX_RESOLUTION_PASSES` passes or as soon as no
    /// pair remains — overlaps still left then are carried to the next
    /// tick, best-effort.
    pub fn resolve_all_collisions(&mut self)
        requires
            old(self).swarm@.len() <= MAX_SWARM,
            Self::swarm_pos_bounded(old(self).swarm@, RESOLVE_POS_LIMIT as int),
            Self::swarm_vel_bounded(old(self).swarm@, RESOLVE_VEL_LIMIT as int),
        ensures
            final(self).swarm@ == resolve_rounds(
                old(self).swarm@,
                MAX_RESOLUTION_PASSES as nat,
            ),
            final(self).swarm@.len() == old(self).swarm@.len(),
            forall|k: int|
                0 <= k < final(self).swarm@.len() ==> (#[trigger] final(self).swarm@[k]).id == old(
                    self,
                ).swarm@[k].id,
            Self::swarm_pos_bounded(
                final(self).swarm@,
                RESOLVE_POS_LIMIT as int + 5 * PASS_DRIFT as int,
            ),
            Self::swarm_vel_bounded(final(self).swarm@, RESOLVE_VEL_LIMIT as int),
            final(self).world == old(self).world,
            final(self).anchor == old(self).anchor,
    {
        let ghost s0 = self.swarm@;
        let ghost w0 = self.world;
        let ghost a0 = self.anchor;
        let mut collisions = self.find_collisions();
        let mut iterations: usize = 0;
        while collisions.len() > 0 && iterations < MAX_RESOLUTION_PASSES
            invariant
                iterations <= MAX_RESOLUTION_PASSES,
                self.swarm@.len() == s0.len(),
                s0.len() <= MAX_SWARM,
                self.world == w0,
                self.anchor == a0,
                forall|k: int|
                    0 <= k < self.swarm@.len() ==> (#[trigger] self.swarm@[k]).id == s0[k].id,
                Self::swarm_pos_bounded(
                    self.swarm@,
                    RESOLVE_POS_LIMIT as int + iterations as int * PASS_DRIFT as int,
                ),
                Self::swarm_vel_bounded(self.swarm@, RESOLVE_VEL_LIMIT as int),
                collisions@ == collisions_spec(self.swarm@),
                resolve_rounds(
                    self.swarm@,
                    (MAX_RESOLUTION_PASSES - iterations) as nat,
                ) == resolve_rounds(s0, MAX_RESOLUTION_PASSES as nat),
            decreases MAX_RESOLUTION_PASSES - iterations,
        {
            let snap = self.snapshot_swarm();
            let ghost pass_start = self.swarm@;
            let ghost it0 = iterations as int;
            proof {
                lemma_collisions_from_props(pass_start, 0);
                lemma_collisions_spec_len(pass_start);
            }
            let mut k: usize = 0;
            while k < collisions.len()
                invariant
                    k <= collisions@.len(),
                    collisions@ == collisions_spec(pass_start),
                    collisions@.len() <= MAX_SWARM * MAX_SWARM,
                    forall|q: int|
                        0 <= q < collisions@.len() ==> (#[trigger] collisions@[q]).ent1_id
                            < collisions@[q].ent2_id && collisions@[q].ent2_id < pass_start.len()
                            && collides(
                            pass_start[collisions@[q].ent1_id as int],
                            pass_start[collisions@[q].ent2_id as int],
                        ),
                    snap@ == pass_start,
                    pass_start.len() == s0.len() <= MAX_SWARM,
                    self.swarm@.len() == s0.len(),
                    self.world == w0,
                    self.anchor == a0,
                    forall|j: int|
                        0 <= j < self.swarm@.len() ==> (#[trigger] self.swarm@[j]).id == s0[j].id,
                    0 <= it0 < MAX_RESOLUTION_PASSES,
                    Self::swarm_pos_bounded(
                        pass_start,
                        RESOLVE_POS_LIMIT as int + it0 * PASS_DRIFT as int,
                    ),
                    Self::swarm_pos_bounded(
                        self.swarm@,
                        RESOLVE_POS_LIMIT as int + it0 * PASS_DRIFT as int + k as int * 2100,
                    ),
                    Self::swarm_vel_bounded(self.swarm@, RESOLVE_VEL_LIMIT as int),
                    Self::swarm_vel_bounded(pass_start, RESOLVE_VEL_LIMIT as int),
                    self.swarm@ == resolve_pairs_prefix(pass_start, collisions@, k as int),
                decreases collisions@.len() - k,
            {
                let c = collisions[k];
                let ghost before = self.swarm@;
                self.resolve_single_collision(&c, &snap);
                proof {
                    assert forall|j: int|
                        0 <= j < self.swarm@.len() implies vec_bounded(
                        (#[trigger] self.swarm@[j]).pos@,
                        RESOLVE_POS_LIMIT as int + it0 * PASS_DRIFT as int + (k as int + 1) * 2100,
                    ) by {
                        assert(vec_bounded(vsub(self.swarm@[j].pos@, before[j].pos@), 1050));
                        assert(vec_bounded(before[j].pos@, RESOLVE_POS_LIMIT as int + it0
                            * PASS_DRIFT as int + k as int * 2100));
                    }
                }
                k = k + 1;
            }
            iterations = iterations + 1;
            proof {
                assert(self.swarm@ == resolve_pass(pass_start));
                assert(resolve_rounds(
                    pass_start,
                    (MAX_RESOLUTION_PASSES - (iterations - 1)) as nat,
                ) == resolve_rounds(self.swarm@, (MAX_RESOLUTION_PASSES - iterations) as nat));
                assert forall|j: int|
                    0 <= j < self.swarm@.len() implies vec_bounded(
                    (#[trigger] self.swarm@[j]).pos@,
                    RESOLVE_POS_LIMIT as int + iterations as int * PASS_DRIFT as int,
                ) by {
                    assert(vec_bounded(self.swarm@[j].pos@, RESOLVE_POS_LIMIT as int + it0
                        * PASS_DRIFT as int + collisions@.len() * 2100));
                }
            }
            collisions = self.find_collisions();
        }
    }
}

/// Largest particle coordinate or velocity component `tick` accepts.
pub const TICK_COORD_LIMIT: i64 = 0x10_0000_0000;

/// Longest time step `tick` accepts: 16 units.
pub const TICK_DT_LIMIT: i64 = 16000;

/// Largest acceleration component one tick can produce within the
/// limits above: the damped anchor force plus the gradient share.
pub const TICK_ACCEL_LIMIT: i64 = 0x14_0000_0000_0000;

/// Where each particle spawns in the stock configuration: the first one
/// just above the anchor, the rest spread deterministically over the
/// central region. Respawning with host-chosen positions goes through
/// `reset`.
pub open spec fn spawn_pos(i: int) -> V3 {
    if i == 0 {
        V3 { x: 0, y: 1000, z: 0 }
    } else {
        V3 { x: -4550 + (i - 1) * 700, y: 4200 - (i - 1) * 650, z: 0 }
    }
}

/// The deformation each particle records during one tick.
pub open spec fn tick_records(s: Seq<SwarmEnt>) -> Seq<Deformation> {
    Seq::new(
        s.len(),
        |i: int| Deformation { magnitude: SWARM_FIELD_STR, x: s[i].pos.x, y: s[i].pos.y },
    )
}

/// The acceleration one particle feels: the damped anchor force plus a
/// tenth of the terrain gradient at its position. Gravity is zero in
/// this build.
pub open spec fn tick_accel(w: WorldManifold, anchor: AnchorEnt, e: SwarmEnt) -> V3 {
    vadd(
        anchor.damped_force_spec(e.pos@, e.vel@),
        vscale(
            V3 {
                x: w.gradient_x_spec(cell_of(e.pos@.x), cell_of(e.pos@.y)),
                y: w.gradient_y_spec(cell_of(e.pos@.x), cell_of(e.pos@.y)),
                z: 0,
            },
            100,
        ),
    )
}

/// One particle after one integration step under acceleration `a`.
pub open spec fn integrated_ent(e: SwarmEnt, a: V3, dt: int) -> SwarmEnt {
    let nv = vadd(e.vel@, vscale(a, dt));
    SwarmEnt { id: e.id, pos: v3_to_vec3(vadd(e.pos@, vscale(nv, dt))), vel: v3_to_vec3(nv) }
}

/// The swarm after the integration stage of one tick against the
/// already-deformed terrain `w`.
pub open spec fn integrated_swarm(
    s: Seq<SwarmEnt>,
    w: WorldManifold,
    anchor: AnchorEnt,
    dt: int,
) -> Seq<SwarmEnt> {
    Seq::new(s.len(), |i: int| integrated_ent(s[i], tick_accel(w, anchor, s[i]), dt))
}

impl EntityField {
    /// The stock simulation: the default anchor, a fresh field, and 14
    /// particles at the deterministic spawn layout, all at rest.
    pub fn default() -> (r: EntityField)
        ensures
            r.wf(),
            r.swarm@.len() == 14,
            forall|i: int|
                0 <= i < 14 ==> (#[trigger] r.swarm@[i]).id == i && r.swarm@[i].vel@ == vzero()
                    && r.swarm@[i].pos@ == spawn_pos(i),
            Self::swarm_pos_bounded(r.swarm@, TICK_COORD_LIMIT as int),
            Self::swarm_vel_bounded(r.swarm@, TICK_COORD_LIMIT as int),
            r.world.deform_stack@.len() == 0,
            forall|cx: int, cy: int|
                0 <= cx < crate::world_manifold::GRID_EXTENT && 0 <= cy
                    < crate::world_manifold::GRID_EXTENT ==> #[trigger] r.world.spec_cell(cx, cy)
                    == 0,
    {
        let anchor = AnchorEnt::default();
        let world = WorldManifold::default();
        let mut swarm: Vec<SwarmEnt> = Vec::new();
        swarm.push(SwarmEnt { id: 0, pos: Vec3::new(0, 1000, 0), vel: Vec3::new(0, 0, 0) });
        let mut i: usize = 1;
        while i < 14
            invariant
                1 <= i <= 14,
                swarm@.len() == i,
                forall|j: int|
                    0 <= j < i ==> (#[trigger] swarm@[j]).id == j && swarm@[j].vel@ == vzero()
                        && swarm@[j].pos@ == spawn_pos(j),
            decreases 14 - i,
        {
            let x: i64 = -4550 + (i as i64 - 1) * 700;
            let y: i64 = 4200 - (i as i64 - 1) * 650;
            swarm.push(SwarmEnt { id: i, pos: Vec3::new(x, y, 0), vel: Vec3::new(0, 0, 0) });
            i = i + 1;
        }
        EntityField { anchor, world, swarm }
    }

    /// Host-triggered respawn: zero one particle's velocity and move it
    /// to an externally supplied position.
    pub fn reset(&mut self, id: usize, pos: Vec3)
        requires
            old(self).wf(),
            id < old(self).swarm@.len(),
        ensures
            final(self).wf(),
            final(self).swarm@ == old(self).swarm@.update(
                id as int,
                (SwarmEnt { id: id, pos: pos, vel: (Vec3 { x: 0, y: 0, z: 0 }) }),
            ),
            final(self).world == old(self).world,
            final(self).anchor == old(self).anchor,
    {
        let mut e = self.swarm[id];
        e.pos = pos;
        e.vel = Vec3::new(0, 0, 0);
        self.swarm.set(id, e);
    }

    /// One simulation step: flatten the terrain, press each particle's
    /// field in at its position, accelerate every particle by the anchor
    /// force and the terrain slope, integrate, then resolve collisions.
    /// Fails exactly when some particle sits outside the valid world
    /// region; the failure is fatal by design — the swarm is untouched,
    /// though the terrain may hold the deformations recorded before the
    /// offending particle was reached.
    #[verifier::loop_isolation(false)]
    pub fn tick(&mut self, delta_t: i64) -> (r: Result<(), FieldError>)
        requires
            old(self).wf(),
            0 <= delta_t <= TICK_DT_LIMIT,
            Self::swarm_pos_bounded(old(self).swarm@, TICK_COORD_LIMIT as int),
            Self::swarm_vel_bounded(old(self).swarm@, TICK_COORD_LIMIT as int),
        ensures
            final(self).wf(),
            final(self).anchor == old(self).anchor,
            final(self).swarm@.len() == old(self).swarm@.len(),
            r is Ok <==> (forall|i: int|
                0 <= i < old(self).swarm@.len() ==> crate::world_manifold::pos_in_bounds(
                    (#[trigger] old(self).swarm@[i]).pos@.x,
                    old(self).swarm@[i].pos@.y,
                )),
            r is Err ==> final(self).swarm@ == old(self).swarm@,
            r is Ok ==> final(self).world.deform_stack@ == tick_records(old(self).swarm@),
            r is Ok ==> final(self).swarm@ == resolve_rounds(
                integrated_swarm(
                    old(self).swarm@,
                    final(self).world,
                    old(self).anchor,
                    delta_t as int,
                ),
                MAX_RESOLUTION_PASSES as nat,
            ),
    {
        let ghost sw0 = self.swarm@;
        let ghost a0 = self.anchor;
        self.world.flatten();
        let n = self.swarm.len();
        let mut i: usize = 0;
        proof {
            assert(self.world.deform_stack@ =~= tick_records(sw0).take(0));
        }
        while i < n
            invariant
                i <= n,
                n == sw0.len(),
                n <= MAX_SWARM,
                self.swarm@ == sw0,
                self.anchor == a0,
                self.world.wf(),
                self.world.deform_stack@ == tick_records(sw0).take(i as int),
                forall|j: int|
                    0 <= j < i ==> crate::world_manifold::pos_in_bounds(
                        (#[trigger] sw0[j]).pos@.x,
                        sw0[j].pos@.y,
                    ),
            decreases n - i,
        {
            let p = self.swarm[i];
            let ghost stack_before = self.world.deform_stack@;
            match self.world.deform(p.pos, SWARM_FIELD_STR) {
                Ok(()) => {
                    proof {
                        assert(self.world.deform_stack@ =~= tick_records(sw0).take(i as int + 1));
                    }
                },
                Err(e) => {
                    return Err(e);
                },
            }
            i = i + 1;
        }
        proof {
            assert(tick_records(sw0).take(n as int) =~= tick_records(sw0));
        }
        let ghost w1 = self.world;
        let mut i2: usize = 0;
        while i2 < n
            invariant
                i2 <= n,
                n == sw0.len(),
                n <= MAX_SWARM,
                self.swarm@.len() == n,
                self.anchor == a0,
                a0.wf(),
                self.world == w1,
                w1.wf(),
                0 <= delta_t <= TICK_DT_LIMIT,
                Self::swarm_pos_bounded(sw0, TICK_COORD_LIMIT as int),
                Self::swarm_vel_bounded(sw0, TICK_COORD_LIMIT as int),
                forall|j: int|
                    0 <= j < n ==> crate::world_manifold::pos_in_bounds(
                        (#[trigger] sw0[j]).pos@.x,
                        sw0[j].pos@.y,
                    ),
                forall|j: int| i2 <= j < n ==> #[trigger] self.swarm@[j] == sw0[j],
                forall|j: int|
                    0 <= j < i2 ==> #[trigger] self.swarm@[j] == integrated_ent(
                        sw0[j],
                        tick_accel(w1, a0, sw0[j]),
                        delta_t as int,
                    ),
                forall|j: int|
                    0 <= j < i2 ==> vec_bounded(
                        (#[trigger] self.swarm@[j]).pos@,
                        RESOLVE_POS_LIMIT as int,
                    ) && vec_bounded(self.swarm@[j].vel@, RESOLVE_VEL_LIMIT as int),
            decreases n - i2,
        {
            let p = self.swarm[i2];
            let anchor_accel = self.anchor.damped_force_at(p.pos, p.vel);
            let gradient = match self.world.gradient_at(p.pos) {
                Ok(g) => g,
                Err(_) => {
                    proof {
                        assert(false);
                    }
                    Vec3::new(0, 0, 0)
                },
            };
            proof {
                lemma_fx_mul_div_bound(
                    gradient@.x,
                    100,
                    crate::world_manifold::GRADIENT_LIMIT as int,
                    100,
                );
                lemma_fx_mul_div_bound(
                    gradient@.y,
                    100,
                    crate::world_manifold::GRADIENT_LIMIT as int,
                    100,
                );
                lemma_fx_mul_div_bound(
                    gradient@.z,
                    100,
                    crate::world_manifold::GRADIENT_LIMIT as int,
                    100,
                );
            }
            let swarm_accel = gradient.mul_s(100);
            let gravity_accel = Vec3::new(0, 0, 0);
            let total_accel = anchor_accel.add_v(&swarm_accel).add_v(&gravity_accel);
            proof {
                assert(vec_bounded(total_accel@, TICK_ACCEL_LIMIT as int));
                assert(total_accel@ == tick_accel(w1, a0, sw0[i2 as int]));
            }
            let mut e = self.swarm[i2];
            e.integrate(delta_t, total_accel);
            proof {
                lemma_fx_mul_div_bound(
                    total_accel@.x,
                    delta_t as int,
                    TICK_ACCEL_LIMIT as int,
                    TICK_DT_LIMIT as int,
                );
                lemma_fx_mul_div_bound(
                    total_accel@.y,
                    delta_t as int,
                    TICK_ACCEL_LIMIT as int,
                    TICK_DT_LIMIT as int,
                );
                lemma_fx_mul_div_bound(
                    total_accel@.z,
                    delta_t as int,
                    TICK_ACCEL_LIMIT as int,
                    TICK_DT_LIMIT as int,
                );
                lemma_fx_mul_div_bound(
                    e.vel@.x,
                    delta_t as int,
                    TICK_COORD_LIMIT as int + 16 * TICK_ACCEL_LIMIT as int,
                    TICK_DT_LIMIT as int,
                );
                lemma_fx_mul_div_bound(
                    e.vel@.y,
                    delta_t as int,
                    TICK_COORD_LIMIT as int + 16 * TICK_ACCEL_LIMIT as int,
                    TICK_DT_LIMIT as int,
                );
                lemma_fx_mul_div_bound(
                    e.vel@.z,
                    delta_t as int,
                    TICK_COORD_LIMIT as int + 16 * TICK_ACCEL_LIMIT as int,
                    TICK_DT_LIMIT as int,
                );
                crate::vec3::lemma_view_roundtrip(
                    e.vel,
                    vadd(sw0[i2 as int].vel@, vscale(total_accel@, delta_t as int)),
                );
                crate::vec3::lemma_view_roundtrip(
                    e.pos,
                    vadd(sw0[i2 as int].pos@, vscale(e.vel@, delta_t as int)),
                );
            }
            self.swarm.set(i2, e);
            i2 = i2 + 1;
        }
        proof {
            assert(self.swarm@ =~= integrated_swarm(sw0, w1, a0, delta_t as int));
        }
        self.resolve_all_collisions();
        Ok(())
    }
}

/// Collision separation: two overlapping particles aligned on the `x`
/// axis end at least the collision diameter apart after one pair
/// resolution, their other coordinates untouched.
pub proof fn lemma_collision_separation(a: SwarmEnt, b: SwarmEnt)
    requires
        a.pos.y == b.pos.y,
        a.pos.z == b.pos.z,
        collides(a, b),
        vec_bounded(a.pos@, RESOLVE_POS_LIMIT as int),
        vec_bounded(b.pos@, RESOLVE_POS_LIMIT as int),
    ensures
        ({
            let r = resolve_pair(seq![a, b], seq![a, b], (Collision { ent1_id: 0, ent2_id: 1 }));
            &&& r[0].pos.y == r[1].pos.y
            &&& r[0].pos.z == r[1].pos.z
            &&& (r[0].pos@.x - r[1].pos@.x >= COLL_DIAMETER as int || r[1].pos@.x - r[0].pos@.x
                >= COLL_DIAMETER as int)
        }),
{
    let cv = vsub(a.pos@, b.pos@);
    let d = if a.pos@.x >= b.pos@.x {
        a.pos@.x - b.pos@.x
    } else {
        b.pos@.x - a.pos@.x
    };
    assert(norm_sq(cv) == cv.x * cv.x) by (nonlinear_arith)
        requires
            cv.y == 0,
            cv.z == 0,
    ;
    assert(cv.x * cv.x == d * d) by (nonlinear_arith)
        requires
            d == cv.x || d == -cv.x,
    ;
    assert(d * d < (d + 1) * (d + 1)) by (nonlinear_arith)
        requires
            d >= 0,
    ;
    lemma_sqrt_floor_unique(d * d, d);
    let overlap = COLL_DIAMETER as int - d + COLL_PADDING as int;
    assert(d < COLL_DIAMETER as int) by {
        if d >= COLL_DIAMETER as int {
            assert(d * d >= (COLL_DIAMETER as int) * (COLL_DIAMETER as int))
                by (nonlinear_arith)
                requires
                    d >= COLL_DIAMETER as int >= 0,
            ;
        }
    }
    if cv == vzero() {
    } else {
        lemma_tdiv_exact(overlap / 2, d);
        if a.pos@.x >= b.pos@.x {
            assert(cv.x * (overlap / 2) == (overlap / 2) * d) by (nonlinear_arith)
                requires
                    cv.x == d,
            ;
        } else {
            assert(cv.x * (overlap / 2) == -((overlap / 2) * d)) by (nonlinear_arith)
                requires
                    cv.x == -d,
            ;
            crate::fixed::lemma_tdiv_neg((overlap / 2) * d, d);
        }
        assert(tdiv(cv.y * (overlap / 2), d) == 0) by {
            assert(cv.y * (overlap / 2) == 0) by (nonlinear_arith)
                requires
                    cv.y == 0,
            ;
        }
        assert(tdiv(cv.z * (overlap / 2), d) == 0) by {
            assert(cv.z * (overlap / 2) == 0) by (nonlinear_arith)
                requires
                    cv.z == 0,
            ;
        }
    }
}

/// A particle pair collides exactly when the floor of its distance is
/// under the collision diameter.
pub proof fn lemma_collides_iff_dist(a: SwarmEnt, b: SwarmEnt)
    ensures
        collides(a, b) <==> norm(vsub(a.pos@, b.pos@)) < COLL_DIAMETER as int,
{
    let n = norm_sq(vsub(a.pos@, b.pos@));
    crate::vec3::lemma_norm_sq_bounds(vsub(a.pos@, b.pos@));
    lemma_sqrt_floor_bounds(n);
    let r = norm(vsub(a.pos@, b.pos@));
    if r < COLL_DIAMETER as int {
        assert(n < (r + 1) * (r + 1));
        assert((r + 1) * (r + 1) <= (COLL_DIAMETER as int) * (COLL_DIAMETER as int))
            by (nonlinear_arith)
            requires
                0 <= r + 1 <= COLL_DIAMETER as int,
        ;
    }
    if n < (COLL_DIAMETER as int) * (COLL_DIAMETER as int) {
        if r >= COLL_DIAMETER as int {
            assert((COLL_DIAMETER as int) * (COLL_DIAMETER as int) <= r * r) by (nonlinear_arith)
                requires
                    0 <= COLL_DIAMETER as int <= r,
            ;
        }
    }
}

} // verus!
