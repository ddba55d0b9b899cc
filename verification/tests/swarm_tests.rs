use swarm_sim::anchor_ent::AnchorEnt;
use swarm_sim::entity_field::Collision;
use swarm_sim::entity_field::EntityField;
use swarm_sim::swarm_ent::SwarmEnt;
use swarm_sim::vec3::Vec3;
use swarm_sim::world_manifold::WorldManifold;

fn resting_swarm(positions: &[(i64, i64, i64)]) -> EntityField {
    let mut swarm: Vec<SwarmEnt> = Vec::new();
    for (i, (x, y, z)) in positions.iter().enumerate() {
        swarm.push(SwarmEnt {
            id: i,
            pos: Vec3::new(*x, *y, *z),
            vel: Vec3::new(0, 0, 0),
        });
    }
    EntityField { anchor: AnchorEnt::default(), world: WorldManifold::default(), swarm }
}

#[test]
fn idle_shell_force_is_zero_on_the_shell() {
    let anchor = AnchorEnt::default();
    // Exactly 15 units from the origin along x, then along a diagonal
    // whose floor-norm is exactly the idle distance (9000-12000-... is a
    // scaled 3-4-5 triple: 9000^2 + 12000^2 = 15000^2).
    let f1 = anchor.force_at(Vec3::new(15000, 0, 0));
    assert_eq!((f1.x, f1.y, f1.z), (0, 0, 0));
    let f2 = anchor.force_at(Vec3::new(9000, -12000, 0));
    assert_eq!((f2.x, f2.y, f2.z), (0, 0, 0));
}

#[test]
fn force_at_anchor_uses_canonical_direction() {
    let anchor = AnchorEnt::default();
    let f = anchor.force_at(Vec3::new(0, 0, 0));
    // Magnitude strength * idle_distance: 15 * 15 = 225 units, along -x.
    assert_eq!((f.x, f.y, f.z), (-225000, 0, 0));
}

#[test]
fn force_grows_linearly_off_the_shell() {
    let anchor = AnchorEnt::default();
    // 20 units out along x: delta = (-20000,0,0), idle offset is
    // (-15000,0,0), deviation (-5000,0,0), times gain 15.
    let f = anchor.force_at(Vec3::new(20000, 0, 0));
    assert_eq!((f.x, f.y, f.z), (-75000, 0, 0));
    // 10 units out: deviation (5000,0,0) points outward instead.
    let g = anchor.force_at(Vec3::new(10000, 0, 0));
    assert_eq!((g.x, g.y, g.z), (75000, 0, 0));
}

#[test]
fn damping_subtracts_scaled_velocity() {
    let anchor = AnchorEnt::default();
    let undamped = anchor.force_at(Vec3::new(20000, 0, 0));
    let damped = anchor.damped_force_at(Vec3::new(20000, 0, 0), Vec3::new(1000, -500, 200));
    // Damping coefficient 0.2: subtract (200, -100, 40).
    assert_eq!(damped.x, undamped.x - 200);
    assert_eq!(damped.y, undamped.y + 100);
    assert_eq!(damped.z, undamped.z - 40);
}

#[test]
fn integration_law_exact() {
    let mut e = SwarmEnt {
        id: 7,
        pos: Vec3::new(1000, -2000, 500),
        vel: Vec3::new(300, 400, -100),
    };
    // dt = 0.5, a = (2000, -1000, 0):
    // v' = v + a*dt = (1300, -100, -100);
    // p' = p + v'*dt = (1650, -2050, 450).
    e.integrate(500, Vec3::new(2000, -1000, 0));
    assert_eq!(e.id, 7);
    assert_eq!((e.vel.x, e.vel.y, e.vel.z), (1300, -100, -100));
    assert_eq!((e.pos.x, e.pos.y, e.pos.z), (1650, -2050, 450));
}

#[test]
fn collision_pairing_ordered_and_unique() {
    // Three mutually overlapping particles.
    let f = resting_swarm(&[(0, 0, 0), (500, 0, 0), (0, 500, 0), (900000, 0, 0)]);
    let pairs = f.find_collisions();
    assert_eq!(pairs.len(), 3);
    for p in pairs.iter() {
        assert!(p.ent1_id < p.ent2_id);
        assert!(p.ent2_id < 4);
    }
    for (a, p) in pairs.iter().enumerate() {
        for (b, q) in pairs.iter().enumerate() {
            if a != b {
                assert!(!(p.ent1_id == q.ent1_id && p.ent2_id == q.ent2_id));
                assert!(!(p.ent1_id == q.ent2_id && p.ent2_id == q.ent1_id));
            }
        }
    }
    assert_eq!(pairs[0], Collision { ent1_id: 0, ent2_id: 1 });
    assert_eq!(pairs[1], Collision { ent1_id: 0, ent2_id: 2 });
    assert_eq!(pairs[2], Collision { ent1_id: 1, ent2_id: 2 });
}

#[test]
fn collision_separation_on_x_axis() {
    // Two particles one unit apart on the x axis, diameter two.
    let mut f = resting_swarm(&[(0, 0, 0), (1000, 0, 0)]);
    f.resolve_all_collisions();
    // Overlap 2000 - 1000 + 100 padding = 1100; each moves 550 apart.
    assert_eq!((f.swarm[0].pos.x, f.swarm[0].pos.y), (-550, 0));
    assert_eq!((f.swarm[1].pos.x, f.swarm[1].pos.y), (1550, 0));
    let dist = f.swarm[1].pos.x - f.swarm[0].pos.x;
    assert!(dist >= 2000);
    assert!(f.find_collisions().is_empty());
}

#[test]
fn coincident_particles_separate_along_canonical_direction() {
    let mut f = resting_swarm(&[(400, 300, 0), (400, 300, 0)]);
    f.resolve_all_collisions();
    // Zero-length connecting line: the canonical +x direction applies,
    // half of (2000 - 0 + 100) each way.
    assert_eq!((f.swarm[0].pos.x, f.swarm[0].pos.y), (400 + 1050, 300));
    assert_eq!((f.swarm[1].pos.x, f.swarm[1].pos.y), (400 - 1050, 300));
}

#[test]
fn collision_exchanges_combined_velocity() {
    let mut f = resting_swarm(&[(0, 0, 0), (1000, 0, 0)]);
    f.swarm[0].vel = Vec3::new(600, 0, 0);
    f.swarm[1].vel = Vec3::new(-200, 0, 0);
    f.resolve_all_collisions();
    // Combined velocity (400, 0, 0): first gets -half, second +half.
    assert_eq!(f.swarm[0].vel.x, -200);
    assert_eq!(f.swarm[1].vel.x, 200);
}

#[test]
fn resolution_respects_pass_cap() {
    // A dense chain keeps some overlap after the capped passes; the
    // resolver must still terminate and leave a best-effort state.
    let mut f = resting_swarm(&[
        (0, 0, 0),
        (100, 0, 0),
        (200, 0, 0),
        (300, 0, 0),
        (400, 0, 0),
        (500, 0, 0),
        (600, 0, 0),
        (700, 0, 0),
    ]);
    f.resolve_all_collisions();
    assert_eq!(f.swarm.len(), 8);
    for (i, e) in f.swarm.iter().enumerate() {
        assert_eq!(e.id, i);
    }
}

#[test]
fn reset_zeroes_velocity_and_moves() {
    let mut f = EntityField::default();
    f.swarm[3].vel = Vec3::new(5, 5, 5);
    f.reset(3, Vec3::new(-777, 888, 20000));
    assert_eq!((f.swarm[3].pos.x, f.swarm[3].pos.y, f.swarm[3].pos.z), (-777, 888, 20000));
    assert_eq!((f.swarm[3].vel.x, f.swarm[3].vel.y, f.swarm[3].vel.z), (0, 0, 0));
    assert_eq!(f.swarm[3].id, 3);
}

#[test]
fn tick_advances_deterministically() {
    let mut f1 = EntityField::default();
    let mut f2 = EntityField::default();
    assert_eq!(f1.swarm.len(), 14);
    assert_eq!(f1.swarm[0].pos.x, 0);
    assert_eq!(f1.swarm[0].pos.y, 1000);
    assert!(f1.tick(16).is_ok());
    assert!(f2.tick(16).is_ok());
    assert_eq!(f1.swarm.len(), 14);
    for i in 0..14 {
        assert_eq!(f1.swarm[i].id, i);
        // Two runs from the same state agree exactly.
        assert_eq!(f1.swarm[i].pos, f2.swarm[i].pos);
        assert_eq!(f1.swarm[i].vel, f2.swarm[i].vel);
    }
    // Each particle pressed its field into the terrain.
    assert_eq!(f1.world.deform_stack.len(), 14);
    assert_eq!(f1.world.kernel_count(), 1);
    // The forces moved at least one particle off its spawn point.
    assert!(f1.swarm.iter().any(|e| e.vel.x != 0 || e.vel.y != 0 || e.vel.z != 0));
    // A second tick also succeeds.
    assert!(f1.tick(16).is_ok());
}

#[test]
fn tick_fails_when_a_particle_leaves_the_world() {
    let mut f = EntityField::default();
    f.reset(5, Vec3::new(2000000000, 0, 0));
    let before: Vec<(i64, i64, i64)> =
        f.swarm.iter().map(|e| (e.pos.x, e.pos.y, e.pos.z)).collect();
    assert!(f.tick(16).is_err());
    // The swarm is untouched by a failed tick.
    for (i, e) in f.swarm.iter().enumerate() {
        assert_eq!((e.pos.x, e.pos.y, e.pos.z), before[i]);
    }
}
