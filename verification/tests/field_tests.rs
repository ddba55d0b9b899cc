use swarm_sim::vec3::Vec3;
use swarm_sim::world_manifold::FieldError;
use swarm_sim::world_manifold::WorldManifold;

#[test]
fn fresh_field_reads_zero_everywhere_sampled() {
    let w = WorldManifold::default();
    assert_eq!(w.height_at(0, 0), Ok(0));
    assert_eq!(w.height_at(123456, -654321), Ok(0));
    let g = w.gradient_at(Vec3::new(5000, -5000, 0)).unwrap();
    assert_eq!((g.x, g.y, g.z), (0, 0, 0));
}

#[test]
fn mapping_center_and_edges() {
    assert_eq!(WorldManifold::world_pos_to_field_pos_2d(0, 0), Some((5000, 5000)));
    assert_eq!(
        WorldManifold::world_pos_to_field_pos_2d(167, 0),
        Some((5001, 5000))
    );
    assert_eq!(
        WorldManifold::world_pos_to_field_pos_2d(1666166, -1666500),
        Some((9998, 1))
    );
    assert_eq!(WorldManifold::world_pos_to_field_pos_2d(1666167, 0), None);
    assert_eq!(WorldManifold::world_pos_to_field_pos_2d(0, -1666501), None);
}

#[test]
fn out_of_bounds_queries_fail_not_clamp() {
    let mut w = WorldManifold::default();
    assert_eq!(w.height_at(2000000, 0), Err(FieldError::OutOfBounds));
    assert_eq!(w.height_at(0, -2000000), Err(FieldError::OutOfBounds));
    assert!(w.gradient_at(Vec3::new(2000000, 0, 0)).is_err());
    assert_eq!(
        w.deform(Vec3::new(0, 2000000, 0), 100),
        Err(FieldError::OutOfBounds)
    );
    // The failed deform left no trace.
    assert_eq!(w.height_at(0, 0), Ok(0));
    assert_eq!(w.kernel_count(), 0);
}

#[test]
fn deform_accumulates_inverse_square_kernel() {
    let mut w = WorldManifold::default();
    assert_eq!(w.deform(Vec3::new(0, 0, 0), 100), Ok(()));
    // Center cell: 100 * 1000 / 1.
    assert_eq!(w.height_at(0, 0), Ok(100000));
    // One cell to the right: 100 * 1000 / (1 + 1).
    assert_eq!(w.height_at(167, 0), Ok(50000));
    // Two cells out: 100 * 1000 / (1 + 4).
    assert_eq!(w.height_at(500, 0), Ok(20000));
    // A second deformation at the same spot doubles the center.
    assert_eq!(w.deform(Vec3::new(0, 0, 0), 100), Ok(()));
    assert_eq!(w.height_at(0, 0), Ok(200000));
}

#[test]
fn negative_magnitude_mirrors_positive() {
    let mut w = WorldManifold::default();
    assert_eq!(w.deform(Vec3::new(0, 0, 0), -100), Ok(()));
    assert_eq!(w.height_at(0, 0), Ok(-100000));
    assert_eq!(w.height_at(167, 0), Ok(-50000));
}

#[test]
fn kernel_memoization_no_recompute_on_hit() {
    let mut w = WorldManifold::default();
    assert_eq!(w.kernel_count(), 0);
    w.deform(Vec3::new(0, 0, 0), 100).unwrap();
    assert_eq!(w.kernel_count(), 1);
    // Same magnitude again: a cache hit, nothing recomputed.
    w.deform(Vec3::new(500, 500, 0), 100).unwrap();
    assert_eq!(w.kernel_count(), 1);
    // A new magnitude computes exactly one new kernel.
    w.deform(Vec3::new(0, 0, 0), 250).unwrap();
    assert_eq!(w.kernel_count(), 2);
    w.deform(Vec3::new(-500, 0, 0), 250).unwrap();
    assert_eq!(w.kernel_count(), 2);
}

#[test]
fn flatten_restores_heights_exactly() {
    let mut w = WorldManifold::default();
    let before_center = w.height_at(0, 0).unwrap();
    let before_off = w.height_at(1000, -2000).unwrap();
    w.deform(Vec3::new(0, 0, 0), 100).unwrap();
    w.deform(Vec3::new(1000, -2000, 0), 700).unwrap();
    w.deform(Vec3::new(-300, 500, 0), -40).unwrap();
    assert_ne!(w.height_at(0, 0).unwrap(), before_center);
    w.flatten();
    assert_eq!(w.height_at(0, 0).unwrap(), before_center);
    assert_eq!(w.height_at(1000, -2000).unwrap(), before_off);
    assert_eq!(w.height_at(0, 0), Ok(0));
}

#[test]
fn flatten_undoes_mixed_signs_and_grows_only_the_cache() {
    let mut w = WorldManifold::default();
    w.deform(Vec3::new(0, 0, 0), 100).unwrap();
    w.deform(Vec3::new(100, 100, 0), -100).unwrap();
    assert_eq!(w.kernel_count(), 2);
    w.flatten();
    assert_eq!(w.height_at(0, 0), Ok(0));
    assert_eq!(w.height_at(100, 100), Ok(0));
    // The replay reuses the kernels already cached for the negated
    // magnitudes; nothing new was computed.
    assert_eq!(w.kernel_count(), 2);
}

#[test]
fn largest_magnitude_at_the_world_edge() {
    let mut w = WorldManifold::default();
    let edge = Vec3::new(1666166, 1666166, 0);
    assert_eq!(w.deform(edge, 1000000), Ok(()));
    // Center cell of the clipped kernel: 1000000 * 1000 / 1.
    assert_eq!(w.height_at(1666166, 1666166), Ok(1000000000));
    w.flatten();
    assert_eq!(w.height_at(1666166, 1666166), Ok(0));
}

#[test]
fn three_component_positions_ignore_height_for_mapping() {
    assert_eq!(
        WorldManifold::world_pos_to_field_pos(Vec3::new(0, 0, 987654321)),
        Some((5000, 5000))
    );
    assert_eq!(
        WorldManifold::world_pos_to_field_pos(Vec3::new(9999999, 0, 0)),
        None
    );
}

#[test]
fn gradient_points_away_from_accumulated_mass() {
    let mut w = WorldManifold::default();
    w.deform(Vec3::new(0, 0, 0), 100).unwrap();
    // At the peak itself the stencil is symmetric.
    let g0 = w.gradient_at(Vec3::new(0, 0, 0)).unwrap();
    assert_eq!((g0.x, g0.y, g0.z), (0, 0, 0));
    // One cell to the right of the peak the slope pushes further right:
    // left column 1414*50000/1000 + 100000 + 1414*50000/1000, right
    // column 1414*16666/1000 + 20000 + 1414*16666/1000.
    let g1 = w.gradient_at(Vec3::new(167, 0, 0)).unwrap();
    assert_eq!((g1.x, g1.y, g1.z), (174270, 0, 0));
}
