use diagram_collision::error::CollisionError;
use diagram_collision::geom::Node;
use diagram_collision::manager::CollisionManager;
use diagram_collision::sat::sat_collision_test_with_mtv;

fn node(x: i64, y: i64) -> Node {
    Node { x, y }
}

fn square(x0: i64, y0: i64, side: i64) -> Vec<Node> {
    vec![
        node(x0, y0),
        node(x0 + side, y0),
        node(x0 + side, y0 + side),
        node(x0, y0 + side),
    ]
}

#[test]
fn sat_reports_overlap_of_offset_squares() {
    // unit squares (side 1000 = one diagram unit) offset by half a unit
    let a = square(500, 0, 1000);
    let b = square(0, 0, 1000);
    let mtv = sat_collision_test_with_mtv(&a, &b).expect("squares overlap");
    assert_eq!(mtv.overlap, 500_000);
    assert_eq!(mtv.axis_x, -1000);
    assert_eq!(mtv.axis_y, 0);
}

#[test]
fn sat_is_symmetric_in_verdict_and_overlap() {
    let a = square(500, 250, 1000);
    let b = square(0, 0, 1000);
    let m1 = sat_collision_test_with_mtv(&a, &b).expect("overlap");
    let m2 = sat_collision_test_with_mtv(&b, &a).expect("overlap");
    let l1 = m1.axis_x * m1.axis_x + m1.axis_y * m1.axis_y;
    let l2 = m2.axis_x * m2.axis_x + m2.axis_y * m2.axis_y;
    // equal true overlaps, compared without square roots
    assert_eq!(
        (m1.overlap as i128) * (m1.overlap as i128) * (l2 as i128),
        (m2.overlap as i128) * (m2.overlap as i128) * (l1 as i128)
    );
}

#[test]
fn sat_treats_touching_squares_as_disjoint() {
    let a = square(1000, 0, 1000);
    let b = square(0, 0, 1000);
    assert!(sat_collision_test_with_mtv(&a, &b).is_none());
    assert!(sat_collision_test_with_mtv(&b, &a).is_none());
}

#[test]
fn sat_rejects_small_vertex_lists() {
    let a = vec![node(0, 0), node(1000, 0)];
    let b = square(0, 0, 1000);
    assert!(sat_collision_test_with_mtv(&a, &b).is_none());
    assert!(sat_collision_test_with_mtv(&b, &a).is_none());
}

#[test]
fn two_point_polygons_have_no_axes_and_no_collision() {
    // all edges of a repeated point are degenerate, so the pair offers no
    // candidate axis at all
    let p = vec![node(7, 7), node(7, 7), node(7, 7)];
    let q = vec![node(7, 7), node(7, 7), node(7, 7)];
    assert!(sat_collision_test_with_mtv(&p, &q).is_none());
}

#[test]
fn point_inside_square_collides_through_square_axes() {
    // the point polygon contributes no axis, but the square's axes still
    // witness the overlap
    let p = vec![node(7, 7), node(7, 7), node(7, 7)];
    let b = square(0, 0, 1000);
    let mtv = sat_collision_test_with_mtv(&p, &b).expect("inside");
    assert_eq!((mtv.axis_x, mtv.axis_y, mtv.overlap), (0, 1000, 7000));
}

#[test]
fn register_rejects_short_polygon() {
    let mut m = CollisionManager::new(1000);
    let r = m.add_collision(vec![node(0, 0), node(1000, 0)]);
    assert_eq!(r, Err(CollisionError::InvalidShape));
}

#[test]
fn register_returns_stable_indices() {
    let mut m = CollisionManager::new(1000);
    assert_eq!(m.add_collision(square(0, 0, 1000)), Ok(0));
    assert_eq!(m.add_collision(square(5000, 0, 1000)), Ok(1));
}

#[test]
fn register_widens_global_bounds() {
    let mut m = CollisionManager::new(1000);
    let b0 = m.bounds();
    assert_eq!((b0.x_min, b0.x_max, b0.y_min, b0.y_max), (0, 0, 0, 0));
    m.add_collision(square(-2000, 500, 1000)).unwrap();
    let b = m.bounds();
    // the global box contains the polygon's box in all four bounds
    assert!(b.x_min <= -2000 && b.x_max >= -1000 && b.y_min <= 500 && b.y_max >= 1500);
    assert_eq!((b.x_min, b.x_max, b.y_min, b.y_max), (-2000, 0, 0, 1500));
    // a later registration only widens, never shrinks
    m.add_collision(square(0, -3000, 1000)).unwrap();
    let b2 = m.bounds();
    assert!(b2.x_min <= b.x_min && b2.x_max >= b.x_max && b2.y_min <= b.y_min && b2.y_max >= b.y_max);
}

#[test]
fn manual_bound_updates_are_monotonic() {
    let mut m = CollisionManager::new(1000);
    m.update_x_min(-500);
    m.update_x_max(700);
    m.update_y_min(100); // above the current minimum: no effect
    m.update_y_max(-100); // below the current maximum: no effect
    let b = m.bounds();
    assert_eq!((b.x_min, b.x_max, b.y_min, b.y_max), (-500, 700, 0, 0));
}

#[test]
fn resolve_pushes_half_overlapping_square_along_x() {
    // two unit squares; the candidate overlaps the fixed one by half a
    // unit and is resolved along angle 0 (pure +x)
    let mut m = CollisionManager::new(1000);
    m.add_collision(square(0, 0, 1000)).unwrap();
    let (placed, d) = m
        .resolve_collisions(square(500, 0, 1000), 1, 0)
        .expect("resolvable");
    assert_eq!(d, 500); // 0.5 diagram units
    assert_eq!(placed, square(1000, 0, 1000));
}

#[test]
fn resolve_pushes_half_overlapping_square_along_y() {
    // the same squares resolved along angle pi/2 (pure +y) must travel the
    // full height: half a unit by the perpendicular fallback, then half a
    // unit more along the y axis
    let mut m = CollisionManager::new(1000);
    m.add_collision(square(0, 0, 1000)).unwrap();
    let (placed, d) = m
        .resolve_collisions(square(500, 0, 1000), 0, 1)
        .expect("resolvable");
    assert_eq!(d, 1000); // 1.0 diagram units
    assert_eq!(placed, square(500, 1000, 1000));
}

#[test]
fn resolve_leaves_non_colliding_candidate_in_place() {
    let mut m = CollisionManager::new(1000);
    m.add_collision(square(0, 0, 1000)).unwrap();
    let candidate = square(5000, 5000, 1000);
    let (placed, d) = m.resolve_collisions(candidate.clone(), 1, 0).expect("free");
    assert_eq!(d, 0);
    assert_eq!(placed, candidate);
}

#[test]
fn resolve_clears_every_obstacle_at_once() {
    // two staggered obstacles: the candidate must clear the farther one in
    // a single maximal step, then the path is free
    let mut m = CollisionManager::new(1000);
    m.add_collision(square(0, 0, 1000)).unwrap();
    m.add_collision(square(600, 0, 1000)).unwrap();
    let (placed, d) = m
        .resolve_collisions(square(100, 0, 1000), 1, 0)
        .expect("resolvable");
    assert_eq!(d, 1500);
    assert_eq!(placed, square(1600, 0, 1000));
}

#[test]
fn resolve_exhausts_iterations_between_coincident_obstacles() {
    // two coincident, identically sized obstacles; one iteration is not
    // enough to clear them, so the cap is hit and an error is reported
    let mut m = CollisionManager::new(1000);
    m.add_collision(square(0, 0, 1000)).unwrap();
    m.add_collision(square(0, 0, 1000)).unwrap();
    let before = m.bounds();
    let r = m.resolve_collisions_recursive(square(0, 0, 1000), 1, 0, 1);
    assert_eq!(r, Err(CollisionError::ResolutionExhausted));
    // a failed resolution registers nothing and leaves the bounds alone
    let after = m.bounds();
    assert_eq!(
        (before.x_min, before.x_max, before.y_min, before.y_max),
        (after.x_min, after.x_max, after.y_min, after.y_max)
    );
}

#[test]
fn resolve_with_zero_iteration_budget_fails_immediately() {
    let mut m = CollisionManager::new(1000);
    let r = m.resolve_collisions_recursive(square(0, 0, 1000), 1, 0, 0);
    assert_eq!(r, Err(CollisionError::ResolutionExhausted));
}

#[test]
fn resolve_rejects_short_candidate() {
    let mut m = CollisionManager::new(1000);
    let r = m.resolve_collisions(vec![node(0, 0), node(1000, 0)], 1, 0);
    assert_eq!(r, Err(CollisionError::InvalidShape));
}

#[test]
fn resolve_reports_leaving_coordinate_range() {
    // the displacement needed to clear the obstacle would push the
    // candidate beyond the supported coordinate square
    let mut m = CollisionManager::new(1000);
    m.add_collision(square(200_000, 0, 300_000)).unwrap();
    let r = m.resolve_collisions(square(200_000, 0, 300_000), 1, 0);
    assert_eq!(r, Err(CollisionError::OutOfRange));
}

#[test]
fn resolve_succeeds_after_registering_its_own_output_elsewhere() {
    // successive resolutions stack candidates one after the other
    let mut m = CollisionManager::new(1000);
    m.add_collision(square(0, 0, 1000)).unwrap();
    let (first, d1) = m.resolve_collisions(square(0, 0, 1000), 1, 0).unwrap();
    assert_eq!(d1, 1000);
    assert_eq!(first, square(1000, 0, 1000));
    let (second, d2) = m.resolve_collisions(square(0, 0, 1000), 1, 0).unwrap();
    assert_eq!(d2, 2000);
    assert_eq!(second, square(2000, 0, 1000));
}

#[test]
fn small_residual_displacement_snaps_in_place() {
    // a sliver of overlap whose required displacement (0.3 units) lies
    // below the half-unit snap threshold is accepted as resolved
    let mut m = CollisionManager::new(1000);
    m.add_collision(square(0, 0, 1000)).unwrap();
    let candidate = square(700, 0, 1000);
    let (placed, d) = m.resolve_collisions(candidate.clone(), 1, 0).unwrap();
    assert_eq!(d, 0);
    assert_eq!(placed, candidate);
}

#[test]
fn grid_with_small_cells_still_finds_collisions() {
    // a cell size much smaller than the shapes: the polygon spans many
    // cells and must still be found
    let mut m = CollisionManager::new(7);
    m.add_collision(square(0, 0, 1000)).unwrap();
    let (_, d) = m.resolve_collisions(square(500, 0, 1000), 1, 0).unwrap();
    assert_eq!(d, 500);
}

#[test]
fn grid_with_huge_cells_still_finds_collisions() {
    let mut m = CollisionManager::new(500_000);
    m.add_collision(square(0, 0, 1000)).unwrap();
    let (_, d) = m.resolve_collisions(square(500, 0, 1000), 1, 0).unwrap();
    assert_eq!(d, 500);
}

#[test]
fn negative_coordinates_are_indexed_and_resolved() {
    // negative coordinates all share grid column zero, which must stay a
    // safe over-approximation
    let mut m = CollisionManager::new(1000);
    m.add_collision(square(-3000, -3000, 1000)).unwrap();
    let (placed, d) = m
        .resolve_collisions(square(-2500, -3000, 1000), 1, 0)
        .expect("resolvable");
    assert_eq!(d, 500);
    assert_eq!(placed, square(-2000, -3000, 1000));
}

#[test]
fn error_messages_name_the_failure() {
    assert_eq!(
        CollisionError::InvalidShape.message(),
        "polygon must have at least 3 vertices"
    );
    assert_eq!(
        CollisionError::ResolutionExhausted.message(),
        "maximum iterations reached while resolving collisions"
    );
    assert_eq!(
        CollisionError::StackingExhausted.message(),
        "maximum depth reached while stacking line intervals"
    );
    assert_eq!(
        CollisionError::OutOfRange.message(),
        "displacement left the supported coordinate range"
    );
}
