use diagram_collision::error::CollisionError;
use diagram_collision::line::LineCollisionManager;

#[test]
fn three_coincident_intervals_fan_out() {
    // three trains with fully overlapping dwell windows on the same line
    // take levels 0, +1, -1 in that order
    let mut m = LineCollisionManager::new();
    assert_eq!(m.resolve_collisions(0, 10, 20), Ok(0));
    assert_eq!(m.resolve_collisions(0, 10, 20), Ok(1));
    assert_eq!(m.resolve_collisions(0, 10, 20), Ok(-1));
    assert_eq!(m.resolve_collisions(0, 10, 20), Ok(2));
    assert_eq!(m.resolve_collisions(0, 10, 20), Ok(-2));
}

#[test]
fn touching_intervals_count_as_overlapping() {
    // the overlap comparison is inclusive on both endpoints: an interval
    // that merely touches a stored one at a single point is pushed to the
    // next level
    let mut m = LineCollisionManager::new();
    assert_eq!(m.resolve_collisions(0, 5, 9), Ok(0));
    assert!(m.check_collision(0, 9, 12, 0));
    assert_eq!(m.resolve_collisions(0, 9, 12), Ok(1));
}

#[test]
fn disjoint_intervals_share_a_level() {
    let mut m = LineCollisionManager::new();
    assert_eq!(m.resolve_collisions(0, 5, 9), Ok(0));
    assert!(!m.check_collision(0, 10, 12, 0));
    assert_eq!(m.resolve_collisions(0, 10, 12), Ok(0));
}

#[test]
fn lines_are_independent() {
    let mut m = LineCollisionManager::new();
    assert_eq!(m.resolve_collisions(0, 10, 20), Ok(0));
    assert!(!m.check_collision(1, 10, 20, 0));
    assert_eq!(m.resolve_collisions(1, 10, 20), Ok(0));
    assert_eq!(m.resolve_collisions(7, 10, 20), Ok(0));
}

#[test]
fn interval_endpoints_are_normalized() {
    let mut m = LineCollisionManager::new();
    m.add_collision(0, 20, 10, 0);
    assert!(m.check_collision(0, 15, 16, 0));
    assert!(m.check_collision(0, 16, 15, 0));
    assert!(!m.check_collision(0, 21, 25, 0));
}

#[test]
fn equal_start_replaces_stored_interval() {
    // storage is keyed by interval start: registering a second interval
    // with the same start replaces the first
    let mut m = LineCollisionManager::new();
    m.add_collision(0, 5, 9, 0);
    assert!(m.check_collision(0, 8, 9, 0));
    m.add_collision(0, 5, 7, 0);
    assert!(!m.check_collision(0, 8, 9, 0));
    assert!(m.check_collision(0, 6, 7, 0));
}

#[test]
fn depth_cap_exhausts() {
    let mut m = LineCollisionManager::new();
    assert_eq!(m.resolve_collisions_impl(0, 1, 2, 0), Ok(0));
    assert_eq!(
        m.resolve_collisions_impl(0, 1, 2, 0),
        Err(CollisionError::StackingExhausted)
    );
    // a larger cap still finds a level
    assert_eq!(m.resolve_collisions_impl(0, 1, 2, 3), Ok(1));
}

#[test]
fn negative_depth_cap_exhausts_immediately() {
    let mut m = LineCollisionManager::new();
    assert_eq!(
        m.resolve_collisions_impl(0, 1, 2, -1),
        Err(CollisionError::StackingExhausted)
    );
}

#[test]
fn levels_are_probed_at_their_own_slots() {
    // an interval registered at level -1 does not block level +1
    let mut m = LineCollisionManager::new();
    m.add_collision(0, 10, 20, -1);
    assert!(m.check_collision(0, 10, 20, -1));
    assert!(!m.check_collision(0, 10, 20, 1));
    assert!(!m.check_collision(0, 10, 20, 0));
}
