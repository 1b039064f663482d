use seldom_map_nav::forces::{apply_forces, separation_force};
use seldom_map_nav::motion::advance;
use seldom_map_nav::spatial::SpatialIndex;
use seldom_map_nav::vec2::Vec2;

#[test]
fn advance_pops_reached_waypoints_and_spends_leftover() {
    let mut path = vec![Vec2::new(10_000, 0), Vec2::new(20_000, 0)];
    let pos = advance(Vec2::zero(), &mut path, 15_000);
    // The first hop (10 units) fits the budget; the remaining 5 units go
    // partway toward the second waypoint.
    assert_eq!((pos.x, pos.y), (15_000, 0));
    assert_eq!(path.len(), 1);
    assert_eq!((path[0].x, path[0].y), (20_000, 0));
}

#[test]
fn advance_reaches_end_when_budget_covers_corridor() {
    let mut path = vec![Vec2::new(10_000, 0), Vec2::new(10_000, 5_000)];
    let pos = advance(Vec2::zero(), &mut path, 15_000);
    assert_eq!((pos.x, pos.y), (10_000, 5_000));
    assert!(path.is_empty());
}

#[test]
fn advance_zero_budget_moves_nowhere() {
    let mut path = vec![Vec2::new(10_000, 0)];
    let pos = advance(Vec2::new(1, 2), &mut path, 0);
    assert_eq!((pos.x, pos.y), (1, 2));
    assert_eq!(path.len(), 1);
}

#[test]
fn advance_zero_budget_keeps_coincident_waypoint() {
    // A waypoint lying exactly on the agent is not consumed by a tick that
    // brings no travel budget.
    let mut path = vec![Vec2::new(5, 5), Vec2::new(10_000, 0)];
    let pos = advance(Vec2::new(5, 5), &mut path, 0);
    assert_eq!((pos.x, pos.y), (5, 5));
    assert_eq!(path.len(), 2);
}

#[test]
fn advance_positive_budget_consumes_coincident_waypoint() {
    let mut path = vec![Vec2::new(5, 5)];
    let pos = advance(Vec2::new(5, 5), &mut path, 1);
    assert_eq!((pos.x, pos.y), (5, 5));
    assert!(path.is_empty());
}

#[test]
fn advance_displacement_never_exceeds_budget() {
    // A bent corridor: total length 30 units, budget 17 units.
    let mut path = vec![Vec2::new(10_000, 0), Vec2::new(10_000, 10_000), Vec2::new(0, 10_000)];
    let start = Vec2::zero();
    let pos = advance(start, &mut path, 17_000);
    // Walked along the corridor: 10 units east, then 7 north.
    assert_eq!((pos.x, pos.y), (10_000, 7_000));
    assert_eq!(path.len(), 2);
}

#[test]
fn separation_two_agents_symmetric() {
    let mut idx = SpatialIndex::new();
    idx.insert(1, Vec2::new(0, 0));
    idx.insert(2, Vec2::new(2_000, 0));
    let f1 = separation_force(1, Vec2::new(0, 0), &idx);
    let f2 = separation_force(2, Vec2::new(2_000, 0), &idx);
    // Equal magnitudes, opposite directions, along the x axis.
    assert_eq!((f1.x, f1.y), (-19, 0));
    assert_eq!((f2.x, f2.y), (19, 0));
    assert_eq!(f1.x, -f2.x);
    assert_eq!(f1.y, 0);
    assert_eq!(f2.y, 0);
}

#[test]
fn separation_empty_without_neighbors() {
    let mut idx = SpatialIndex::new();
    idx.insert(1, Vec2::zero());
    let f = separation_force(1, Vec2::zero(), &idx);
    assert_eq!((f.x, f.y), (0, 0));
}

#[test]
fn queueing_brakes_behind_blocker() {
    // Without a blocker the agent keeps its full velocity toward the target.
    let mut alone = SpatialIndex::new();
    alone.insert(1, Vec2::zero());
    let v_free = apply_forces(1, Vec2::new(100_000, 0), Vec2::zero(), Vec2::new(1000, 0), &alone);
    assert_eq!((v_free.x, v_free.y), (1000, 0));

    // A blocker 30 units ahead sits within the lookahead avoidance radius
    // and within the queue radius: the agent brakes (velocity reverses).
    let mut crowded = SpatialIndex::new();
    crowded.insert(1, Vec2::zero());
    crowded.insert(2, Vec2::new(30_000, 0));
    let v_blocked =
        apply_forces(1, Vec2::new(100_000, 0), Vec2::zero(), Vec2::new(1000, 0), &crowded);
    assert_eq!((v_blocked.x, v_blocked.y), (-1000, 0));
}

#[test]
fn seek_turns_velocity_toward_target_from_rest() {
    let mut idx = SpatialIndex::new();
    idx.insert(1, Vec2::zero());
    let v = apply_forces(1, Vec2::new(0, 100_000), Vec2::zero(), Vec2::zero(), &idx);
    assert_eq!((v.x, v.y), (0, 1000));
}
