use navmesh::{NavMesh, NavTriangle, NavVec3};
use seldom_map_nav::mesh::{Navmeshes, PathQuality, QueryQuality};
use seldom_map_nav::nav::{
    generate_path, nav_tick, plan_event, Nav, NavEvent, Pathfind, PathTarget, PlanError,
    PlanStep,
};
use seldom_map_nav::spatial::SpatialIndex;
use seldom_map_nav::vec2::Vec2;

/// A flat rectangular walkable area from (0, -50) to (200, 50) world units,
/// with vertices given in milli-unit counts.
fn rect_mesh() -> NavMesh {
    let vertices: Vec<NavVec3> = vec![
        (0.0, -50_000.0, 0.0).into(),
        (200_000.0, -50_000.0, 0.0).into(),
        (200_000.0, 50_000.0, 0.0).into(),
        (0.0, 50_000.0, 0.0).into(),
    ];
    let triangles: Vec<NavTriangle> = vec![(0, 1, 2).into(), (2, 3, 0).into()];
    NavMesh::new(vertices, triangles).unwrap()
}

fn meshes_with_clearance(clearance: u64) -> Navmeshes {
    let mut meshes = Navmeshes::new();
    meshes.insert(clearance, rect_mesh());
    meshes
}

#[test]
fn mesh_selection_by_clearance() {
    let mut meshes = Navmeshes::new();
    assert!(meshes.mesh(1).is_none());
    meshes.insert(20_000, rect_mesh());
    meshes.insert(5_000, rect_mesh());
    assert!(meshes.mesh(1).is_some());
    assert!(meshes.mesh(20_000).is_some());
    assert!(meshes.mesh(20_001).is_none());
}

#[test]
fn straight_corridor_is_ordered_toward_goal() {
    let meshes = meshes_with_clearance(10_000);
    let positions = SpatialIndex::new();
    let mut pf = Pathfind::new(
        0,
        10_000,
        None,
        PathTarget::Static(Vec2::new(100_000, 0)),
        QueryQuality::Accuracy,
        PathQuality::Accuracy,
    );
    let mut nav = Nav::new(50_000);
    let step = generate_path(&mut pf, &mut nav, Vec2::zero(), &positions, &meshes, 0);
    assert_eq!(step, PlanStep::Planned);
    assert!(!pf.path.is_empty());
    // Walking the corridor from the agent's position, the x coordinate never
    // decreases and the corridor ends at the goal.
    let mut prev_x = 0i64;
    for w in pf.path.iter() {
        assert!(w.x >= prev_x);
        assert!(w.y.abs() <= 1_000);
        prev_x = w.x;
    }
    let last = pf.path[pf.path.len() - 1];
    assert!((last.x - 100_000).abs() <= 1_000);
}

#[test]
fn straight_corridor_two_ticks_to_arrival() {
    let meshes = meshes_with_clearance(10_000);
    let positions = SpatialIndex::new();
    let mut tree = SpatialIndex::new();
    tree.insert(1, Vec2::zero());
    let mut pf = Pathfind::new(
        0,
        10_000,
        None,
        PathTarget::Static(Vec2::new(100_000, 0)),
        QueryQuality::Accuracy,
        PathQuality::Accuracy,
    );
    let mut nav = Nav::new(50_000);
    let mut pos = Vec2::zero();
    generate_path(&mut pf, &mut nav, pos, &positions, &meshes, 0);
    assert!(!nav.done);

    // Tick 1: speed 50 units/s for 1 s covers half the 100-unit corridor.
    let (new_pos, ev) = nav_tick(1, &mut pf, &mut nav, pos, &tree, 1000);
    pos = new_pos;
    assert!(ev.is_none());
    assert!(!nav.done);
    assert!((pos.x - 50_000).abs() <= 1_000);
    assert!(pos.y.abs() <= 1_000);

    // Tick 2: the rest of the corridor fits the budget; the agent arrives.
    let (new_pos, ev) = nav_tick(1, &mut pf, &mut nav, pos, &tree, 1000);
    pos = new_pos;
    assert_eq!(ev, Some(NavEvent::Success));
    assert!(nav.done);
    assert!(pf.path.is_empty());
    assert!((pos.x - 100_000).abs() <= 1_000);
}

#[test]
fn stored_corridor_matches_mesh_answer() {
    // The corridor the planner stores is exactly what the mesh answers for
    // the same endpoints and qualities, truncated to whole counts.
    let meshes = meshes_with_clearance(10_000);
    let positions = SpatialIndex::new();
    let mut pf = Pathfind::new(
        0,
        10_000,
        None,
        PathTarget::Static(Vec2::new(100_000, 7_000)),
        QueryQuality::Accuracy,
        PathQuality::Accuracy,
    );
    let mut nav = Nav::new(50_000);
    let start = Vec2::new(3_000, -2_000);
    let step = generate_path(&mut pf, &mut nav, start, &positions, &meshes, 0);
    assert_eq!(step, PlanStep::Planned);
    let direct = meshes
        .mesh(10_000)
        .unwrap()
        .find_path(
            NavVec3::new(3_000.0, -2_000.0, 0.0),
            NavVec3::new(100_000.0, 7_000.0, 0.0),
            navmesh::NavQuery::Accuracy,
            navmesh::NavPathMode::Accuracy,
        )
        .unwrap();
    let expected: Vec<(i64, i64)> = direct.iter().map(|v| (v.x as i64, v.y as i64)).collect();
    let stored: Vec<(i64, i64)> = pf.path.iter().map(|w| (w.x, w.y)).collect();
    assert_eq!(stored, expected);
}

#[test]
fn once_policy_plans_exactly_once() {
    let meshes = meshes_with_clearance(10_000);
    let positions = SpatialIndex::new();
    let mut pf = Pathfind::new(
        0,
        10_000,
        None,
        PathTarget::Static(Vec2::new(100_000, 0)),
        QueryQuality::Accuracy,
        PathQuality::Accuracy,
    );
    let mut nav = Nav::new(50_000);
    let first = generate_path(&mut pf, &mut nav, Vec2::zero(), &positions, &meshes, 0);
    assert_eq!(first, PlanStep::Planned);
    assert!(plan_event(first).is_none());
    let stored: Vec<(i64, i64)> = pf.path.iter().map(|w| (w.x, w.y)).collect();
    // The second call is a no-op: nothing is recomputed, nothing changes.
    let second = generate_path(&mut pf, &mut nav, Vec2::new(7_000, 7_000), &positions, &meshes, 99_999);
    assert_eq!(second, PlanStep::NotDue);
    let kept: Vec<(i64, i64)> = pf.path.iter().map(|w| (w.x, w.y)).collect();
    assert_eq!(stored, kept);
}

#[test]
fn periodic_policy_rearms_from_now() {
    let meshes = meshes_with_clearance(10_000);
    let positions = SpatialIndex::new();
    let mut pf = Pathfind::new(
        0,
        10_000,
        Some(1000),
        PathTarget::Static(Vec2::new(100_000, 0)),
        QueryQuality::Accuracy,
        PathQuality::Accuracy,
    );
    let mut nav = Nav::new(50_000);
    assert_eq!(
        generate_path(&mut pf, &mut nav, Vec2::zero(), &positions, &meshes, 0),
        PlanStep::Planned
    );
    assert_eq!(pf.next_repath, 1000);
    assert_eq!(
        generate_path(&mut pf, &mut nav, Vec2::zero(), &positions, &meshes, 500),
        PlanStep::NotDue
    );
    // Replanning runs late at 1700; the next deadline starts from then.
    assert_eq!(
        generate_path(&mut pf, &mut nav, Vec2::zero(), &positions, &meshes, 1700),
        PlanStep::Planned
    );
    assert_eq!(pf.next_repath, 2700);
}

#[test]
fn disconnected_goal_reports_no_path() {
    // Two walkable squares with no connection between them.
    let vertices: Vec<NavVec3> = vec![
        (0.0, 0.0, 0.0).into(),
        (50_000.0, 0.0, 0.0).into(),
        (50_000.0, 50_000.0, 0.0).into(),
        (0.0, 50_000.0, 0.0).into(),
        (150_000.0, 0.0, 0.0).into(),
        (200_000.0, 0.0, 0.0).into(),
        (200_000.0, 50_000.0, 0.0).into(),
        (150_000.0, 50_000.0, 0.0).into(),
    ];
    let triangles: Vec<NavTriangle> = vec![
        (0, 1, 2).into(),
        (2, 3, 0).into(),
        (4, 5, 6).into(),
        (6, 7, 4).into(),
    ];
    let mut meshes = Navmeshes::new();
    meshes.insert(10_000, NavMesh::new(vertices, triangles).unwrap());
    let positions = SpatialIndex::new();
    let mut pf = Pathfind::new(
        0,
        10_000,
        None,
        PathTarget::Static(Vec2::new(175_000, 25_000)),
        QueryQuality::Accuracy,
        PathQuality::Accuracy,
    );
    let mut nav = Nav::new(50_000);
    let step = generate_path(&mut pf, &mut nav, Vec2::new(25_000, 25_000), &positions, &meshes, 0);
    assert_eq!(step, PlanStep::Failed(PlanError::NoPathFound));
    assert!(pf.path.is_empty());
    assert!(nav.done);
}

#[test]
fn missing_clearance_fails_without_crash() {
    let meshes = meshes_with_clearance(5_000);
    let positions = SpatialIndex::new();
    let mut pf = Pathfind::new(
        0,
        10_000,
        None,
        PathTarget::Static(Vec2::new(100_000, 0)),
        QueryQuality::Accuracy,
        PathQuality::Accuracy,
    );
    let mut nav = Nav::new(50_000);
    let step = generate_path(&mut pf, &mut nav, Vec2::zero(), &positions, &meshes, 0);
    assert_eq!(step, PlanStep::Failed(PlanError::NoMeshForClearance(10_000)));
    assert_eq!(plan_event(step), Some(NavEvent::Failure));
    assert!(pf.path.is_empty());
}

#[test]
fn dynamic_target_gone_fails_and_agent_stays_put() {
    let meshes = meshes_with_clearance(10_000);
    // The registry holds only the navigating agent; agent 42 is gone.
    let mut positions = SpatialIndex::new();
    positions.insert(1, Vec2::zero());
    let mut pf = Pathfind::new(
        0,
        10_000,
        None,
        PathTarget::Dynamic(42),
        QueryQuality::Accuracy,
        PathQuality::Accuracy,
    );
    let mut nav = Nav::new(50_000);
    let step = generate_path(&mut pf, &mut nav, Vec2::zero(), &positions, &meshes, 0);
    assert_eq!(step, PlanStep::Failed(PlanError::UnresolvableDynamicTarget));
    assert!(pf.path.is_empty());
    // The tick after the failure does not move the agent, and no success
    // signal is raised for the failed plan.
    let (pos, ev) = nav_tick(1, &mut pf, &mut nav, Vec2::zero(), &positions, 1000);
    assert_eq!((pos.x, pos.y), (0, 0));
    assert!(ev.is_none());
}

#[test]
fn dynamic_target_resolves_to_live_position() {
    let meshes = meshes_with_clearance(10_000);
    let mut positions = SpatialIndex::new();
    positions.insert(1, Vec2::zero());
    positions.insert(42, Vec2::new(100_000, 0));
    let mut pf = Pathfind::new(
        0,
        10_000,
        None,
        PathTarget::Dynamic(42),
        QueryQuality::Accuracy,
        PathQuality::Accuracy,
    );
    let mut nav = Nav::new(50_000);
    let step = generate_path(&mut pf, &mut nav, Vec2::zero(), &positions, &meshes, 0);
    assert_eq!(step, PlanStep::Planned);
    let last = pf.path[pf.path.len() - 1];
    assert!((last.x - 100_000).abs() <= 1_000);
}

#[test]
fn empty_corridor_signals_success_once() {
    let mut pf = Pathfind::new(
        0,
        10_000,
        None,
        PathTarget::Static(Vec2::zero()),
        QueryQuality::Accuracy,
        PathQuality::Accuracy,
    );
    let mut nav = Nav::new(50_000);
    let tree = SpatialIndex::new();
    // No corridor was ever stored: the agent is (vacuously) done; the first
    // tick signals success, later ticks stay silent.
    let (_, first) = nav_tick(1, &mut pf, &mut nav, Vec2::zero(), &tree, 1000);
    assert_eq!(first, Some(NavEvent::Success));
    assert!(nav.done);
    let (_, second) = nav_tick(1, &mut pf, &mut nav, Vec2::zero(), &tree, 1000);
    assert!(second.is_none());
}
