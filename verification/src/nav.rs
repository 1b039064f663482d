//! Path planning and navigation state: when to replan, how a plan's outcome
//! is stored, and the per-tick step that steers and advances one agent along
//! its corridor.

use vstd::prelude::*;
use crate::vec2::{Vec2, MAX_COORD, UNIT, boundedp, tdiv};
use crate::spatial::{SpatialIndex, lookup};
use crate::mesh::{Navmeshes, PathQuality, QueryQuality, corridor_in_bounds, has_fit,
    lower_idx, mesh_find_path, path_of};
use crate::motion::{advance, points_in_world, tick_consumed, tick_end, views, wf_corridor};
use crate::forces::{apply_forces, spec_apply_forces};

verus! {

/// A target to navigate to.
#[derive(Clone, Copy, Debug, PartialEq, Eq, Structural)]
pub enum PathTarget {
    /// A fixed position.
    Static(Vec2),
    /// An agent, identified by its stable id, whose live position is resolved
    /// at each replan.
    Dynamic(u64),
}

/// Why a planning step produced no corridor.
#[derive(Clone, Copy, Debug, PartialEq, Eq, Structural)]
pub enum PlanError {
    /// No mesh variant supports the requested clearance radius.
    NoMeshForClearance(u64),
    /// The mesh holds no path between start and goal.
    NoPathFound,
    /// The referenced target agent no longer exists.
    UnresolvableDynamicTarget,
}

/// What one planning step did.
#[derive(Clone, Copy, Debug, PartialEq, Eq, Structural)]
pub enum PlanStep {
    /// The schedule did not call for replanning.
    NotDue,
    /// A corridor was computed and stored.
    Planned,
    /// Planning failed; the corridor is now empty. Hosts forward this as a
    /// failure signal.
    Failed(PlanError),
}

/// Completion signal for listening collaborators.
#[derive(Clone, Copy, Debug, PartialEq, Eq, Structural)]
pub enum NavEvent {
    /// The corridor was exhausted: the agent arrived.
    Success,
    /// Planning failed.
    Failure,
}

/// Replanning schedule and stored corridor of one navigating agent.
#[derive(Clone, Debug)]
pub struct Pathfind {
    /// Identifier of the map whose mesh variants to query.
    pub map: u64,
    /// Clearance radius, in milli-units; selects the mesh variant.
    pub radius: u64,
    /// How often to replan, in milliseconds; `None` plans exactly once.
    pub repath_frequency: Option<u64>,
    /// Next time to replan, in elapsed milliseconds. For the once policy,
    /// zero means "not planned yet" and `u64::MAX` means "already planned".
    pub next_repath: u64,
    /// Target to navigate to.
    pub target: PathTarget,
    /// The stored waypoint corridor, front first.
    pub path: Vec<Vec2>,
    /// Quality of querying a point on the mesh.
    pub query: QueryQuality,
    /// Quality of finding a path.
    pub path_mode: PathQuality,
}

/// Motion state of one navigating agent.
#[derive(Clone, Copy, Debug)]
pub struct Nav {
    /// Travel speed, in milli-units per second.
    pub speed: i64,
    /// Whether the corridor is exhausted (the agent arrived).
    pub done: bool,
    /// Current steering velocity (unit scale).
    pub velocity: Vec2,
}

/// Everything a navigating agent carries: planning and motion state.
#[derive(Clone, Debug)]
pub struct NavBundle {
    /// Pathfinding state.
    pub pathfind: Pathfind,
    /// Motion state.
    pub nav: Nav,
}

/// The corridor's waypoints are in world bounds.
pub open spec fn wf_pathfind(pf: Pathfind) -> bool {
    wf_corridor(pf.path@)
}

/// Speed is nonnegative and bounded; the velocity is unit scale.
pub open spec fn wf_nav(n: Nav) -> bool {
    0 <= n.speed <= MAX_COORD && boundedp(n.velocity@, UNIT as int)
}

/// The schedule calls for replanning at elapsed time `now`.
pub open spec fn repath_due(pf: Pathfind, now: u64) -> bool {
    match pf.repath_frequency {
        Some(_) => pf.next_repath <= now,
        None => pf.next_repath == 0,
    }
}

/// The schedule after a due planning step at elapsed time `now`: the once
/// policy closes, the periodic policy re-arms `interval` past `now`.
pub open spec fn sched_after(pf: Pathfind, now: u64) -> u64 {
    match pf.repath_frequency {
        Some(f) => (now + f) as u64,
        None => u64::MAX,
    }
}

/// The planned travel budget for one tick, in milli-units.
pub open spec fn spec_budget(speed: i64, dt_ms: u64) -> int {
    tdiv(speed * dt_ms, 1000)
}

/// The target as a concrete point: a static target directly, a dynamic one
/// through the position registry.
pub open spec fn resolve_target_spec(t: PathTarget, s: Seq<crate::spatial::Neighbor>)
    -> Option<Vec2> {
    match t {
        PathTarget::Static(p) => Some(p),
        PathTarget::Dynamic(id) => lookup(s, id),
    }
}

impl Pathfind {
    /// Create a `Pathfind`: no corridor yet, first planning step due at once.
    pub fn new(
        map: u64,
        radius: u64,
        repath_frequency: Option<u64>,
        target: PathTarget,
        query: QueryQuality,
        path_mode: PathQuality,
    ) -> (r: Pathfind)
        ensures
            r.map == map,
            r.radius == radius,
            r.repath_frequency == repath_frequency,
            r.next_repath == 0,
            r.target == target,
            r.path@ == Seq::<Vec2>::empty(),
            r.query == query,
            r.path_mode == path_mode,
            wf_pathfind(r),
            repath_due(r, 0),
    {
        Pathfind {
            map,
            radius,
            repath_frequency,
            next_repath: 0,
            target,
            path: Vec::new(),
            query,
            path_mode,
        }
    }
}

impl Nav {
    /// Create a `Nav` at rest: not arrived, no steering velocity yet.
    pub fn new(speed: i64) -> (r: Nav)
        requires
            0 <= speed <= MAX_COORD,
        ensures
            r.speed == speed,
            r.done == false,
            r.velocity@ == (0int, 0int),
            wf_nav(r),
    {
        Nav { speed, done: false, velocity: Vec2::zero() }
    }
}

/// Store one planning outcome: a computed corridor replaces the stored one,
/// a failure empties it; the arrival flag then mirrors corridor emptiness.
pub fn apply_plan_result(
    pf: &mut Pathfind,
    nav: &mut Nav,
    outcome: Result<Vec<Vec2>, PlanError>,
) -> (r: PlanStep)
    requires
        outcome matches Ok(p) ==> wf_corridor(p@),
    ensures
        match outcome {
            Ok(p) => final(pf).path@ == p@ && r == PlanStep::Planned,
            Err(e) => final(pf).path@ == Seq::<Vec2>::empty() && r == PlanStep::Failed(e),
        },
        final(nav).done == (final(pf).path@.len() == 0),
        final(nav).speed == old(nav).speed,
        final(nav).velocity == old(nav).velocity,
        final(pf).map == old(pf).map,
        final(pf).radius == old(pf).radius,
        final(pf).repath_frequency == old(pf).repath_frequency,
        final(pf).next_repath == old(pf).next_repath,
        final(pf).target == old(pf).target,
        final(pf).query == old(pf).query,
        final(pf).path_mode == old(pf).path_mode,
        wf_pathfind(*final(pf)),
{
    let r = match outcome {
        Ok(p) => {
            pf.path = p;
            PlanStep::Planned
        },
        Err(e) => {
            pf.path = Vec::new();
            PlanStep::Failed(e)
        },
    };
    nav.done = pf.path.len() == 0;
    r
}

/// One planning step for one agent: decide by the replanning schedule; when
/// due, resolve the target, pick the mesh variant for the stored clearance,
/// query it for a corridor, and store the outcome. Any failure leaves an
/// empty corridor and is reported, never propagated.
pub fn generate_path(
    pf: &mut Pathfind,
    nav: &mut Nav,
    position: Vec2,
    positions: &SpatialIndex,
    meshes: &Navmeshes,
    now: u64,
) -> (r: PlanStep)
    requires
        wf_pathfind(*old(pf)),
        meshes.wf(),
        old(pf).repath_frequency matches Some(f) ==> now + f <= u64::MAX,
    ensures
        r == PlanStep::NotDue <==> !repath_due(*old(pf), now),
        !repath_due(*old(pf), now) ==> *final(pf) == *old(pf) && *final(nav) == *old(nav),
        repath_due(*old(pf), now) ==> {
            &&& final(pf).next_repath == sched_after(*old(pf), now)
            &&& final(nav).done == (final(pf).path@.len() == 0)
            &&& final(nav).speed == old(nav).speed
            &&& final(nav).velocity == old(nav).velocity
            &&& match resolve_target_spec(old(pf).target, positions@) {
                None => r == PlanStep::Failed(PlanError::UnresolvableDynamicTarget)
                    && final(pf).path@.len() == 0,
                Some(goal) => {
                    if !has_fit(meshes@, old(pf).radius) {
                        r == PlanStep::Failed(PlanError::NoMeshForClearance(old(pf).radius))
                            && final(pf).path@.len() == 0
                    } else {
                        let m = meshes@[lower_idx(meshes@, old(pf).radius)].mesh;
                        match path_of(m, position@, goal@, old(pf).query,
                            old(pf).path_mode) {
                            None => r == PlanStep::Failed(PlanError::NoPathFound)
                                && final(pf).path@.len() == 0,
                            Some(ws) => if points_in_world(ws) {
                                r == PlanStep::Planned && views(final(pf).path@) == ws
                            } else {
                                // An answer leaving the world bound is refused
                                // like a missing path.
                                r == PlanStep::Failed(PlanError::NoPathFound)
                                    && final(pf).path@.len() == 0
                            },
                        }
                    }
                },
            }
        },
        final(pf).map == old(pf).map,
        final(pf).radius == old(pf).radius,
        final(pf).repath_frequency == old(pf).repath_frequency,
        final(pf).target == old(pf).target,
        final(pf).query == old(pf).query,
        final(pf).path_mode == old(pf).path_mode,
        final(nav).speed == old(nav).speed,
        final(nav).velocity == old(nav).velocity,
        wf_pathfind(*final(pf)),
        // The schedule never moves backwards.
        final(pf).next_repath >= old(pf).next_repath,
{
    let due = match pf.repath_frequency {
        Some(f) => {
            if pf.next_repath <= now {
                pf.next_repath = now + f;
                true
            } else {
                false
            }
        },
        None => {
            if pf.next_repath == 0 {
                pf.next_repath = u64::MAX;
                true
            } else {
                false
            }
        },
    };
    if !due {
        return PlanStep::NotDue;
    }
    let goal_opt = match pf.target {
        PathTarget::Static(p) => Some(p),
        PathTarget::Dynamic(id) => positions.get(id),
    };
    let outcome: Result<Vec<Vec2>, PlanError> = match goal_opt {
        None => Err(PlanError::UnresolvableDynamicTarget),
        Some(goal) => match meshes.mesh(pf.radius) {
            None => Err(PlanError::NoMeshForClearance(pf.radius)),
            Some(m) => match mesh_find_path(m, position, goal, pf.query, pf.path_mode) {
                None => Err(PlanError::NoPathFound),
                Some(p) => {
                    if corridor_in_bounds(&p) {
                        Ok(p)
                    } else {
                        Err(PlanError::NoPathFound)
                    }
                },
            },
        },
    };
    apply_plan_result(pf, nav, outcome)
}

/// The completion signal a planning step raises for listening collaborators:
/// a failed plan surfaces as `Failure`; planning itself never signals success
/// (success comes from the motion step, when the corridor is exhausted).
pub fn plan_event(step: PlanStep) -> (r: Option<NavEvent>)
    ensures
        r == Some(NavEvent::Failure) <==> step matches PlanStep::Failed(_),
        r is Some ==> r == Some(NavEvent::Failure),
{
    match step {
        PlanStep::Failed(_) => Some(NavEvent::Failure),
        PlanStep::NotDue => None,
        PlanStep::Planned => None,
    }
}

/// One motion step for one agent. An empty corridor means the agent stands
/// still and, the first time, signals success. Otherwise the steering model
/// updates the velocity, and the agent advances along the corridor by at
/// most `speed x dt`, arriving when the corridor is exhausted.
///
/// The corridor walk, not the steering velocity, fixes the displacement: the
/// budget loop consumes hops and the leftover moves the agent partway toward
/// the next waypoint. The steering velocity is the agent's published heading
/// state: it is steered toward the front waypoint each tick, it aims the
/// queueing lookahead probe, and hosts read it, but it does not bend the
/// agent off its corridor.
pub fn nav_tick(
    self_id: u64,
    pf: &mut Pathfind,
    nav: &mut Nav,
    position: Vec2,
    tree: &SpatialIndex,
    dt_ms: u64,
) -> (r: (Vec2, Option<NavEvent>))
    requires
        tree.wf(),
        boundedp(position@, MAX_COORD as int),
        wf_pathfind(*old(pf)),
        wf_nav(*old(nav)),
        dt_ms <= 1_000_000_000,
    ensures
        old(pf).path@.len() == 0 ==> {
            &&& *final(pf) == *old(pf)
            &&& final(nav).velocity == old(nav).velocity
            &&& final(nav).done == true
            &&& r.0 == position
            &&& (r.1 == Some(NavEvent::Success) <==> !old(nav).done)
        },
        old(pf).path@.len() > 0 ==> {
            let budget = spec_budget(old(nav).speed, dt_ms);
            &&& final(nav).velocity@ == spec_apply_forces(tree@, self_id,
                old(pf).path@[0]@, position@, old(nav).velocity@)
            &&& final(pf).path@ == old(pf).path@.skip(
                tick_consumed(position@, views(old(pf).path@), budget) as int)
            &&& r.0@ == tick_end(position@, views(old(pf).path@), budget)
            &&& (r.1 == Some(NavEvent::Success) <==> final(pf).path@.len() == 0)
        },
        final(nav).done == (final(pf).path@.len() == 0),
        final(nav).speed == old(nav).speed,
        final(pf).map == old(pf).map,
        final(pf).radius == old(pf).radius,
        final(pf).repath_frequency == old(pf).repath_frequency,
        final(pf).next_repath == old(pf).next_repath,
        final(pf).target == old(pf).target,
        final(pf).query == old(pf).query,
        final(pf).path_mode == old(pf).path_mode,
        wf_pathfind(*final(pf)),
        wf_nav(*final(nav)),
        boundedp(r.0@, MAX_COORD as int),
{
    if pf.path.len() == 0 {
        let was_done = nav.done;
        nav.done = true;
        if !was_done {
            return (position, Some(NavEvent::Success));
        }
        return (position, None);
    }
    let dest = pf.path[0];
    proof {
        assert(boundedp(pf.path@[0]@, MAX_COORD as int));
    }
    nav.velocity = apply_forces(self_id, dest, position, nav.velocity, tree);
    proof {
        assert(nav.speed * dt_ms <= MAX_COORD * 1_000_000_000
            && nav.speed * dt_ms >= 0) by (nonlinear_arith)
            requires 0 <= nav.speed <= MAX_COORD, 0 <= dt_ms <= 1_000_000_000,
                MAX_COORD == 1_000_000_000;
        crate::vec2::lemma_tdiv_mul_le(nav.speed * dt_ms, 1000);
        crate::vec2::lemma_tdiv_abs_le(nav.speed * dt_ms, 1000,
            1_000_000_000_000_000_000);
    }
    let travel_dist = (nav.speed * (dt_ms as i64)) / 1000;
    let new_pos = advance(position, &mut pf.path, travel_dist);
    let arrived = pf.path.len() == 0;
    nav.done = arrived;
    if arrived {
        (new_pos, Some(NavEvent::Success))
    } else {
        (new_pos, None)
    }
}

/// Once-policy idempotence: after a due planning step under the once policy,
/// no later planning step is ever due again, at any elapsed time.
pub proof fn lemma_once_policy_idempotent(pf: Pathfind, pf2: Pathfind, now: u64, now2: u64)
    requires
        pf.repath_frequency is None,
        pf2.repath_frequency == pf.repath_frequency,
        pf2.next_repath == sched_after(pf, now),
    ensures
        !repath_due(pf2, now2),
{
}

} // verus!
