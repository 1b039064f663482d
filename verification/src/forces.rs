//! Per-tick velocity steering: a seek force toward the next waypoint, a
//! separation force away from crowding neighbors, and queueing (braking)
//! behind a blocking agent ahead, combined, capped and renormalized.
//!
//! All rates and radii are fixed-point milli-unit counterparts of the tuning
//! constants of the model: a rate of `1000` stands for a factor of one.

use vstd::prelude::*;
use crate::vec2::{
    Vec2, MAX_COORD, UNIT, addp, boundedp, len2p, negp, normp, scalep, subp, tdiv,
    lemma_len2_nonneg, lemma_tdiv_abs_le, lemma_tdiv_mul_le, lemma_tdiv_neg,
};
use crate::spatial::{Neighbor, SpatialIndex, filtered, nearest_other_spec, within_radius};

verus! {

/// Marker for agents that take part in steering as dynamic obstacles; hosts
/// tag such agents and feed their positions into the spatial index.
#[derive(Clone, Copy, Debug, Default)]
pub struct Collider;

/// Seek force rate (1.0).
pub const SEEK_FORCE_RATE_MILLI: i64 = 1000;

/// Cap applied to the combined steering force (3.6).
pub const MAX_FORCE_MILLI: i64 = 3600;

/// Lookahead distance for the queueing probe, in milli-units (54.2 units).
pub const MAX_QUEUE_AHEAD_MILLI: i64 = 54_200;

/// A neighbor this close to the lookahead point blocks the path (36 units).
pub const AVOID_RADIUS_MILLI: i64 = 36_000;

/// A blocker this close to the agent itself triggers braking (52 units).
pub const MAX_QUEUE_RADIUS_MILLI: i64 = 52_000;

/// Neighbors within this distance repel the agent (38 units).
pub const SEPARATION_RADIUS_MILLI: i64 = 38_000;

/// Repulsion from one neighbor at `q`, as felt at `p`: the offset toward the
/// neighbor scaled by `SEPARATION_RADIUS_MILLI` over the squared distance, so
/// closer neighbors repel harder. A neighbor exactly at `p` contributes
/// nothing. The sign is flipped (away from the neighbor) when averaging.
pub open spec fn sep_term(p: (int, int), q: (int, int)) -> (int, int) {
    let delta = subp(q, p);
    let d2 = len2p(delta);
    if d2 == 0 {
        (0, 0)
    } else {
        scalep(delta, SEPARATION_RADIUS_MILLI as int, d2)
    }
}

/// An entry takes part in separation around `p` for agent `self_id`.
pub open spec fn sep_counts(e: Neighbor, p: (int, int), self_id: u64) -> bool {
    e.id != self_id && within_radius(e, p, SEPARATION_RADIUS_MILLI as int)
}

/// Sum of the separation contributions of the entries of `s`.
pub open spec fn sep_sum(s: Seq<Neighbor>, p: (int, int), self_id: u64) -> (int, int)
    decreases s.len(),
{
    if s.len() == 0 {
        (0, 0)
    } else {
        let rest = sep_sum(s.drop_last(), p, self_id);
        if sep_counts(s.last(), p, self_id) {
            addp(rest, sep_term(p, s.last().pos@))
        } else {
            rest
        }
    }
}

/// How many entries of `s` take part in separation.
pub open spec fn sep_count(s: Seq<Neighbor>, p: (int, int), self_id: u64) -> int
    decreases s.len(),
{
    if s.len() == 0 {
        0
    } else {
        sep_count(s.drop_last(), p, self_id)
            + if sep_counts(s.last(), p, self_id) { 1int } else { 0int }
    }
}

/// The separation force: the contributions averaged over the participating
/// neighbors and flipped away from them; zero when no neighbor is in radius.
pub open spec fn spec_separation(s: Seq<Neighbor>, p: (int, int), self_id: u64) -> (int, int) {
    let n = sep_count(s, p, self_id);
    if n == 0 {
        (0, 0)
    } else {
        let sum = sep_sum(s, p, self_id);
        (-tdiv(sum.0, n), -tdiv(sum.1, n))
    }
}

/// The lookahead probe point: the position advanced along the current
/// velocity by the lookahead distance.
pub open spec fn spec_ahead(pos: (int, int), vel: (int, int)) -> (int, int) {
    addp(pos, scalep(vel, MAX_QUEUE_AHEAD_MILLI as int, UNIT as int))
}

/// The position of a neighbor (other than the agent itself) nearest to the
/// lookahead point and within the avoidance radius of it, if any.
pub open spec fn spec_neighbour_ahead(
    s: Seq<Neighbor>,
    self_id: u64,
    pos: (int, int),
    vel: (int, int),
) -> Option<Vec2> {
    let ahead = spec_ahead(pos, vel);
    match nearest_other_spec(s, ahead, self_id) {
        None => None,
        Some(e) => if len2p(subp(e.pos@, ahead))
            <= AVOID_RADIUS_MILLI * AVOID_RADIUS_MILLI {
            Some(e.pos)
        } else {
            None
        },
    }
}

/// The full steering model: seek plus separation, capped, then — when a
/// neighbor blocks the lookahead point — a braking adjustment, with the
/// current velocity damped to 3/10 when the blocker is also within the queue
/// radius; the blend of velocity and steering is renormalized at the end.
pub open spec fn spec_apply_forces(
    s: Seq<Neighbor>,
    self_id: u64,
    target: (int, int),
    pos: (int, int),
    vel: (int, int),
) -> (int, int) {
    let desired = normp(subp(target, pos));
    let seek = scalep(normp(subp(desired, vel)), SEEK_FORCE_RATE_MILLI as int, UNIT as int);
    let sep = spec_separation(s, pos, self_id);
    let raw = addp(seek, sep);
    let capped = if raw == (0int, 0int) {
        raw
    } else {
        scalep(normp(raw), MAX_FORCE_MILLI as int, UNIT as int)
    };
    match spec_neighbour_ahead(s, self_id, pos, vel) {
        None => normp(addp(vel, capped)),
        Some(obs) => {
            let brake = addp(addp(negp(vel), scalep(capped, -4, 5)), sep);
            let steering = addp(capped, brake);
            let vel2 = if len2p(subp(obs@, pos))
                <= MAX_QUEUE_RADIUS_MILLI * MAX_QUEUE_RADIUS_MILLI {
                scalep(vel, 3, 10)
            } else {
                vel
            };
            normp(addp(vel2, steering))
        },
    }
}

/// One separation contribution never exceeds the separation radius.
proof fn lemma_sep_term_bound(p: (int, int), q: (int, int))
    ensures
        boundedp(sep_term(p, q), SEPARATION_RADIUS_MILLI as int),
{
    let delta = subp(q, p);
    let d2 = len2p(delta);
    lemma_len2_nonneg(delta);
    if d2 != 0 {
        assert(delta.0 <= d2 && -d2 <= delta.0 && delta.1 <= d2 && -d2 <= delta.1)
            by (nonlinear_arith)
            requires d2 == delta.0 * delta.0 + delta.1 * delta.1, d2 >= 1;
        assert(delta.0 * SEPARATION_RADIUS_MILLI <= SEPARATION_RADIUS_MILLI * d2
            && -(SEPARATION_RADIUS_MILLI * d2) <= delta.0 * SEPARATION_RADIUS_MILLI)
            by (nonlinear_arith)
            requires -d2 <= delta.0 <= d2, d2 >= 1, SEPARATION_RADIUS_MILLI == 38_000;
        assert(delta.1 * SEPARATION_RADIUS_MILLI <= SEPARATION_RADIUS_MILLI * d2
            && -(SEPARATION_RADIUS_MILLI * d2) <= delta.1 * SEPARATION_RADIUS_MILLI)
            by (nonlinear_arith)
            requires -d2 <= delta.1 <= d2, d2 >= 1, SEPARATION_RADIUS_MILLI == 38_000;
        lemma_tdiv_abs_le(delta.0 * SEPARATION_RADIUS_MILLI as int, d2,
            SEPARATION_RADIUS_MILLI as int);
        lemma_tdiv_abs_le(delta.1 * SEPARATION_RADIUS_MILLI as int, d2,
            SEPARATION_RADIUS_MILLI as int);
    }
}

/// The separation sum grows by at most one radius per counted neighbor.
proof fn lemma_sep_sum_bound(s: Seq<Neighbor>, p: (int, int), self_id: u64)
    ensures
        0 <= sep_count(s, p, self_id) <= s.len(),
        boundedp(sep_sum(s, p, self_id),
            sep_count(s, p, self_id) * SEPARATION_RADIUS_MILLI as int),
    decreases s.len(),
{
    if s.len() == 0 {
    } else {
        lemma_sep_sum_bound(s.drop_last(), p, self_id);
        let n0 = sep_count(s.drop_last(), p, self_id);
        if sep_counts(s.last(), p, self_id) {
            lemma_sep_term_bound(p, s.last().pos@);
            assert((n0 + 1) * SEPARATION_RADIUS_MILLI as int
                == n0 * SEPARATION_RADIUS_MILLI as int + SEPARATION_RADIUS_MILLI as int)
                by (nonlinear_arith);
        }
    }
}

/// Restricting the separation scan to the neighbors within the separation
/// radius changes neither the sum nor the count.
proof fn lemma_sep_filtered(s: Seq<Neighbor>, p: (int, int), self_id: u64)
    ensures
        sep_sum(filtered(s, p, SEPARATION_RADIUS_MILLI as int), p, self_id)
            == sep_sum(s, p, self_id),
        sep_count(filtered(s, p, SEPARATION_RADIUS_MILLI as int), p, self_id)
            == sep_count(s, p, self_id),
    decreases s.len(),
{
    let r = SEPARATION_RADIUS_MILLI as int;
    if s.len() == 0 {
    } else {
        lemma_sep_filtered(s.drop_last(), p, self_id);
        let e = s.last();
        let fr = filtered(s.drop_last(), p, r);
        if within_radius(e, p, r) {
            assert(filtered(s, p, r) == fr.push(e));
            assert(fr.push(e).drop_last() =~= fr);
            assert(fr.push(e).last() == e);
        } else {
            assert(filtered(s, p, r) == fr);
            assert(!sep_counts(e, p, self_id));
        }
    }
}

/// Entries of a radius query all come from the index and stay in bounds.
proof fn lemma_filtered_bounded(s: Seq<Neighbor>, p: (int, int), r: int, b: int)
    requires
        forall|i: int| 0 <= i < s.len() ==> boundedp(#[trigger] s[i].pos@, b),
    ensures
        filtered(s, p, r).len() <= s.len(),
        forall|i: int| 0 <= i < filtered(s, p, r).len()
            ==> boundedp(#[trigger] filtered(s, p, r)[i].pos@, b),
    decreases s.len(),
{
    if s.len() == 0 {
    } else {
        assert(forall|i: int| 0 <= i < s.drop_last().len()
            ==> boundedp(#[trigger] s.drop_last()[i].pos@, b));
        lemma_filtered_bounded(s.drop_last(), p, r, b);
        let e = s.last();
        let fr = filtered(s.drop_last(), p, r);
        if within_radius(e, p, r) {
            assert(filtered(s, p, r) == fr.push(e));
            assert(boundedp(s[s.len() - 1].pos@, b));
            assert(forall|i: int| 0 <= i < fr.push(e).len()
                ==> boundedp(#[trigger] fr.push(e)[i].pos@, b));
        }
    }
}

/// A nearest-neighbor answer is one of the index's entries, and not the agent
/// itself.
pub proof fn lemma_nearest_in(s: Seq<Neighbor>, p: (int, int), self_id: u64)
    ensures
        match nearest_other_spec(s, p, self_id) {
            None => true,
            Some(b) => b.id != self_id
                && exists|i: int| 0 <= i < s.len() && s[i] == b,
        },
    decreases s.len(),
{
    if s.len() == 0 {
    } else {
        lemma_nearest_in(s.drop_last(), p, self_id);
        let prev = nearest_other_spec(s.drop_last(), p, self_id);
        match prev {
            None => {},
            Some(b) => {
                let i = choose|i: int| 0 <= i < s.drop_last().len() && s.drop_last()[i] == b;
                assert(s[i] == b);
            },
        }
        match nearest_other_spec(s, p, self_id) {
            None => {},
            Some(b) => {
                if b == s.last() {
                    assert(s[s.len() - 1] == b);
                }
            },
        }
    }
}

/// Queueing damping strictly shortens a moving agent's velocity: the damped
/// velocity entering the final steering blend is strictly shorter than the
/// undamped one, whenever a blocker stands within both the avoidance radius
/// of the lookahead point and the queue radius of the agent.
pub proof fn lemma_queueing_damps(
    s: Seq<Neighbor>,
    self_id: u64,
    pos: (int, int),
    vel: (int, int),
    obs: Vec2,
)
    requires
        spec_neighbour_ahead(s, self_id, pos, vel) == Some(obs),
        len2p(subp(obs@, pos)) <= MAX_QUEUE_RADIUS_MILLI * MAX_QUEUE_RADIUS_MILLI,
        len2p(vel) > 0,
    ensures
        len2p(scalep(vel, 3, 10)) < len2p(vel),
{
    lemma_damp_comp(vel.0);
    lemma_damp_comp(vel.1);
    let q = scalep(vel, 3, 10);
    assert(len2p(q) < len2p(vel)) by (nonlinear_arith)
        requires
            q == (tdiv(vel.0 * 3, 10), tdiv(vel.1 * 3, 10)),
            tdiv(vel.0 * 3, 10) * tdiv(vel.0 * 3, 10) <= vel.0 * vel.0,
            tdiv(vel.1 * 3, 10) * tdiv(vel.1 * 3, 10) <= vel.1 * vel.1,
            vel.0 != 0 ==> tdiv(vel.0 * 3, 10) * tdiv(vel.0 * 3, 10) < vel.0 * vel.0,
            vel.1 != 0 ==> tdiv(vel.1 * 3, 10) * tdiv(vel.1 * 3, 10) < vel.1 * vel.1,
            vel.0 * vel.0 + vel.1 * vel.1 > 0;
}

/// Damping one component to 3/10 strictly shrinks its square unless zero.
proof fn lemma_damp_comp(x: int)
    ensures
        tdiv(x * 3, 10) * tdiv(x * 3, 10) <= x * x,
        x != 0 ==> tdiv(x * 3, 10) * tdiv(x * 3, 10) < x * x,
{
    let a = if x >= 0 { x } else { -x };
    assert(x * 3 == a * 3 || x * 3 == -(a * 3)) by (nonlinear_arith)
        requires a == x || a == -x;
    assert(a * 3 >= 0) by (nonlinear_arith)
        requires a >= 0;
    lemma_tdiv_mul_le(a * 3, 10);
    lemma_tdiv_neg(a * 3, 10);
    let qa = tdiv(a * 3, 10);
    assert(qa * 10 <= a * 3);
    assert(qa < a || (qa == 0 && a == 0)) by (nonlinear_arith)
        requires qa >= 0, a >= 0, qa * 10 <= a * 3;
    let q = tdiv(x * 3, 10);
    assert(q == qa || q == -qa);
    assert(q * q <= x * x && (x != 0 ==> q * q < x * x)) by (nonlinear_arith)
        requires
            q == qa || q == -qa,
            a == x || a == -x,
            qa >= 0,
            a >= 0,
            qa < a || (qa == 0 && a == 0);
}

/// The separation force away from the neighbors crowding `current_pos`.
pub fn separation_force(self_id: u64, current_pos: Vec2, tree: &SpatialIndex) -> (r: Vec2)
    requires
        tree.wf(),
        boundedp(current_pos@, MAX_COORD as int),
    ensures
        r@ == spec_separation(tree@, current_pos@, self_id),
        boundedp(r@, SEPARATION_RADIUS_MILLI as int),
{
    let neighbours = tree.within_distance(current_pos, SEPARATION_RADIUS_MILLI);
    let ghost f = neighbours@;
    proof {
        lemma_filtered_bounded(tree@, current_pos@, SEPARATION_RADIUS_MILLI as int,
            MAX_COORD as int);
        lemma_sep_sum_bound(f, current_pos@, self_id);
        assert(f.take(0) =~= Seq::<Neighbor>::empty());
    }
    let mut sum_x: i64 = 0;
    let mut sum_y: i64 = 0;
    let mut count: i64 = 0;
    let mut j: usize = 0;
    while j < neighbours.len()
        invariant
            0 <= j <= f.len(),
            f == neighbours@,
            f.len() <= tree@.len() <= 1_000_000,
            forall|i: int| 0 <= i < f.len()
                ==> boundedp(#[trigger] f[i].pos@, MAX_COORD as int),
            boundedp(current_pos@, MAX_COORD as int),
            count == sep_count(f.take(j as int), current_pos@, self_id),
            0 <= count <= j,
            (sum_x as int, sum_y as int) == sep_sum(f.take(j as int), current_pos@, self_id),
            boundedp((sum_x as int, sum_y as int),
                count * SEPARATION_RADIUS_MILLI as int),
        decreases f.len() - j,
    {
        let e = neighbours[j];
        proof {
            assert(boundedp(f[j as int].pos@, MAX_COORD as int));
            assert(f.take(j as int + 1).drop_last() =~= f.take(j as int));
            assert(f.take(j as int + 1).last() == f[j as int]);
            lemma_sep_sum_bound(f.take(j as int), current_pos@, self_id);
        }
        let delta = e.pos.minus(current_pos);
        let d2 = delta.len2();
        if e.id != self_id && d2 <= SEPARATION_RADIUS_MILLI * SEPARATION_RADIUS_MILLI {
            proof {
                lemma_sep_term_bound(current_pos@, e.pos@);
                assert((count + 1) * SEPARATION_RADIUS_MILLI as int
                    == count * SEPARATION_RADIUS_MILLI as int
                        + SEPARATION_RADIUS_MILLI as int) by (nonlinear_arith);
            }
            if d2 != 0 {
                let t = delta.scale_div(SEPARATION_RADIUS_MILLI, d2);
                sum_x = sum_x + t.x;
                sum_y = sum_y + t.y;
            }
            count = count + 1;
        }
        j = j + 1;
    }
    proof {
        assert(f.take(f.len() as int) =~= f);
        lemma_sep_filtered(tree@, current_pos@, self_id);
    }
    if count > 0 {
        proof {
            lemma_tdiv_abs_le(sum_x as int, count as int, SEPARATION_RADIUS_MILLI as int);
            lemma_tdiv_abs_le(sum_y as int, count as int, SEPARATION_RADIUS_MILLI as int);
        }
        Vec2 { x: -(sum_x / count), y: -(sum_y / count) }
    } else {
        Vec2 { x: 0, y: 0 }
    }
}

/// The nearest other agent blocking the lookahead point, if one stands within
/// the avoidance radius of it.
pub fn get_neighbour_ahead(
    self_id: u64,
    current_pos: Vec2,
    current_velocity: Vec2,
    tree: &SpatialIndex,
) -> (r: Option<Vec2>)
    requires
        tree.wf(),
        boundedp(current_pos@, MAX_COORD as int),
        boundedp(current_velocity@, UNIT as int),
    ensures
        r == spec_neighbour_ahead(tree@, self_id, current_pos@, current_velocity@),
{
    proof {
        assert(current_velocity@.0 * MAX_QUEUE_AHEAD_MILLI
            <= MAX_QUEUE_AHEAD_MILLI * UNIT
            && -(MAX_QUEUE_AHEAD_MILLI * UNIT)
                <= current_velocity@.0 * MAX_QUEUE_AHEAD_MILLI) by (nonlinear_arith)
            requires -1000 <= current_velocity@.0 <= 1000,
                MAX_QUEUE_AHEAD_MILLI == 54_200, UNIT == 1000;
        assert(current_velocity@.1 * MAX_QUEUE_AHEAD_MILLI
            <= MAX_QUEUE_AHEAD_MILLI * UNIT
            && -(MAX_QUEUE_AHEAD_MILLI * UNIT)
                <= current_velocity@.1 * MAX_QUEUE_AHEAD_MILLI) by (nonlinear_arith)
            requires -1000 <= current_velocity@.1 <= 1000,
                MAX_QUEUE_AHEAD_MILLI == 54_200, UNIT == 1000;
        lemma_tdiv_abs_le(current_velocity@.0 * MAX_QUEUE_AHEAD_MILLI as int, UNIT as int,
            MAX_QUEUE_AHEAD_MILLI as int);
        lemma_tdiv_abs_le(current_velocity@.1 * MAX_QUEUE_AHEAD_MILLI as int, UNIT as int,
            MAX_QUEUE_AHEAD_MILLI as int);
    }
    let ahead = current_pos.plus(current_velocity.scale_div(MAX_QUEUE_AHEAD_MILLI, UNIT));
    let nearest = tree.nearest_other(ahead, self_id);
    match nearest {
        None => None,
        Some(e) => {
            proof {
                lemma_nearest_in(tree@, ahead@, self_id);
                let i = choose|i: int| 0 <= i < tree@.len() && tree@[i] == e;
                assert(boundedp(tree@[i].pos@, MAX_COORD as int));
            }
            let d2 = e.pos.minus(ahead).len2();
            if d2 <= AVOID_RADIUS_MILLI * AVOID_RADIUS_MILLI {
                Some(e.pos)
            } else {
                None
            }
        },
    }
}

/// One steering step: blend the current velocity with seek, separation and
/// queueing forces and return the new (unit-scale) velocity.
pub fn apply_forces(
    self_id: u64,
    target_pos: Vec2,
    current_pos: Vec2,
    current_velocity: Vec2,
    tree: &SpatialIndex,
) -> (r: Vec2)
    requires
        tree.wf(),
        boundedp(target_pos@, MAX_COORD as int),
        boundedp(current_pos@, MAX_COORD as int),
        boundedp(current_velocity@, UNIT as int),
    ensures
        r@ == spec_apply_forces(tree@, self_id, target_pos@, current_pos@,
            current_velocity@),
        boundedp(r@, UNIT as int),
{
    let desired = target_pos.minus(current_pos).normalize_or_zero();
    let seek_dir = desired.minus(current_velocity).normalize_or_zero();
    proof {
        assert(seek_dir@.0 * 1000 <= 1000 * 1000 && -(1000 * 1000) <= seek_dir@.0 * 1000
            && seek_dir@.1 * 1000 <= 1000 * 1000 && -(1000 * 1000) <= seek_dir@.1 * 1000)
            by (nonlinear_arith)
            requires -1000 <= seek_dir@.0 <= 1000, -1000 <= seek_dir@.1 <= 1000;
        lemma_tdiv_abs_le(seek_dir@.0 * SEEK_FORCE_RATE_MILLI as int, UNIT as int, 1000);
        lemma_tdiv_abs_le(seek_dir@.1 * SEEK_FORCE_RATE_MILLI as int, UNIT as int, 1000);
    }
    let seek = seek_dir.scale_div(SEEK_FORCE_RATE_MILLI, UNIT);
    let sep = separation_force(self_id, current_pos, tree);
    let raw = seek.plus(sep);
    let capped = if raw.x == 0 && raw.y == 0 {
        raw
    } else {
        let raw_n = raw.normalize_or_zero();
        proof {
            assert(raw_n@.0 * 3600 <= 3600 * 1000 && -(3600 * 1000) <= raw_n@.0 * 3600
                && raw_n@.1 * 3600 <= 3600 * 1000 && -(3600 * 1000) <= raw_n@.1 * 3600)
                by (nonlinear_arith)
                requires -1000 <= raw_n@.0 <= 1000, -1000 <= raw_n@.1 <= 1000;
            lemma_tdiv_abs_le(raw_n@.0 * MAX_FORCE_MILLI as int, UNIT as int,
                MAX_FORCE_MILLI as int);
            lemma_tdiv_abs_le(raw_n@.1 * MAX_FORCE_MILLI as int, UNIT as int,
                MAX_FORCE_MILLI as int);
        }
        raw_n.scale_div(MAX_FORCE_MILLI, UNIT)
    };
    match get_neighbour_ahead(self_id, current_pos, current_velocity, tree) {
        None => current_velocity.plus(capped).normalize_or_zero(),
        Some(obstacle) => {
            proof {
                assert(capped@.0 * -4 <= 2880 * 5 && -(2880 * 5) <= capped@.0 * -4
                    && capped@.1 * -4 <= 2880 * 5 && -(2880 * 5) <= capped@.1 * -4)
                    by (nonlinear_arith)
                    requires -3600 <= capped@.0 <= 3600, -3600 <= capped@.1 <= 3600;
                lemma_tdiv_abs_le(capped@.0 * -4, 5, 2880);
                lemma_tdiv_abs_le(capped@.1 * -4, 5, 2880);
            }
            let brake = current_velocity.neg().plus(capped.scale_div(-4, 5)).plus(sep);
            let steering = capped.plus(brake);
            proof {
                let ahead_s = spec_ahead(current_pos@, current_velocity@);
                lemma_nearest_in(tree@, ahead_s, self_id);
                match nearest_other_spec(tree@, ahead_s, self_id) {
                    None => { assert(false); },
                    Some(e) => {
                        let i = choose|i: int| 0 <= i < tree@.len() && tree@[i] == e;
                        assert(boundedp(tree@[i].pos@, MAX_COORD as int));
                        assert(e.pos == obstacle);
                    },
                }
            }
            let qd2 = obstacle.minus(current_pos).len2();
            let vel2 = if qd2 <= MAX_QUEUE_RADIUS_MILLI * MAX_QUEUE_RADIUS_MILLI {
                proof {
                    assert(current_velocity@.0 * 3 <= 300 * 10
                        && -(300 * 10) <= current_velocity@.0 * 3
                        && current_velocity@.1 * 3 <= 300 * 10
                        && -(300 * 10) <= current_velocity@.1 * 3) by (nonlinear_arith)
                        requires -1000 <= current_velocity@.0 <= 1000,
                            -1000 <= current_velocity@.1 <= 1000;
                    lemma_tdiv_abs_le(current_velocity@.0 * 3, 10, 300);
                    lemma_tdiv_abs_le(current_velocity@.1 * 3, 10, 300);
                }
                current_velocity.scale_div(3, 10)
            } else {
                current_velocity
            };
            vel2.plus(steering).normalize_or_zero()
        },
    }
}

} // verus!
