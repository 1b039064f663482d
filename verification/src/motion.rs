//! Corridor-following motion: advance an agent along its stored waypoint
//! corridor by at most a per-tick travel budget, consuming waypoints that the
//! budget reaches and moving partway toward the next one with what is left.

use vstd::prelude::*;
use crate::vec2::{
    Vec2, MAX_COORD, addp, subp, boundedp, distp, len2p, scalep, tdiv,
    lemma_dist_self, lemma_dist_triangle, lemma_len2_nonneg, lemma_sqrt_ceil_props,
    lemma_sqrt_ceil_le, lemma_sqrt_ceil_mono, lemma_tdiv_abs_le, lemma_tdiv_mul_le,
    lemma_tdiv_neg,
};

verus! {

/// The corridor as a sequence of spec-level points.
pub open spec fn views(s: Seq<Vec2>) -> Seq<(int, int)> {
    s.map_values(|v: Vec2| v@)
}

/// Every waypoint lies within the world coordinate bound.
pub open spec fn wf_corridor(s: Seq<Vec2>) -> bool {
    forall|i: int| 0 <= i < s.len() ==> boundedp(#[trigger] s[i]@, MAX_COORD as int)
}

/// Every point lies within the world coordinate bound.
pub open spec fn points_in_world(s: Seq<(int, int)>) -> bool {
    forall|i: int| 0 <= i < s.len() ==> boundedp(#[trigger] s[i], MAX_COORD as int)
}

/// A corridor is in world bounds exactly when its spec-level points are.
pub proof fn lemma_wf_corridor_views(s: Seq<Vec2>)
    ensures
        wf_corridor(s) == points_in_world(views(s)),
{
    if wf_corridor(s) {
        assert forall|i: int| 0 <= i < views(s).len()
            implies boundedp(#[trigger] views(s)[i], MAX_COORD as int) by {
            assert(views(s)[i] == s[i]@);
        }
    }
    if points_in_world(views(s)) {
        assert forall|i: int| 0 <= i < s.len()
            implies boundedp(#[trigger] s[i]@, MAX_COORD as int) by {
            assert(views(s)[i] == s[i]@);
        }
    }
}

/// How many leading waypoints a travel budget reaches, walking the corridor
/// from `pos` and paying the (rounded-up) distance of each hop.
pub open spec fn consume_count(pos: (int, int), s: Seq<(int, int)>, budget: int) -> nat
    decreases s.len(),
{
    if s.len() == 0 {
        0
    } else if distp(pos, s[0]) <= budget {
        1 + consume_count(s[0], s.drop_first(), budget - distp(pos, s[0]))
    } else {
        0
    }
}

/// The point reached by moving from `pos` toward `w` by `budget`, when `w`
/// itself is out of reach.
pub open spec fn partial_step(pos: (int, int), w: (int, int), budget: int) -> (int, int) {
    addp(pos, scalep(subp(w, pos), budget, distp(pos, w)))
}

/// The position after spending the travel budget along the corridor.
pub open spec fn end_pos(pos: (int, int), s: Seq<(int, int)>, budget: int) -> (int, int)
    decreases s.len(),
{
    if s.len() == 0 {
        pos
    } else if distp(pos, s[0]) <= budget {
        end_pos(s[0], s.drop_first(), budget - distp(pos, s[0]))
    } else {
        partial_step(pos, s[0], budget)
    }
}

/// The distance covered along the corridor when spending the budget.
pub open spec fn traveled(pos: (int, int), s: Seq<(int, int)>, budget: int) -> int
    decreases s.len(),
{
    if s.len() == 0 {
        0
    } else if distp(pos, s[0]) <= budget {
        distp(pos, s[0]) + traveled(s[0], s.drop_first(), budget - distp(pos, s[0]))
    } else {
        distp(pos, partial_step(pos, s[0], budget))
    }
}

/// Waypoints consumed by one tick: none at all when the tick brings no
/// travel budget (a zero time step moves and consumes nothing, even when a
/// waypoint lies exactly on the agent).
pub open spec fn tick_consumed(pos: (int, int), s: Seq<(int, int)>, budget: int) -> nat {
    if budget <= 0 {
        0
    } else {
        consume_count(pos, s, budget)
    }
}

/// The position after one tick: unchanged when the tick brings no travel
/// budget, otherwise the position after spending it along the corridor.
pub open spec fn tick_end(pos: (int, int), s: Seq<(int, int)>, budget: int) -> (int, int) {
    if budget <= 0 {
        pos
    } else {
        end_pos(pos, s, budget)
    }
}

/// Total remaining length of the corridor measured from `pos`.
pub open spec fn total_len(pos: (int, int), s: Seq<(int, int)>) -> int
    decreases s.len(),
{
    if s.len() == 0 {
        0
    } else {
        distp(pos, s[0]) + total_len(s[0], s.drop_first())
    }
}

/// Distances are never negative.
pub proof fn lemma_dist_nonneg(a: (int, int), b: (int, int))
    ensures
        distp(a, b) >= 0,
{
    lemma_len2_nonneg(subp(b, a));
    lemma_sqrt_ceil_props(len2p(subp(b, a)));
}

/// A step scaled by `l/d` with `l <= d` is no longer than `l`.
pub proof fn lemma_scale_step_len2(delta: (int, int), l: int, d: int)
    requires
        0 <= l <= d,
        1 <= d,
        len2p(delta) <= d * d,
    ensures
        len2p(scalep(delta, l, d)) <= l * l,
{
    let ax = if delta.0 >= 0 { delta.0 } else { -delta.0 };
    let ay = if delta.1 >= 0 { delta.1 } else { -delta.1 };
    let qx = tdiv(delta.0 * l, d);
    let qy = tdiv(delta.1 * l, d);
    let px = tdiv(ax * l, d);
    let py = tdiv(ay * l, d);
    assert(ax * l >= 0 && ay * l >= 0) by (nonlinear_arith)
        requires ax >= 0, ay >= 0, l >= 0;
    lemma_tdiv_mul_le(ax * l, d);
    lemma_tdiv_mul_le(ay * l, d);
    assert(delta.0 * l == -(ax * l) || delta.0 * l == ax * l) by (nonlinear_arith)
        requires ax == delta.0 || ax == -delta.0;
    assert(delta.1 * l == -(ay * l) || delta.1 * l == ay * l) by (nonlinear_arith)
        requires ay == delta.1 || ay == -delta.1;
    lemma_tdiv_neg(ax * l, d);
    lemma_tdiv_neg(ay * l, d);
    assert(qx == px || qx == -px);
    assert(qy == py || qy == -py);
    assert(qx * qx == px * px && qy * qy == py * py) by (nonlinear_arith)
        requires qx == px || qx == -px, qy == py || qy == -py;
    assert(px * px * (d * d) <= (ax * l) * (ax * l)) by (nonlinear_arith)
        requires px >= 0, d >= 1, px * d <= ax * l, ax * l >= 0;
    assert(py * py * (d * d) <= (ay * l) * (ay * l)) by (nonlinear_arith)
        requires py >= 0, d >= 1, py * d <= ay * l, ay * l >= 0;
    assert((ax * l) * (ax * l) + (ay * l) * (ay * l) == (ax * ax + ay * ay) * (l * l))
        by (nonlinear_arith);
    assert(ax * ax + ay * ay == len2p(delta)) by (nonlinear_arith)
        requires ax == delta.0 || ax == -delta.0, ay == delta.1 || ay == -delta.1;
    assert((ax * ax + ay * ay) * (l * l) <= (d * d) * (l * l)) by (nonlinear_arith)
        requires ax * ax + ay * ay <= d * d, l * l >= 0;
    assert((px * px + py * py) * (d * d) <= (d * d) * (l * l)) by (nonlinear_arith)
        requires
            px * px * (d * d) <= (ax * l) * (ax * l),
            py * py * (d * d) <= (ay * l) * (ay * l),
            (ax * l) * (ax * l) + (ay * l) * (ay * l) <= (d * d) * (l * l);
    assert(d * d >= 1) by (nonlinear_arith)
        requires d >= 1;
    assert(px * px + py * py <= l * l) by (nonlinear_arith)
        requires (px * px + py * py) * (d * d) <= (d * d) * (l * l), d * d >= 1;
}

/// The distance covered in one tick never exceeds the travel budget. The
/// truncated partial step can cover slightly less than the exact budget (by
/// under one count per axis), so only the upper bound is claimed; see
/// `lemma_consume_all_iff` and `lemma_consume_maximal` for how fully the
/// budget is used.
pub proof fn lemma_travel_within_budget(pos: (int, int), s: Seq<(int, int)>, budget: int)
    requires
        budget >= 0,
    ensures
        0 <= traveled(pos, s, budget) <= budget,
    decreases s.len(),
{
    if s.len() == 0 {
    } else {
        let d = distp(pos, s[0]);
        lemma_dist_nonneg(pos, s[0]);
        if d <= budget {
            lemma_travel_within_budget(s[0], s.drop_first(), budget - d);
        } else {
            let delta = subp(s[0], pos);
            let step = scalep(delta, budget, d);
            lemma_len2_nonneg(delta);
            lemma_sqrt_ceil_props(len2p(delta));
            assert(len2p(delta) <= d * d);
            lemma_scale_step_len2(delta, budget, d);
            let reached = partial_step(pos, s[0], budget);
            assert(subp(reached, pos) == step);
            lemma_len2_nonneg(step);
            assert(budget * budget >= 0) by (nonlinear_arith);
            lemma_sqrt_ceil_le(len2p(step), budget);
            lemma_dist_nonneg(pos, reached);
        }
    }
}

/// The walk's end lies no farther from the start than the distance covered
/// along the corridor on the way there.
proof fn lemma_net_within_traveled(pos: (int, int), s: Seq<(int, int)>, budget: int)
    requires
        budget >= 0,
    ensures
        distp(pos, end_pos(pos, s, budget)) <= traveled(pos, s, budget),
    decreases s.len(),
{
    if s.len() == 0 {
        lemma_dist_self(pos);
    } else {
        let d = distp(pos, s[0]);
        if d <= budget {
            lemma_net_within_traveled(s[0], s.drop_first(), budget - d);
            lemma_dist_triangle(pos, s[0], end_pos(s[0], s.drop_first(), budget - d));
        }
    }
}

/// One tick's net displacement never exceeds the travel budget: the straight-
/// line distance from the old position to the reached one is at most the
/// tick's `speed x dt`.
pub proof fn lemma_displacement_within_budget(pos: (int, int), s: Seq<(int, int)>, budget: int)
    requires
        budget >= 0,
    ensures
        distp(pos, tick_end(pos, s, budget)) <= budget,
{
    if budget == 0 {
        lemma_dist_self(pos);
    } else {
        lemma_net_within_traveled(pos, s, budget);
        lemma_travel_within_budget(pos, s, budget);
    }
}

/// The whole corridor is consumed exactly when its remaining length fits the
/// budget; the agent then stands on the corridor's last waypoint.
pub proof fn lemma_consume_all_iff(pos: (int, int), s: Seq<(int, int)>, budget: int)
    requires
        budget >= 0,
    ensures
        consume_count(pos, s, budget) == s.len() <==> total_len(pos, s) <= budget,
        consume_count(pos, s, budget) <= s.len(),
        total_len(pos, s) <= budget && s.len() > 0 ==> end_pos(pos, s, budget) == s.last(),
        total_len(pos, s) <= budget ==> traveled(pos, s, budget) == total_len(pos, s),
    decreases s.len(),
{
    if s.len() == 0 {
    } else {
        let d = distp(pos, s[0]);
        lemma_dist_nonneg(pos, s[0]);
        lemma_total_len_nonneg(s[0], s.drop_first());
        if d <= budget {
            lemma_consume_all_iff(s[0], s.drop_first(), budget - d);
            if s.len() == 1 {
                assert(s.drop_first().len() == 0);
                assert(end_pos(s[0], s.drop_first(), budget - d) == s[0]);
                assert(end_pos(pos, s, budget) == s[0]);
                assert(s.last() == s[0]);
            }
        } else {
            assert(total_len(pos, s) > budget);
        }
    }
}

/// Distance along the corridor from `pos` to its `k`-th waypoint, hop by hop.
pub open spec fn prefix_len(pos: (int, int), s: Seq<(int, int)>, k: int) -> int
    decreases s.len(),
{
    if k <= 0 || s.len() == 0 {
        0
    } else {
        distp(pos, s[0]) + prefix_len(s[0], s.drop_first(), k - 1)
    }
}

/// Waypoint consumption is maximal: the consumed prefix of the corridor fits
/// the travel budget, and reaching even one more waypoint would exceed it.
pub proof fn lemma_consume_maximal(pos: (int, int), s: Seq<(int, int)>, budget: int)
    requires
        budget >= 0,
    ensures
        prefix_len(pos, s, consume_count(pos, s, budget) as int) <= budget,
        consume_count(pos, s, budget) < s.len()
            ==> prefix_len(pos, s, consume_count(pos, s, budget) as int + 1) > budget,
    decreases s.len(),
{
    if s.len() == 0 {
    } else {
        let d = distp(pos, s[0]);
        lemma_dist_nonneg(pos, s[0]);
        if d <= budget {
            lemma_consume_maximal(s[0], s.drop_first(), budget - d);
        } else {
            assert(consume_count(pos, s, budget) == 0);
            assert(prefix_len(s[0], s.drop_first(), 0) == 0);
            assert(prefix_len(pos, s, 1) == d);
        }
    }
}

/// Hop distances along the corridor are never negative, so neither is the
/// distance to any prefix.
pub proof fn lemma_prefix_len_nonneg(pos: (int, int), s: Seq<(int, int)>, k: int)
    ensures
        prefix_len(pos, s, k) >= 0,
    decreases s.len(),
{
    if k <= 0 || s.len() == 0 {
    } else {
        lemma_dist_nonneg(pos, s[0]);
        lemma_prefix_len_nonneg(s[0], s.drop_first(), k - 1);
    }
}

/// A partial step toward a waypoint never moves away from it: each component
/// of the offset shrinks or keeps its magnitude.
proof fn lemma_partial_step_closer(pos: (int, int), w: (int, int), l: int)
    requires
        0 <= l < distp(pos, w),
    ensures
        distp(partial_step(pos, w, l), w) <= distp(pos, w),
{
    let d = distp(pos, w);
    let delta = subp(w, pos);
    let qx = tdiv(delta.0 * l, d);
    let qy = tdiv(delta.1 * l, d);
    let r = partial_step(pos, w, l);
    lemma_step_comp_between(delta.0, l, d);
    lemma_step_comp_between(delta.1, l, d);
    let rx = delta.0 - qx;
    let ry = delta.1 - qy;
    assert(subp(w, r) == (rx, ry));
    assert(rx * rx <= delta.0 * delta.0) by (nonlinear_arith)
        requires (0 <= qx <= delta.0 && 0 <= rx <= delta.0)
            || (delta.0 <= qx <= 0 && delta.0 <= rx <= 0);
    assert(ry * ry <= delta.1 * delta.1) by (nonlinear_arith)
        requires (0 <= qy <= delta.1 && 0 <= ry <= delta.1)
            || (delta.1 <= qy <= 0 && delta.1 <= ry <= 0);
    lemma_len2_nonneg((rx, ry));
    lemma_sqrt_ceil_mono(len2p((rx, ry)), len2p(delta));
}

/// A component of a partial step lies between zero and the full offset.
proof fn lemma_step_comp_between(a: int, l: int, d: int)
    requires
        0 <= l <= d,
        1 <= d,
    ensures
        a >= 0 ==> 0 <= tdiv(a * l, d) <= a,
        a < 0 ==> a <= tdiv(a * l, d) <= 0,
{
    if a >= 0 {
        assert(a * l >= 0 && a * l <= a * d) by (nonlinear_arith)
            requires a >= 0, 0 <= l <= d;
        lemma_tdiv_mul_le(a * l, d);
        lemma_tdiv_abs_le(a * l, d, a);
    } else {
        assert(a * l <= 0 && -(a * l) <= (-a) * d) by (nonlinear_arith)
            requires a < 0, 0 <= l <= d;
        lemma_tdiv_abs_le(a * l, d, -a);
        lemma_tdiv_neg(-(a * l), d);
        lemma_tdiv_mul_le(-(a * l), d);
    }
}

/// One tick never lengthens the remaining path: measured from the reached
/// position through the remaining waypoints, the corridor has shrunk by at
/// least the distance paid for the consumed prefix. Consuming a front
/// waypoint at a positive hop distance therefore strictly reduces the
/// remaining length; only a zero-length hop leaves it unchanged.
pub proof fn lemma_remaining_decreases(pos: (int, int), s: Seq<(int, int)>, budget: int)
    requires
        budget >= 0,
    ensures
        total_len(end_pos(pos, s, budget), s.skip(consume_count(pos, s, budget) as int))
            <= total_len(pos, s) - prefix_len(pos, s, consume_count(pos, s, budget) as int),
        consume_count(pos, s, budget) >= 1 && distp(pos, s[0]) >= 1
            ==> total_len(end_pos(pos, s, budget),
                    s.skip(consume_count(pos, s, budget) as int))
                < total_len(pos, s),
    decreases s.len(),
{
    if s.len() == 0 {
        assert(s.skip(0) =~= s);
    } else {
        let d = distp(pos, s[0]);
        let rest = s.drop_first();
        lemma_dist_nonneg(pos, s[0]);
        if d <= budget {
            lemma_remaining_decreases(s[0], rest, budget - d);
            lemma_consume_all_iff(s[0], rest, budget - d);
            let k2 = consume_count(s[0], rest, budget - d) as int;
            let k = consume_count(pos, s, budget) as int;
            assert(k == 1 + k2);
            assert(0 <= k2 <= rest.len());
            assert(s.skip(k) =~= rest.skip(k2));
            assert(prefix_len(pos, s, k) == d + prefix_len(s[0], rest, k2));
            lemma_prefix_len_nonneg(s[0], rest, k2);
        } else {
            let k = consume_count(pos, s, budget) as int;
            assert(k == 0);
            assert(s.skip(0) =~= s);
            let r = partial_step(pos, s[0], budget);
            lemma_partial_step_closer(pos, s[0], budget);
            assert(total_len(r, s) == distp(r, s[0]) + total_len(s[0], rest));
        }
    }
}

/// Remaining corridor length is never negative.
pub proof fn lemma_total_len_nonneg(pos: (int, int), s: Seq<(int, int)>)
    ensures
        total_len(pos, s) >= 0,
    decreases s.len(),
{
    if s.len() == 0 {
    } else {
        lemma_dist_nonneg(pos, s[0]);
        lemma_total_len_nonneg(s[0], s.drop_first());
    }
}

/// A partial step toward an in-bounds waypoint stays in bounds, component by
/// component between the two endpoints.
proof fn lemma_partial_in_box(c: int, w: int, l: int, d: int)
    requires
        -MAX_COORD <= c <= MAX_COORD,
        -MAX_COORD <= w <= MAX_COORD,
        0 <= l <= d,
        1 <= d,
    ensures
        -MAX_COORD <= c + tdiv((w - c) * l, d) <= MAX_COORD,
{
    let a = w - c;
    let q = tdiv(a * l, d);
    if a >= 0 {
        assert(a * l >= 0 && a * l <= a * d) by (nonlinear_arith)
            requires a >= 0, 0 <= l <= d;
        lemma_tdiv_abs_le(a * l, d, a);
        assert(q >= 0) by {
            lemma_tdiv_mul_le(a * l, d);
        }
        assert(c <= c + q <= w);
    } else {
        assert(a * l <= 0 && -(a * l) <= (-a) * d) by (nonlinear_arith)
            requires a < 0, 0 <= l <= d;
        lemma_tdiv_abs_le(a * l, d, -a);
        assert(q <= 0) by {
            lemma_tdiv_neg(-(a * l), d);
            lemma_tdiv_mul_le(-(a * l), d);
        }
        assert(w <= c + q <= c);
    }
}

/// Advance from `pos` along the corridor in `path`, spending at most `budget`
/// milli-units of travel: waypoints whose hop distance fits the remaining
/// budget are consumed (removed), then the remainder is spent moving partway
/// toward the next waypoint. Returns the reached position. A zero budget
/// moves and consumes nothing. The partial move truncates toward zero per
/// component, so it can cover slightly less than the exact remaining budget
/// (by under one count per axis); it never covers more.
pub fn advance(pos: Vec2, path: &mut Vec<Vec2>, budget: i64) -> (r: Vec2)
    requires
        budget >= 0,
        boundedp(pos@, MAX_COORD as int),
        wf_corridor(old(path)@),
    ensures
        final(path)@ == old(path)@.skip(
            tick_consumed(pos@, views(old(path)@), budget as int) as int),
        r@ == tick_end(pos@, views(old(path)@), budget as int),
        boundedp(r@, MAX_COORD as int),
        wf_corridor(final(path)@),
{
    if budget == 0 {
        proof {
            assert(path@.skip(0) =~= path@);
        }
        return pos;
    }
    let ghost s0 = path@;
    let ghost b0 = budget as int;
    let mut cur = pos;
    let mut left = budget;
    let ghost mut popped: int = 0;
    proof {
        assert(s0.skip(0) =~= s0);
    }
    while path.len() > 0
        invariant_except_break
            0 <= left <= budget,
            boundedp(cur@, MAX_COORD as int),
            wf_corridor(path@),
            0 <= popped <= s0.len(),
            path@ == s0.skip(popped),
            consume_count(pos@, views(s0), b0)
                == popped + consume_count(cur@, views(path@), left as int),
            end_pos(pos@, views(s0), b0) == end_pos(cur@, views(path@), left as int),
        ensures
            0 <= left <= budget,
            boundedp(cur@, MAX_COORD as int),
            wf_corridor(path@),
            0 <= popped <= s0.len(),
            path@ == s0.skip(popped),
            consume_count(pos@, views(s0), b0)
                == popped + consume_count(cur@, views(path@), left as int),
            end_pos(pos@, views(s0), b0) == end_pos(cur@, views(path@), left as int),
            path.len() == 0 || distp(cur@, path@[0]@) > left as int,
        decreases path.len(),
    {
        let front = path[0];
        assert(boundedp(front@, MAX_COORD as int));
        let d = cur.dist_ceil(front);
        if d > left {
            break;
        }
        proof {
            let sv = views(path@);
            assert(sv[0] == path@[0]@);
            assert(sv.len() > 0);
            assert(views(path@.drop_first()) =~= sv.drop_first());
            assert(consume_count(cur@, sv, left as int)
                == 1 + consume_count(front@, sv.drop_first(), left - d));
            assert(end_pos(cur@, sv, left as int)
                == end_pos(front@, sv.drop_first(), left - d));
        }
        let _ = path.remove(0);
        proof {
            assert(path@ =~= s0.skip(popped).drop_first());
            assert(s0.skip(popped).drop_first() =~= s0.skip(popped + 1));
            popped = popped + 1;
        }
        left = left - d;
        cur = front;
    }
    proof {
        if path@.len() > 0 {
            assert(views(path@)[0] == path@[0]@);
            assert(consume_count(cur@, views(path@), left as int) == 0);
        } else {
            assert(views(path@).len() == 0);
            assert(consume_count(cur@, views(path@), left as int) == 0);
        }
    }
    if path.len() > 0 {
        let front = path[0];
        let d = cur.dist_ceil(front);
        let delta = front.minus(cur);
        proof {
            assert(d > left);
            assert(-2_100_000_000 <= delta@.0 <= 2_100_000_000);
            assert(delta@.0 * left <= 9_000_000_000_000_000_000
                && delta@.0 * left >= -9_000_000_000_000_000_000) by (nonlinear_arith)
                requires -2_100_000_000 <= delta@.0 <= 2_100_000_000, 0 <= left < 3_000_000_001;
            assert(delta@.1 * left <= 9_000_000_000_000_000_000
                && delta@.1 * left >= -9_000_000_000_000_000_000) by (nonlinear_arith)
                requires -2_100_000_000 <= delta@.1 <= 2_100_000_000, 0 <= left < 3_000_000_001;
        }
        let step = delta.scale_div(left, d);
        proof {
            lemma_partial_in_box(cur@.0, front@.0, left as int, d as int);
            lemma_partial_in_box(cur@.1, front@.1, left as int, d as int);
            assert(views(path@)[0] == path@[0]@);
        }
        let r = cur.plus(step);
        proof {
            assert(r@ == partial_step(cur@, front@, left as int));
        }
        r
    } else {
        cur
    }
}

} // verus!

