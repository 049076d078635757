//! Targets: mobile enemies that walk a fixed waypoint route.  Holds the
//! per-tick path-following step, the breach check that hurts the player,
//! and the death check that turns empty health bars into kill events.

use crate::geom::Vec2;
use crate::geom::dist2;
use crate::geom::in_world;
use crate::geom::isqrt;
use crate::geom::isqrt_spec;
use crate::geom::lemma_axis_within_dist;
use crate::geom::lemma_isqrt_bounds;
use crate::geom::lemma_major_axis;
use crate::geom::lemma_scaled_div_at_least_one;
use crate::geom::lemma_scaled_div_bounds;
use crate::geom::move_component;
use crate::geom::scaled_div;
use crate::geom::square_dist;
use crate::player::Player;
use crate::player::health_after_breaches;
use vstd::prelude::*;

verus! {

/// Hit points of a target; the target dies when the value reaches zero.
#[derive(Clone, Copy, Debug, PartialEq, Eq, Structural)]
pub struct Health {
    pub value: i64,
}

/// A mobile enemy unit.
///
/// `path_index` is the waypoint it is walking toward; it equals the route
/// length once the whole route has been walked.  `heading` is the direction
/// the target faces, kept as the un-normalized vector toward its waypoint.
#[derive(Clone, Copy, Debug, PartialEq, Eq, Structural)]
pub struct Target {
    pub speed: i64,
    pub path_index: usize,
    pub pos: Vec2,
    pub heading: Vec2,
    pub health: Health,
}

/// Recorded once per target whose health reached zero; the economy pays the
/// kill reward once per event.
#[derive(Clone, Copy, Debug)]
pub struct TargetDeathEvent;

/// The waypoint route shared by every target.
pub struct TargetPath {
    pub waypoints: Vec<Vec2>,
}

/// A route is well-formed when it has at least one waypoint and every
/// waypoint lies on the game board.
pub open spec fn path_wf(path: TargetPath) -> bool {
    &&& path.waypoints@.len() >= 1
    &&& forall|i: int|
        0 <= i < path.waypoints@.len() ==> in_world(#[trigger] path.waypoints@[i])
}

/// A target is well-formed relative to a route of `path_len` waypoints.
pub open spec fn target_wf(t: Target, path_len: int) -> bool {
    &&& 0 <= t.speed <= crate::SPEED_LIMIT
    &&& t.path_index <= path_len
    &&& in_world(t.pos)
}

/// Distance a mover with the given speed covers in one tick of `dt`
/// milliseconds, in milli-units.
pub open spec fn step_delta(speed: int, dt: int) -> int {
    (speed * dt) / (crate::MILLI as int)
}

/// One path-following tick of a single target.
///
/// While the waypoint is farther away than one tick of movement, the target
/// moves `step_delta` milli-units toward it and turns to face it.  Once the
/// waypoint is within one tick's reach the target does not move; it only
/// advances its path index, deliberately leaving the final fraction of the
/// leg unwalked rather than overshooting.  A target with speed zero is
/// frozen outright — wherever it stands, even on the waypoint itself, it
/// neither moves nor advances, so it can never complete the route.
pub open spec fn target_step(t: Target, path: Seq<Vec2>, dt: u64) -> Target {
    if (t.path_index as int) < path.len() && t.speed > 0 {
        let w = path[t.path_index as int];
        let dx = w.x - t.pos.x;
        let dy = w.y - t.pos.y;
        let dist = isqrt_spec(dx * dx + dy * dy);
        let delta = step_delta(t.speed as int, dt as int);
        if dist > delta {
            Target {
                pos: Vec2 {
                    x: (t.pos.x + scaled_div(dx, delta, dist)) as i64,
                    y: (t.pos.y + scaled_div(dy, delta, dist)) as i64,
                },
                heading: Vec2 { x: dx as i64, y: dy as i64 },
                ..t
            }
        } else {
            Target { path_index: (t.path_index + 1) as usize, ..t }
        }
    } else {
        t
    }
}

/// All targets after one movement tick.
pub open spec fn moved_targets(ts: Seq<Target>, path: Seq<Vec2>, dt: u64) -> Seq<Target> {
    Seq::new(ts.len(), |i: int| target_step(ts[i], path, dt))
}

/// The targets still on their way after the breach check: those whose path
/// index has not yet reached the route length.
pub open spec fn breach_survivors(ts: Seq<Target>, path_len: int) -> Seq<Target> {
    ts.filter(|t: Target| (t.path_index as int) < path_len)
}

/// The targets still alive after the death check.
pub open spec fn death_survivors(ts: Seq<Target>) -> Seq<Target> {
    ts.filter(|t: Target| t.health.value > 0)
}

/// Taking one more element extends a filtered prefix by at most that element.
pub proof fn lemma_filter_take_step<A>(s: Seq<A>, i: int, pred: spec_fn(A) -> bool)
    requires
        0 <= i < s.len(),
    ensures
        s.take(i + 1).filter(pred) == if pred(s[i]) {
            s.take(i).filter(pred).push(s[i])
        } else {
            s.take(i).filter(pred)
        },
{
    reveal(Seq::filter);
    assert(s.take(i + 1).drop_last() =~= s.take(i));
    assert(s.take(i + 1).last() == s[i]);
}

/// A property of every element survives filtering.
pub proof fn lemma_filter_elements<A>(s: Seq<A>, pred: spec_fn(A) -> bool, q: spec_fn(A) -> bool)
    requires
        forall|i: int| 0 <= i < s.len() ==> q(#[trigger] s[i]),
    ensures
        forall|i: int| 0 <= i < s.filter(pred).len() ==> q(#[trigger] s.filter(pred)[i]),
    decreases s.len(),
{
    reveal(Seq::filter);
    if s.len() > 0 {
        let sub = s.drop_last();
        assert(forall|i: int| 0 <= i < sub.len() ==> #[trigger] sub[i] == s[i]);
        lemma_filter_elements(sub, pred, q);
        if pred(s.last()) {
            assert(s.filter(pred) == sub.filter(pred).push(s.last()));
            assert(forall|i: int|
                0 <= i < sub.filter(pred).len() ==> #[trigger] s.filter(pred)[i] == sub.filter(
                    pred,
                )[i]);
        }
    }
}

/// Two complementary filters split a sequence's length exactly.
pub proof fn lemma_filter_partition<A>(s: Seq<A>, pred: spec_fn(A) -> bool, negp: spec_fn(A) -> bool)
    requires
        forall|x: A| #[trigger] negp(x) == !pred(x),
    ensures
        s.filter(pred).len() + s.filter(negp).len() == s.len(),
    decreases s.len(),
{
    reveal(Seq::filter);
    if s.len() > 0 {
        lemma_filter_partition(s.drop_last(), pred, negp);
        assert(negp(s.last()) == !pred(s.last()));
    }
}

/// Law: the breach check emits exactly one breach per target that walked
/// the whole route — the number of removed targets equals the count of
/// targets whose path index reached the route length — and afterwards no
/// remaining target has a completed route.
pub proof fn lemma_breach_events(ts: Seq<Target>, path_len: int)
    ensures
        ts.len() - breach_survivors(ts, path_len).len() == ts.filter(
            |t: Target| (t.path_index as int) >= path_len,
        ).len(),
        forall|k: int|
            0 <= k < breach_survivors(ts, path_len).len() ==> (#[trigger] breach_survivors(
                ts,
                path_len,
            )[k]).path_index < path_len,
{
    lemma_filter_partition(
        ts,
        |t: Target| (t.path_index as int) < path_len,
        |t: Target| (t.path_index as int) >= path_len,
    );
    broadcast use vstd::seq_lib::group_filter_ensures;

}

/// One movement tick of one target; see `target_step`.
pub fn advance_target(t: &mut Target, path: &TargetPath, dt: u64)
    requires
        path_wf(*path),
        target_wf(*old(t), path.waypoints@.len() as int),
        dt <= crate::DT_LIMIT,
    ensures
        *final(t) == target_step(*old(t), path.waypoints@, dt),
        target_wf(*final(t), path.waypoints@.len() as int),
{
    if t.path_index < path.waypoints.len() && t.speed > 0 {
        let w = path.waypoints[t.path_index];
        let dx = w.x - t.pos.x;
        let dy = w.y - t.pos.y;
        let d2 = square_dist(w, t.pos);
        proof {
            assert(d2 == dx * dx + dy * dy);
            lemma_axis_within_dist(dx as int, dy as int);
            lemma_axis_within_dist(dy as int, dx as int);
            lemma_isqrt_bounds(d2 as int);
            assert(dx * dx <= 40_000_000_000_000_000int && dy * dy <= 40_000_000_000_000_000int)
                by (nonlinear_arith)
                requires -200_000_000 <= dx <= 200_000_000, -200_000_000 <= dy <= 200_000_000;
            assert(isqrt_spec(d2 as int) <= 600_000_000int) by {
                let r = isqrt_spec(d2 as int);
                if r > 600_000_000int {
                    assert(r * r > 80_000_000_000_000_000int) by (nonlinear_arith)
                        requires r > 600_000_000int;
                }
            }
            assert(t.speed * dt <= 10_000_000_000int) by (nonlinear_arith)
                requires 0 <= t.speed <= 1_000_000, 0 <= dt <= 10_000;
        }
        let dist = isqrt(d2 as u64) as i64;
        let delta_wide: u64 = (t.speed as u64) * dt / 1000;
        let delta = delta_wide as i64;
        proof {
            assert(delta == step_delta(t.speed as int, dt as int));
            vstd::arithmetic::div_mod::lemma_div_is_ordered(
                (t.speed * dt) as int,
                10_000_000_000int,
                1000int,
            );
            assert(delta <= 10_000_000int);
        }
        if dist > delta {
            proof {
                lemma_scaled_div_bounds(dx as int, delta as int, dist as int);
                lemma_scaled_div_bounds(dy as int, delta as int, dist as int);
            }
            let mx = move_component(dx, delta, dist);
            let my = move_component(dy, delta, dist);
            t.pos.x = t.pos.x + mx;
            t.pos.y = t.pos.y + my;
            t.heading = Vec2 { x: dx, y: dy };
        } else {
            t.path_index = t.path_index + 1;
        }
    }
}

/// Moves every target one tick along the route; see `target_step`.
pub fn move_targets(targets: &mut Vec<Target>, path: &TargetPath, dt: u64)
    requires
        path_wf(*path),
        dt <= crate::DT_LIMIT,
        forall|i: int|
            0 <= i < old(targets)@.len() ==> target_wf(
                #[trigger] old(targets)@[i],
                path.waypoints@.len() as int,
            ),
    ensures
        final(targets)@ == moved_targets(old(targets)@, path.waypoints@, dt),
        forall|i: int|
            0 <= i < final(targets)@.len() ==> target_wf(
                #[trigger] final(targets)@[i],
                path.waypoints@.len() as int,
            ),
{
    let ghost orig = targets@;
    let mut i: usize = 0;
    while i < targets.len()
        invariant
            path_wf(*path),
            dt <= crate::DT_LIMIT,
            i <= targets@.len(),
            targets@.len() == orig.len(),
            forall|k: int|
                0 <= k < orig.len() ==> target_wf(#[trigger] orig[k], path.waypoints@.len() as int),
            forall|k: int| 0 <= k < i ==> targets@[k] == target_step(orig[k], path.waypoints@, dt),
            forall|k: int|
                0 <= k < i ==> target_wf(#[trigger] targets@[k], path.waypoints@.len() as int),
            forall|k: int| i <= k < orig.len() ==> targets@[k] == orig[k],
        decreases targets@.len() - i,
    {
        let mut t = targets[i];
        proof {
            assert(t == orig[i as int]);
            assert(target_wf(orig[i as int], path.waypoints@.len() as int));
        }
        advance_target(&mut t, path, dt);
        targets[i] = t;
        i = i + 1;
    }
    assert(targets@ =~= moved_targets(orig, path.waypoints@, dt));
}

/// The breach check: every target that has walked the whole route is removed
/// and costs the player one health point, clamped at zero.  Runs directly
/// after movement, so a completed route hurts the player on the tick it is
/// completed.
pub fn hurt_player(targets: &mut Vec<Target>, path: &TargetPath, player: &mut Player)
    ensures
        final(targets)@ == breach_survivors(old(targets)@, path.waypoints@.len() as int),
        final(player).health == health_after_breaches(
            old(player).health as int,
            old(targets)@.len() - final(targets)@.len(),
        ),
        final(player).money == old(player).money,
{
    let ghost orig = targets@;
    let ghost plen = path.waypoints@.len() as int;
    let mut kept: Vec<Target> = Vec::new();
    let mut i: usize = 0;
    while i < targets.len()
        invariant
            i <= targets@.len(),
            targets@ == orig,
            kept@ == breach_survivors(orig.take(i as int), plen),
            plen == path.waypoints@.len() as int,
            kept@.len() <= i,
            player.health == health_after_breaches(old(player).health as int, i - kept@.len()),
            player.money == old(player).money,
        decreases targets@.len() - i,
    {
        proof {
            lemma_filter_take_step(orig, i as int, |t: Target| (t.path_index as int) < plen);
        }
        let t = targets[i];
        if t.path_index < path.waypoints.len() {
            kept.push(t);
        } else {
            if player.health > 0 {
                player.health = player.health - 1;
            }
        }
        i = i + 1;
    }
    proof {
        assert(orig.take(orig.len() as int) =~= orig);
    }
    *targets = kept;
}

/// The death check: every target whose health is exhausted is removed, and
/// one death event is recorded for it.
pub fn target_death(targets: &mut Vec<Target>) -> (death_events: Vec<TargetDeathEvent>)
    ensures
        final(targets)@ == death_survivors(old(targets)@),
        death_events@.len() == old(targets)@.len() - final(targets)@.len(),
{
    let ghost orig = targets@;
    let mut kept: Vec<Target> = Vec::new();
    let mut death_events: Vec<TargetDeathEvent> = Vec::new();
    let mut i: usize = 0;
    while i < targets.len()
        invariant
            i <= targets@.len(),
            targets@ == orig,
            kept@ == death_survivors(orig.take(i as int)),
            kept@.len() <= i,
            death_events@.len() == i - kept@.len(),
        decreases targets@.len() - i,
    {
        proof {
            lemma_filter_take_step(orig, i as int, |t: Target| t.health.value > 0);
        }
        let t = targets[i];
        if t.health.value > 0 {
            kept.push(t);
        } else {
            death_events.push(TargetDeathEvent);
        }
        i = i + 1;
    }
    proof {
        assert(orig.take(orig.len() as int) =~= orig);
    }
    *targets = kept;
    death_events
}

/// A target after `n` movement ticks.
pub open spec fn ticked_target(t: Target, path: Seq<Vec2>, dt: u64, n: int) -> Target
    decreases n,
{
    if n <= 0 {
        t
    } else {
        target_step(ticked_target(t, path, dt, n - 1), path, dt)
    }
}

/// One movement tick keeps a target well-formed.
pub proof fn lemma_step_preserves_wf(t: Target, path: Seq<Vec2>, dt: u64)
    requires
        target_wf(t, path.len() as int),
        path.len() <= usize::MAX,
        forall|i: int| 0 <= i < path.len() ==> in_world(#[trigger] path[i]),
    ensures
        target_wf(target_step(t, path, dt), path.len() as int),
        target_step(t, path, dt).path_index >= t.path_index,
        target_step(t, path, dt).speed == t.speed,
        target_step(t, path, dt).health == t.health,
{
    if (t.path_index as int) < path.len() && t.speed > 0 {
        let w = path[t.path_index as int];
        let dx = w.x - t.pos.x;
        let dy = w.y - t.pos.y;
        let dist = isqrt_spec(dx * dx + dy * dy);
        let delta = step_delta(t.speed as int, dt as int);
        vstd::arithmetic::div_mod::lemma_div_pos_is_pos(t.speed * dt, 1000);
        vstd::arithmetic::mul::lemma_mul_nonnegative(t.speed as int, dt as int);
        if dist > delta {
            lemma_axis_within_dist(dx, dy);
            lemma_axis_within_dist(dy, dx);
            lemma_scaled_div_bounds(dx, delta, dist);
            lemma_scaled_div_bounds(dy, delta, dist);
        }
    }
}

/// Law: the path index never moves backward and never passes the route
/// length, over any number of ticks.
pub proof fn lemma_path_index_monotone(t: Target, path: Seq<Vec2>, dt: u64, n: int)
    requires
        target_wf(t, path.len() as int),
        path.len() <= usize::MAX,
        forall|i: int| 0 <= i < path.len() ==> in_world(#[trigger] path[i]),
        0 <= n,
    ensures
        target_wf(ticked_target(t, path, dt, n), path.len() as int),
        t.path_index <= ticked_target(t, path, dt, n).path_index <= path.len(),
    decreases n,
{
    if n > 0 {
        lemma_path_index_monotone(t, path, dt, n - 1);
        lemma_step_preserves_wf(ticked_target(t, path, dt, n - 1), path, dt);
    }
}

/// Law: while the waypoint is out of one tick's reach, a tick that moves at
/// least two milli-units strictly shrinks the squared remaining distance and
/// leaves the index alone; otherwise the tick advances the index by exactly
/// one.  Ticking therefore walks each leg in finitely many steps.
pub proof fn lemma_target_progress(t: Target, path: Seq<Vec2>, dt: u64)
    requires
        target_wf(t, path.len() as int),
        path.len() <= usize::MAX,
        forall|i: int| 0 <= i < path.len() ==> in_world(#[trigger] path[i]),
        (t.path_index as int) < path.len(),
        step_delta(t.speed as int, dt as int) >= 2,
    ensures
        ({
            let w = path[t.path_index as int];
            let s = target_step(t, path, dt);
            let dist = isqrt_spec(dist2(w, t.pos));
            let delta = step_delta(t.speed as int, dt as int);
            &&& dist > delta ==> {
                &&& s.path_index == t.path_index
                &&& dist2(w, s.pos) < dist2(w, t.pos)
            }
            &&& dist <= delta ==> s.path_index == t.path_index + 1
        }),
{
    let w = path[t.path_index as int];
    let dx = w.x - t.pos.x;
    let dy = w.y - t.pos.y;
    let dist = isqrt_spec(dx * dx + dy * dy);
    let delta = step_delta(t.speed as int, dt as int);
    assert(dist2(w, t.pos) == dx * dx + dy * dy);
    assert(t.speed > 0) by {
        if t.speed == 0 {
            assert(0 * (dt as int) == 0) by (nonlinear_arith);
            vstd::arithmetic::div_mod::lemma_div_of0(1000int);
        }
    }
    if dist > delta {
        let s = target_step(t, path, dt);
        lemma_axis_within_dist(dx, dy);
        lemma_axis_within_dist(dy, dx);
        lemma_scaled_div_bounds(dx, delta, dist);
        lemma_scaled_div_bounds(dy, delta, dist);
        let mx = scaled_div(dx, delta, dist);
        let my = scaled_div(dy, delta, dist);
        assert(s.pos.x == t.pos.x + mx && s.pos.y == t.pos.y + my);
        let ndx = w.x - s.pos.x;
        let ndy = w.y - s.pos.y;
        assert(ndx == dx - mx && ndy == dy - my);
        // The larger axis moves by at least one milli-unit.
        if vstd::math::abs(dy) <= vstd::math::abs(dx) {
            lemma_major_axis(dx, dy);
            assert(vstd::math::abs(dx) * delta >= dist) by (nonlinear_arith)
                requires delta >= 2, 2 * vstd::math::abs(dx) >= dist, dist > delta;
            if dx >= 0 {
                lemma_scaled_div_at_least_one(dx, delta, dist);
            } else {
                lemma_scaled_div_at_least_one(-dx, delta, dist);
            }
            assert(ndx * ndx < dx * dx) by (nonlinear_arith)
                requires 1 <= mx <= dx || dx <= mx <= -1, ndx == dx - mx;
            assert(ndy * ndy <= dy * dy) by (nonlinear_arith)
                requires 0 <= my <= dy || dy <= my <= 0, ndy == dy - my;
        } else {
            lemma_major_axis(dy, dx);
            assert(vstd::math::abs(dy) * delta >= dist) by (nonlinear_arith)
                requires delta >= 2, 2 * vstd::math::abs(dy) >= dist, dist > delta;
            if dy >= 0 {
                lemma_scaled_div_at_least_one(dy, delta, dist);
            } else {
                lemma_scaled_div_at_least_one(-dy, delta, dist);
            }
            assert(ndy * ndy < dy * dy) by (nonlinear_arith)
                requires 1 <= my <= dy || dy <= my <= -1, ndy == dy - my;
            assert(ndx * ndx <= dx * dx) by (nonlinear_arith)
                requires 0 <= mx <= dx || dx <= mx <= 0, ndx == dx - mx;
        }
        assert(dist2(w, s.pos) == ndx * ndx + ndy * ndy);
    }
}

/// Law: a target with speed zero is frozen: any number of ticks leaves it
/// exactly as it is — it never moves, never advances its path index, and so
/// never completes the route or damages the player.
pub proof fn lemma_zero_speed_never_advances(t: Target, path: Seq<Vec2>, dt: u64, n: int)
    requires
        t.speed == 0,
        0 <= n,
    ensures
        ticked_target(t, path, dt, n) == t,
    decreases n,
{
    if n > 0 {
        lemma_zero_speed_never_advances(t, path, dt, n - 1);
    }
}

} // verus!
