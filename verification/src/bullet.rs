//! Bullets: short-lived projectiles that fly along a fixed direction, expire
//! when their lifetime runs out, and damage the first target they touch.

use crate::geom::Vec2;
use crate::geom::dist2;
use crate::geom::in_world;
use crate::geom::move_along;
use crate::geom::scaled_div;
use crate::geom::square_dist;
use crate::target::Health;
use crate::target::Target;
use crate::target::lemma_filter_take_step;
use vstd::arithmetic::mul::lemma_mul_inequality;
use vstd::prelude::*;

verus! {

/// Time a bullet has left before it disappears, in milliseconds.
#[derive(Clone, Copy, Debug, PartialEq, Eq, Structural)]
pub struct Lifetime {
    pub remaining_ms: u64,
}

/// A projectile in flight.
///
/// `direction` is the un-normalized aim vector fixed at spawn time and
/// `norm` its length, so one tick of movement is
/// `direction * step_delta / norm` per axis; bullets never re-aim.
#[derive(Clone, Copy, Debug, PartialEq, Eq, Structural)]
pub struct Bullet {
    pub pos: Vec2,
    pub direction: Vec2,
    pub norm: i64,
    pub speed: i64,
    pub lifetime: Lifetime,
}

/// A bullet is well-formed when its aim vector is consistent and the
/// distance it can still fly is covered by its remaining lifetime, which
/// keeps its coordinates bounded without pinning them to the board.
pub open spec fn bullet_wf(b: Bullet) -> bool {
    &&& 1 <= b.norm <= 1_000_000_000
    &&& -b.norm <= b.direction.x <= b.norm
    &&& -b.norm <= b.direction.y <= b.norm
    &&& 0 <= b.speed <= crate::SPEED_LIMIT
    &&& b.lifetime.remaining_ms <= crate::LIFETIME_LIMIT
    &&& 1000 * b.pos.x <= crate::TRAVEL_BUDGET - b.speed * b.lifetime.remaining_ms
    &&& -(crate::TRAVEL_BUDGET - b.speed * b.lifetime.remaining_ms) <= 1000 * b.pos.x
    &&& 1000 * b.pos.y <= crate::TRAVEL_BUDGET - b.speed * b.lifetime.remaining_ms
    &&& -(crate::TRAVEL_BUDGET - b.speed * b.lifetime.remaining_ms) <= 1000 * b.pos.y
}

/// One movement tick of a live bullet: the lifetime shrinks by `dt` and the
/// position advances `step_delta` milli-units along the aim vector.
pub open spec fn bullet_step(b: Bullet, dt: u64) -> Bullet {
    let delta = crate::target::step_delta(b.speed as int, dt as int);
    Bullet {
        pos: Vec2 {
            x: (b.pos.x + scaled_div(b.direction.x as int, delta, b.norm as int)) as i64,
            y: (b.pos.y + scaled_div(b.direction.y as int, delta, b.norm as int)) as i64,
        },
        lifetime: Lifetime { remaining_ms: (b.lifetime.remaining_ms - dt) as u64 },
        ..b
    }
}

/// The bullets still flying after one tick: those whose lifetime outlasts
/// the tick, each moved one step.  A bullet whose lifetime is used up is
/// destroyed without any other effect.
pub open spec fn moved_bullets(bs: Seq<Bullet>, dt: u64) -> Seq<Bullet> {
    bs.filter(|b: Bullet| b.lifetime.remaining_ms > dt).map_values(|b: Bullet| bullet_step(b, dt))
}

/// A mapped sequence extends element by element.
pub proof fn lemma_map_values_push<A, B>(s: Seq<A>, x: A, f: spec_fn(A) -> B)
    ensures
        s.push(x).map_values(f) == s.map_values(f).push(f(x)),
{
    assert(s.push(x).map_values(f) =~= s.map_values(f).push(f(x)));
}

/// One tick keeps a surviving bullet well-formed: the budget it spends on
/// movement is exactly freed by the lifetime it loses.
pub proof fn lemma_bullet_step_wf(b: Bullet, dt: u64)
    requires
        bullet_wf(b),
        dt <= crate::DT_LIMIT,
        b.lifetime.remaining_ms > dt,
    ensures
        bullet_wf(bullet_step(b, dt)),
        -800_000_000 <= b.pos.x <= 800_000_000,
        -800_000_000 <= b.pos.y <= 800_000_000,
        ({
            let delta = crate::target::step_delta(b.speed as int, dt as int);
            &&& 0 <= delta <= 10_000_000
            &&& -delta <= scaled_div(b.direction.x as int, delta, b.norm as int) <= delta
            &&& -delta <= scaled_div(b.direction.y as int, delta, b.norm as int) <= delta
        }),
{
    let delta = crate::target::step_delta(b.speed as int, dt as int);
    vstd::arithmetic::mul::lemma_mul_nonnegative(b.speed as int, dt as int);
    vstd::arithmetic::mul::lemma_mul_nonnegative(b.speed as int, b.lifetime.remaining_ms as int);
    vstd::arithmetic::div_mod::lemma_div_pos_is_pos(b.speed * dt, 1000);
    assert(delta >= 0);
    assert(b.speed * dt <= 10_000_000_000int) by (nonlinear_arith)
        requires 0 <= b.speed <= 1_000_000, 0 <= dt <= 10_000;
    vstd::arithmetic::div_mod::lemma_div_is_ordered(
        (b.speed * dt) as int,
        10_000_000_000int,
        1000int,
    );
    assert(delta <= 10_000_000int);
    // 1000 * delta <= speed * dt, because delta is the quotient by 1000.
    vstd::arithmetic::div_mod::lemma_fundamental_div_mod(b.speed * dt, 1000);
    vstd::arithmetic::div_mod::lemma_remainder_lower(b.speed * dt, 1000);
    assert(1000 * delta <= b.speed * dt);
    // Movement on each axis is at most delta.
    assert(-delta <= scaled_div(b.direction.x as int, delta, b.norm as int) <= delta) by {
        if delta == 0 {
            vstd::arithmetic::div_mod::lemma_div_of0(b.norm as int);
            assert(b.direction.x * 0 == 0) by (nonlinear_arith);
            assert((-(b.direction.x as int)) * 0 == 0) by (nonlinear_arith);
        } else {
            lemma_scaled_div_le_delta(b.direction.x as int, delta, b.norm as int);
        }
    }
    assert(-delta <= scaled_div(b.direction.y as int, delta, b.norm as int) <= delta) by {
        if delta == 0 {
            vstd::arithmetic::div_mod::lemma_div_of0(b.norm as int);
            assert(b.direction.y * 0 == 0) by (nonlinear_arith);
            assert((-(b.direction.y as int)) * 0 == 0) by (nonlinear_arith);
        } else {
            lemma_scaled_div_le_delta(b.direction.y as int, delta, b.norm as int);
        }
    }
    // The budget after the step covers the new position.
    let l2 = b.lifetime.remaining_ms - dt;
    assert(b.speed * b.lifetime.remaining_ms == b.speed * l2 + b.speed * dt) by (nonlinear_arith)
        requires l2 == b.lifetime.remaining_ms - dt;
    assert(bullet_wf(bullet_step(b, dt)));
    assert(1000 * bullet_step(b, dt).pos.x <= crate::TRAVEL_BUDGET);
    vstd::arithmetic::mul::lemma_mul_nonnegative(b.speed as int, l2);
}

/// `scaled_div` moves at most `delta`, whatever the axis offset, as long as
/// the offset is within the norm.
pub proof fn lemma_scaled_div_le_delta(d: int, delta: int, norm: int)
    requires
        0 < norm,
        0 < delta,
        -norm <= d <= norm,
    ensures
        -delta <= scaled_div(d, delta, norm) <= delta,
{
    let a = if d >= 0 { d } else { -d };
    vstd::arithmetic::mul::lemma_mul_nonnegative(a, delta);
    vstd::arithmetic::div_mod::lemma_div_pos_is_pos(a * delta, norm);
    lemma_mul_inequality(a, norm, delta);
    assert(a * delta == delta * a && norm * delta == delta * norm) by (nonlinear_arith);
    vstd::arithmetic::div_mod::lemma_div_is_ordered(a * delta, norm * delta, norm);
    vstd::arithmetic::div_mod::lemma_div_by_multiple(delta, norm);
    assert((norm * delta) / norm == delta) by {
        assert(norm * delta == delta * norm) by (nonlinear_arith);
    }
}

/// Moves every live bullet one tick and destroys the expired ones;
/// see `moved_bullets`.
pub fn move_bullets(bullets: &mut Vec<Bullet>, dt: u64)
    requires
        dt <= crate::DT_LIMIT,
        forall|i: int| 0 <= i < old(bullets)@.len() ==> bullet_wf(#[trigger] old(bullets)@[i]),
    ensures
        final(bullets)@ == moved_bullets(old(bullets)@, dt),
        forall|i: int| 0 <= i < final(bullets)@.len() ==> bullet_wf(#[trigger] final(bullets)@[i]),
{
    let ghost orig = bullets@;
    let ghost keep = |b: Bullet| b.lifetime.remaining_ms > dt;
    let ghost stepper = |b: Bullet| bullet_step(b, dt);
    let mut kept: Vec<Bullet> = Vec::new();
    let mut i: usize = 0;
    while i < bullets.len()
        invariant
            i <= bullets@.len(),
            bullets@ == orig,
            dt <= crate::DT_LIMIT,
            forall|k: int| 0 <= k < orig.len() ==> bullet_wf(#[trigger] orig[k]),
            keep == (|b: Bullet| b.lifetime.remaining_ms > dt),
            stepper == (|b: Bullet| bullet_step(b, dt)),
            kept@ == orig.take(i as int).filter(keep).map_values(stepper),
            forall|k: int| 0 <= k < kept@.len() ==> bullet_wf(#[trigger] kept@[k]),
        decreases bullets@.len() - i,
    {
        proof {
            crate::target::lemma_filter_take_step(orig, i as int, keep);
            lemma_map_values_push(orig.take(i as int).filter(keep), orig[i as int], stepper);
        }
        let b = bullets[i];
        if b.lifetime.remaining_ms > dt {
            proof {
                lemma_bullet_step_wf(b, dt);
                assert(b.speed * dt <= 10_000_000_000int) by (nonlinear_arith)
                    requires 0 <= b.speed <= 1_000_000, 0 <= dt <= 10_000;
            }
            let delta_wide: u64 = (b.speed as u64) * dt / 1000;
            let delta = delta_wide as i64;
            let mx = move_along(b.direction.x, delta, b.norm);
            let my = move_along(b.direction.y, delta, b.norm);
            let stepped = Bullet {
                pos: Vec2 { x: b.pos.x + mx, y: b.pos.y + my },
                lifetime: Lifetime { remaining_ms: b.lifetime.remaining_ms - dt },
                ..b
            };
            kept.push(stepped);
        }
        i = i + 1;
    }
    proof {
        assert(orig.take(orig.len() as int) =~= orig);
    }
    *bullets = kept;
}

/// A lone bullet after `n` movement ticks, `None` once it has expired.
pub open spec fn ticked_bullet(b: Bullet, dt: u64, n: int) -> Option<Bullet>
    decreases n,
{
    if n <= 0 {
        Option::Some(b)
    } else {
        match ticked_bullet(b, dt, n - 1) {
            Option::Some(u) => if u.lifetime.remaining_ms > dt {
                Option::Some(bullet_step(u, dt))
            } else {
                Option::None
            },
            Option::None => Option::None,
        }
    }
}

/// Law: a bullet that never collides lives through exactly the ticks whose
/// total elapsed time stays short of its lifetime: after `n` ticks of `dt`
/// it still exists if and only if `n * dt` has not reached the lifetime it
/// started with, and while it lives its clock reads the exact remainder.
/// Expiry removes the bullet and nothing else: the movement phase never
/// touches a target.
pub proof fn lemma_bullet_lifetime(b: Bullet, dt: u64, n: int)
    requires
        0 < dt,
        0 <= n,
    ensures
        ticked_bullet(b, dt, n) is Some <==> (n == 0 || b.lifetime.remaining_ms > n * dt),
        ticked_bullet(b, dt, n) matches Option::Some(u) ==> u.lifetime.remaining_ms
            == b.lifetime.remaining_ms - n * dt,
    decreases n,
{
    if n > 0 {
        lemma_bullet_lifetime(b, dt, n - 1);
        assert(n * dt == (n - 1) * dt + dt) by (nonlinear_arith);
        assert((n - 1) * dt >= 0) by (nonlinear_arith)
            requires n >= 1, dt >= 1;
    }
}

/// A bullet touching a target: within the hit radius.  This distance rule
/// is the geometric model of the colliders the renderer attaches.
pub open spec fn hit_by(t: Target, b: Bullet) -> bool {
    dist2(t.pos, b.pos) <= crate::HIT_RADIUS * crate::HIT_RADIUS
}

/// The first target, in order, that bullet `b` touches.
pub open spec fn first_hit(ts: Seq<Target>, b: Bullet) -> Option<int>
    decreases ts.len(),
{
    if ts.len() == 0 {
        Option::None
    } else if hit_by(ts[0], b) {
        Option::Some(0int)
    } else {
        match first_hit(ts.drop_first(), b) {
            Option::Some(j) => Option::Some(j + 1),
            Option::None => Option::None,
        }
    }
}

/// Health value after `n` hit points of damage, saturating at the type's
/// floor (which no reachable run ever approaches).
pub open spec fn dec_health(h: int, n: int) -> int {
    if h - n >= i64::MIN {
        h - n
    } else {
        i64::MIN as int
    }
}

/// How many bullets spend themselves on target `i`: those whose first
/// touched target is `i`.  Each bullet is consumed by its first contact, so
/// it damages one target at most.
pub open spec fn hits_on(ts: Seq<Target>, bs: Seq<Bullet>, i: int) -> int {
    bs.filter(|b: Bullet| first_hit(ts, b) == Option::Some(i)).len() as int
}

/// Targets after collision resolution: each loses one health point per
/// bullet consumed on it; nothing else about it changes.
pub open spec fn collided_targets(ts: Seq<Target>, bs: Seq<Bullet>) -> Seq<Target> {
    Seq::new(
        ts.len(),
        |i: int| Target {
            health: Health {
                value: dec_health(ts[i].health.value as int, hits_on(ts, bs, i)) as i64,
            },
            ..ts[i]
        },
    )
}

/// The bullets that touched no target and fly on.
pub open spec fn surviving_bullets(ts: Seq<Target>, bs: Seq<Bullet>) -> Seq<Bullet> {
    bs.filter(|b: Bullet| first_hit(ts, b) is None)
}

/// A first hit is at a target that is really touched, within bounds.
pub proof fn lemma_first_hit_bounds(ts: Seq<Target>, b: Bullet)
    ensures
        first_hit(ts, b) matches Option::Some(j) ==> 0 <= j < ts.len() && hit_by(ts[j], b),
    decreases ts.len(),
{
    if ts.len() > 0 && !hit_by(ts[0], b) {
        lemma_first_hit_bounds(ts.drop_first(), b);
    }
}

/// Extending the prefix by target `i` adds exactly the contacts with `i`.
pub proof fn lemma_first_hit_extend(ts: Seq<Target>, b: Bullet, i: int)
    requires
        0 <= i < ts.len(),
    ensures
        (first_hit(ts.take(i + 1), b) is Some) == ((first_hit(ts.take(i), b) is Some)
            || hit_by(ts[i], b)),
        (first_hit(ts, b) == Option::Some(i)) == ((first_hit(ts.take(i), b) is None)
            && hit_by(ts[i], b)),
    decreases i,
{
    assert(ts.take(i + 1)[i] == ts[i]);
    if i == 0 {
        assert(ts.take(0int) =~= Seq::<Target>::empty());
        assert(first_hit(ts.take(0int), b) is None);
        assert(ts.take(1int)[0] == ts[0]);
        assert(ts.take(1int).len() == 1);
        assert(ts.take(1int).drop_first() =~= Seq::<Target>::empty());
        lemma_first_hit_bounds(ts.drop_first(), b);
        if hit_by(ts[0], b) {
            assert(first_hit(ts.take(1int), b) == Option::Some(0int));
            assert(first_hit(ts, b) == Option::Some(0int));
        } else {
            assert(first_hit(Seq::<Target>::empty(), b) is None);
            assert(first_hit(ts.take(1int), b) is None);
            assert(first_hit(ts, b) != Option::Some(0int));
        }
    } else {
        let rest = ts.drop_first();
        assert(ts.take(i + 1).drop_first() =~= rest.take(i));
        assert(ts.take(i).drop_first() =~= rest.take(i - 1));
        assert(ts.take(i + 1)[0] == ts[0] && ts.take(i)[0] == ts[0]);
        assert(ts.take(i + 1).len() == i + 1 && ts.take(i).len() == i);
        lemma_first_hit_extend(rest, b, i - 1);
        assert(forall|k: int| 0 <= k < rest.len() ==> #[trigger] rest[k] == ts[k + 1]);
        assert(rest[i - 1] == ts[i]);
        if hit_by(ts[0], b) {
            assert(first_hit(ts, b) == Option::Some(0int));
            assert(first_hit(ts.take(i), b) == Option::Some(0int));
            assert(first_hit(ts.take(i + 1), b) == Option::Some(0int));
        } else {
            assert(first_hit(ts, b) == match first_hit(rest, b) {
                Option::Some(j) => Option::Some(j + 1),
                Option::None => Option::None,
            });
            assert(first_hit(ts.take(i), b) == match first_hit(rest.take(i - 1), b) {
                Option::Some(j) => Option::Some(j + 1),
                Option::None => Option::None,
            });
            assert(first_hit(ts.take(i + 1), b) == match first_hit(rest.take(i), b) {
                Option::Some(j) => Option::Some(j + 1),
                Option::None => Option::None,
            });
        }
    }
}

/// Resolves contacts between bullets and targets: walking the targets in
/// order, every still-flying bullet that touches the target is consumed and
/// costs the target one health point.  A bullet is consumed by its first
/// contact only, so no bullet damages two targets; consumed bullets are
/// removed.
pub fn bullet_collision_detection(targets: &mut Vec<Target>, bullets: &mut Vec<Bullet>)
    requires
        forall|i: int| 0 <= i < old(targets)@.len() ==> in_world((#[trigger] old(targets)@[i]).pos),
        forall|i: int| 0 <= i < old(bullets)@.len() ==> bullet_wf(#[trigger] old(bullets)@[i]),
    ensures
        final(targets)@ == collided_targets(old(targets)@, old(bullets)@),
        final(bullets)@ == surviving_bullets(old(targets)@, old(bullets)@),
        forall|i: int| 0 <= i < final(bullets)@.len() ==> bullet_wf(#[trigger] final(bullets)@[i]),
{
    let ghost ots = targets@;
    let ghost obs = bullets@;
    let mut consumed: Vec<bool> = vec![false; bullets.len()];
    let mut i: usize = 0;
    proof {
        assert(ots.take(0int) =~= Seq::<Target>::empty());
    }
    while i < targets.len()
        invariant
            i <= ots.len(),
            targets@.len() == ots.len(),
            bullets@ == obs,
            consumed@.len() == obs.len(),
            forall|i0: int| 0 <= i0 < ots.len() ==> in_world((#[trigger] ots[i0]).pos),
            forall|i0: int| 0 <= i0 < obs.len() ==> bullet_wf(#[trigger] obs[i0]),
            forall|k: int|
                0 <= k < obs.len() ==> consumed@[k] == (first_hit(
                    ots.take(i as int),
                    #[trigger] obs[k],
                ) is Some),
            forall|k: int| 0 <= k < i ==> targets@[k] == collided_targets(ots, obs)[k],
            forall|k: int| i <= k < ots.len() ==> targets@[k] == ots[k],
        decreases ots.len() - i,
    {
        let ghost this_hit = |b: Bullet| first_hit(ots, b) == Option::Some(i as int);
        let mut t = targets[i];
        let mut j: usize = 0;
        proof {
            assert(obs.take(0int) =~= Seq::<Bullet>::empty());
            reveal(Seq::filter);
        }
        while j < bullets.len()
            invariant
                j <= obs.len(),
                i < ots.len(),
                bullets@ == obs,
                consumed@.len() == obs.len(),
                forall|i0: int| 0 <= i0 < ots.len() ==> in_world((#[trigger] ots[i0]).pos),
                forall|i0: int| 0 <= i0 < obs.len() ==> bullet_wf(#[trigger] obs[i0]),
                this_hit == (|b: Bullet| first_hit(ots, b) == Option::Some(i as int)),
                forall|k: int|
                    j <= k < obs.len() ==> consumed@[k] == (first_hit(
                        ots.take(i as int),
                        #[trigger] obs[k],
                    ) is Some),
                forall|k: int|
                    0 <= k < j ==> consumed@[k] == (first_hit(
                        ots.take(i as int + 1),
                        #[trigger] obs[k],
                    ) is Some),
                t == (Target {
                    health: Health {
                        value: dec_health(
                            ots[i as int].health.value as int,
                            obs.take(j as int).filter(this_hit).len() as int,
                        ) as i64,
                    },
                    ..ots[i as int]
                }),
            decreases obs.len() - j,
        {
            proof {
                lemma_filter_take_step(obs, j as int, this_hit);
                lemma_first_hit_extend(ots, obs[j as int], i as int);
                let b = obs[j as int];
                vstd::arithmetic::mul::lemma_mul_nonnegative(
                    b.speed as int,
                    b.lifetime.remaining_ms as int,
                );
                obs.take(j as int).lemma_filter_len(this_hit);
            }
            let hit = if !consumed[j] {
                let b = bullets[j];
                let d2 = square_dist(t.pos, b.pos);
                d2 <= crate::HIT_RADIUS * crate::HIT_RADIUS
            } else {
                false
            };
            if hit {
                consumed[j] = true;
                if t.health.value > i64::MIN {
                    t.health.value = t.health.value - 1;
                }
            }
            j = j + 1;
        }
        targets[i] = t;
        i = i + 1;
        proof {
            assert(obs.take(obs.len() as int) =~= obs);
            assert(targets@[i as int - 1] == collided_targets(ots, obs)[i as int - 1]);
        }
    }
    // Remove the consumed bullets, keeping the rest in order.
    let ghost no_hit = |b: Bullet| first_hit(ots, b) is None;
    let mut kept: Vec<Bullet> = Vec::new();
    let mut j: usize = 0;
    proof {
        assert(ots.take(ots.len() as int) =~= ots);
        assert(obs.take(0int) =~= Seq::<Bullet>::empty());
        reveal(Seq::filter);
    }
    while j < bullets.len()
        invariant
            j <= obs.len(),
            bullets@ == obs,
            consumed@.len() == obs.len(),
            no_hit == (|b: Bullet| first_hit(ots, b) is None),
            forall|i0: int| 0 <= i0 < obs.len() ==> bullet_wf(#[trigger] obs[i0]),
            forall|k: int|
                0 <= k < obs.len() ==> consumed@[k] == (first_hit(ots, #[trigger] obs[k]) is Some),
            kept@ == obs.take(j as int).filter(no_hit),
            forall|k: int| 0 <= k < kept@.len() ==> bullet_wf(#[trigger] kept@[k]),
        decreases obs.len() - j,
    {
        proof {
            lemma_filter_take_step(obs, j as int, no_hit);
        }
        if !consumed[j] {
            let b = bullets[j];
            kept.push(b);
        }
        j = j + 1;
    }
    proof {
        assert(obs.take(obs.len() as int) =~= obs);
        assert(targets@ =~= collided_targets(ots, obs));
    }
    *bullets = kept;
}

} // verus!
