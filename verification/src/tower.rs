//! Towers: stationary units that, on a repeating cooldown, pick the nearest
//! target within range and fire a bullet at it.  Also holds the per-type
//! stat table and the purchase rules of the tower shop.

use crate::bullet::Bullet;
use crate::bullet::Lifetime;
use crate::bullet::bullet_wf;
use crate::geom::Vec2;
use crate::geom::dist2;
use crate::geom::in_world;
use crate::geom::isqrt;
use crate::geom::isqrt_spec;
use crate::geom::lemma_axis_within_dist;
use crate::geom::lemma_isqrt_bounds;
use crate::geom::square_dist;
use crate::player::Player;
use crate::target::Target;
use vstd::prelude::*;

verus! {

/// The kinds of tower the shop offers; each kind has fixed stats.
#[derive(Clone, Copy, Debug, PartialEq, Eq, Structural)]
pub enum TowerType {
    Tomato,
    Potato,
    Cabbage,
}

/// A repeating cooldown: fires whenever `elapsed` crosses `duration`, then
/// keeps the remainder, like a repeating timer.
#[derive(Clone, Copy, Debug, PartialEq, Eq, Structural)]
pub struct CooldownTimer {
    pub duration: u64,
    pub elapsed: u64,
}

/// A stationary firing unit.
#[derive(Clone, Copy, Debug, PartialEq, Eq, Structural)]
pub struct Tower {
    pub kind: TowerType,
    pub pos: Vec2,
    pub shooting_timer: CooldownTimer,
    pub bullet_offset: Vec2,
    pub range: i64,
}

pub open spec fn timer_wf(tm: CooldownTimer) -> bool {
    &&& 0 < tm.duration <= crate::COOLDOWN_LIMIT
    &&& tm.elapsed < tm.duration
}

pub open spec fn tower_wf(tw: Tower) -> bool {
    &&& timer_wf(tw.shooting_timer)
    &&& in_world(tw.pos)
    &&& in_world(tw.bullet_offset)
    &&& 0 <= tw.range <= crate::COORD_LIMIT
}

/// Whether a tick of `dt` makes the cooldown cross its threshold.
pub open spec fn timer_fires(tm: CooldownTimer, dt: u64) -> bool {
    tm.elapsed + dt >= tm.duration
}

/// The cooldown after a tick of `dt`: it accumulates, wrapping on fire.
pub open spec fn ticked_timer(tm: CooldownTimer, dt: u64) -> CooldownTimer {
    CooldownTimer { duration: tm.duration, elapsed: ((tm.elapsed + dt) % (tm.duration as int)) as u64 }
}

impl CooldownTimer {
    /// Advances the cooldown by `dt` and reports whether it fired.
    pub fn tick(&mut self, dt: u64) -> (fires: bool)
        requires
            timer_wf(*old(self)),
            dt <= crate::DT_LIMIT,
        ensures
            *final(self) == ticked_timer(*old(self), dt),
            fires == timer_fires(*old(self), dt),
            timer_wf(*final(self)),
    {
        let total = self.elapsed + dt;
        if total >= self.duration {
            self.elapsed = total % self.duration;
            true
        } else {
            proof {
                vstd::arithmetic::div_mod::lemma_small_mod(total as nat, self.duration as nat);
            }
            self.elapsed = total;
            false
        }
    }
}

impl TowerType {
    /// Cooldown between shots, in milliseconds.
    pub open spec fn cooldown_ms(self) -> u64 {
        match self {
            TowerType::Tomato => 500,
            TowerType::Potato => 700,
            TowerType::Cabbage => 800,
        }
    }

    /// Firing range, in milli-units.
    pub open spec fn range_mu(self) -> i64 {
        4500
    }

    /// Bullet speed, in milli-units per second.
    pub open spec fn bullet_speed(self) -> i64 {
        match self {
            TowerType::Tomato => 3500,
            TowerType::Potato => 6500,
            TowerType::Cabbage => 2500,
        }
    }

    /// Purchase price in the tower shop.
    pub open spec fn cost_spec(self) -> u64 {
        match self {
            TowerType::Tomato => 50,
            TowerType::Potato => 80,
            TowerType::Cabbage => 110,
        }
    }

    /// Purchase price in the tower shop.
    pub fn cost(&self) -> (c: u64)
        ensures
            c == self.cost_spec(),
    {
        match self {
            TowerType::Tomato => 50,
            TowerType::Potato => 80,
            TowerType::Cabbage => 110,
        }
    }

    /// The tower a purchase of this kind builds at `position`, with its
    /// stats from the fixed per-type table.  The rendered model keeps its
    /// firing offset above the board, so on the board plane the offset is
    /// zero.
    pub fn get_tower(&self, position: Vec2) -> (tower: Tower)
        requires
            in_world(position),
        ensures
            tower == tower_from(*self, position),
            tower_wf(tower),
    {
        let duration = match self {
            TowerType::Tomato => 500,
            TowerType::Potato => 700,
            TowerType::Cabbage => 800,
        };
        Tower {
            kind: *self,
            pos: position,
            shooting_timer: CooldownTimer { duration, elapsed: 0 },
            bullet_offset: Vec2 { x: 0, y: 0 },
            range: 4500,
        }
    }

    /// The bullet this kind of tower fires from `position` along
    /// `direction`, whose length is `norm`; speed comes from the fixed
    /// per-type table and every bullet lives `BULLET_LIFETIME` milliseconds.
    pub fn get_bullet(&self, position: Vec2, direction: Vec2, norm: i64) -> (b: Bullet)
        requires
            1 <= norm <= 1_000_000_000,
            -norm <= direction.x <= norm,
            -norm <= direction.y <= norm,
            -2 * crate::COORD_LIMIT <= position.x <= 2 * crate::COORD_LIMIT,
            -2 * crate::COORD_LIMIT <= position.y <= 2 * crate::COORD_LIMIT,
        ensures
            b == (Bullet {
                pos: position,
                direction: direction,
                norm: norm,
                speed: self.bullet_speed(),
                lifetime: Lifetime { remaining_ms: crate::BULLET_LIFETIME },
            }),
            bullet_wf(b),
    {
        let speed = match self {
            TowerType::Tomato => 3500,
            TowerType::Potato => 6500,
            TowerType::Cabbage => 2500,
        };
        Bullet {
            pos: position,
            direction,
            norm,
            speed,
            lifetime: Lifetime { remaining_ms: crate::BULLET_LIFETIME },
        }
    }
}

/// The stats of a freshly built tower of the given kind at `position`.
pub open spec fn tower_from(kind: TowerType, position: Vec2) -> Tower {
    Tower {
        kind: kind,
        pos: position,
        shooting_timer: CooldownTimer { duration: kind.cooldown_ms(), elapsed: 0 },
        bullet_offset: Vec2 { x: 0, y: 0 },
        range: kind.range_mu(),
    }
}

/// Builds a tower of the given kind at `position`.
pub fn spawn_tower(position: Vec2, tower_type: TowerType) -> (tower: Tower)
    requires
        in_world(position),
    ensures
        tower == tower_from(tower_type, position),
        tower_wf(tower),
{
    tower_type.get_tower(position)
}

/// Where a tower's bullets start: its position plus its firing offset.
pub open spec fn firing_origin(tw: Tower) -> Vec2 {
    Vec2 { x: (tw.pos.x + tw.bullet_offset.x) as i64, y: (tw.pos.y + tw.bullet_offset.y) as i64 }
}

/// The target a tower at `origin` picks: the first of the minimal-distance
/// targets within `range`, `None` when no target is in range.
pub open spec fn nearest_in_range(ts: Seq<Target>, origin: Vec2, range: int) -> Option<int>
    decreases ts.len(),
{
    if ts.len() == 0 {
        Option::None
    } else {
        let rest = nearest_in_range(ts.drop_first(), origin, range);
        let d0 = dist2(ts[0].pos, origin);
        if d0 <= range * range {
            match rest {
                Option::Some(j) => if dist2(ts[j + 1].pos, origin) < d0 {
                    Option::Some(j + 1)
                } else {
                    Option::Some(0)
                },
                Option::None => Option::Some(0),
            }
        } else {
            match rest {
                Option::Some(j) => Option::Some(j + 1),
                Option::None => Option::None,
            }
        }
    }
}

/// Law: the picked target is in range and no target in range is closer;
/// when nothing is picked, nothing is in range.  Distances are compared as
/// squares, which orders them identically.
pub proof fn lemma_nearest_in_range(ts: Seq<Target>, origin: Vec2, range: int)
    ensures
        nearest_in_range(ts, origin, range) is None ==> forall|k: int|
            0 <= k < ts.len() ==> dist2((#[trigger] ts[k]).pos, origin) > range * range,
        nearest_in_range(ts, origin, range) matches Option::Some(j) ==> {
            &&& 0 <= j < ts.len()
            &&& dist2(ts[j].pos, origin) <= range * range
            &&& forall|k: int|
                0 <= k < ts.len() && dist2((#[trigger] ts[k]).pos, origin) <= range * range
                    ==> dist2(ts[j].pos, origin) <= dist2(ts[k].pos, origin)
        },
    decreases ts.len(),
{
    if ts.len() > 0 {
        let rest = ts.drop_first();
        lemma_nearest_in_range(rest, origin, range);
        assert(forall|k: int| 0 <= k < rest.len() ==> #[trigger] rest[k] == ts[k + 1]);
        let r2 = range * range;
        let d0 = dist2(ts[0].pos, origin);
        match nearest_in_range(rest, origin, range) {
            Option::Some(j) => {
                assert(rest[j] == ts[j + 1]);
                let dj = dist2(ts[j + 1].pos, origin);
                let picked: int = if d0 <= r2 && !(dj < d0) {
                    0
                } else {
                    j + 1
                };
                assert(nearest_in_range(ts, origin, range) == Option::Some(picked));
                let dp = dist2(ts[picked].pos, origin);
                assert forall|k: int|
                    0 <= k < ts.len() && dist2((#[trigger] ts[k]).pos, origin) <= r2 implies dp
                    <= dist2(ts[k].pos, origin) by {
                    if k > 0 {
                        assert(rest[k - 1] == ts[k]);
                        assert(dj <= dist2(ts[k].pos, origin));
                    }
                }
            },
            Option::None => {
                if d0 <= r2 {
                    assert(nearest_in_range(ts, origin, range) == Option::Some(0int));
                    assert forall|k: int|
                        0 <= k < ts.len() && dist2((#[trigger] ts[k]).pos, origin) <= r2
                        implies d0 <= dist2(ts[k].pos, origin) by {
                        if k > 0 {
                            assert(rest[k - 1] == ts[k]);
                        }
                    }
                } else {
                    assert forall|k: int| 0 <= k < ts.len() implies dist2(
                        (#[trigger] ts[k]).pos,
                        origin,
                    ) > r2 by {
                        if k > 0 {
                            assert(rest[k - 1] == ts[k]);
                        }
                    }
                }
            },
        }
    }
}

/// Picks the nearest target within `range` of `origin`; see
/// `nearest_in_range`.
pub fn nearest_target(targets: &Vec<Target>, origin: Vec2, range: i64) -> (found: Option<usize>)
    requires
        forall|i: int| 0 <= i < targets@.len() ==> in_world((#[trigger] targets@[i]).pos),
        -2 * crate::COORD_LIMIT <= origin.x <= 2 * crate::COORD_LIMIT,
        -2 * crate::COORD_LIMIT <= origin.y <= 2 * crate::COORD_LIMIT,
        0 <= range <= crate::COORD_LIMIT,
    ensures
        match found {
            Option::Some(j) => nearest_in_range(targets@, origin, range as int)
                == Option::Some(j as int),
            Option::None => nearest_in_range(targets@, origin, range as int) is None,
        },
{
    proof {
        assert(range * range <= 10_000_000_000_000_000int) by (nonlinear_arith)
            requires 0 <= range <= 100_000_000;
    }
    let r2 = range * range;
    let ghost ts = targets@;
    let mut k = targets.len();
    let mut best: Option<usize> = Option::None;
    let mut best_d2: i64 = 0;
    while k > 0
        invariant
            k <= ts.len(),
            targets@ == ts,
            forall|i: int| 0 <= i < ts.len() ==> in_world((#[trigger] ts[i]).pos),
            -2 * crate::COORD_LIMIT <= origin.x <= 2 * crate::COORD_LIMIT,
            -2 * crate::COORD_LIMIT <= origin.y <= 2 * crate::COORD_LIMIT,
            0 <= range <= crate::COORD_LIMIT,
            r2 == range * range,
            match best {
                Option::Some(b) => {
                    &&& k <= b < ts.len()
                    &&& best_d2 == dist2(ts[b as int].pos, origin)
                    &&& nearest_in_range(ts.skip(k as int), origin, range as int)
                        == Option::Some(b - k)
                },
                Option::None => nearest_in_range(ts.skip(k as int), origin, range as int)
                    is None,
            },
        decreases k,
    {
        k = k - 1;
        let t = targets[k];
        let d2 = square_dist(t.pos, origin);
        proof {
            assert(ts.skip(k as int).drop_first() =~= ts.skip(k as int + 1));
            assert(ts.skip(k as int)[0] == ts[k as int]);
            assert(forall|j: int|
                0 <= j < ts.skip(k as int).len() ==> #[trigger] ts.skip(k as int)[j]
                    == ts[j + k]);
        }
        let take_it = d2 <= r2 && (match best {
            Option::Some(_) => d2 <= best_d2,
            Option::None => true,
        });
        if take_it {
            best = Option::Some(k);
            best_d2 = d2;
        }
    }
    proof {
        assert(ts.skip(0) =~= ts);
    }
    best
}

/// Cooldown state of every tower after a tick.
pub open spec fn ticked_towers(tws: Seq<Tower>, dt: u64) -> Seq<Tower> {
    Seq::new(
        tws.len(),
        |i: int| Tower { shooting_timer: ticked_timer(tws[i].shooting_timer, dt), ..tws[i] },
    )
}

/// The bullet a tower spawns at `t`: aimed from the firing origin at the
/// target's position at selection time.
pub open spec fn make_bullet(tw: Tower, t: Target) -> Bullet {
    let o = firing_origin(tw);
    let dx = t.pos.x - o.x;
    let dy = t.pos.y - o.y;
    Bullet {
        pos: o,
        direction: Vec2 { x: dx as i64, y: dy as i64 },
        norm: isqrt_spec(dx * dx + dy * dy) as i64,
        speed: tw.kind.bullet_speed(),
        lifetime: Lifetime { remaining_ms: crate::BULLET_LIFETIME },
    }
}

/// What one tower contributes in one tick: one bullet at the chosen target
/// when its cooldown fires and some target is in range, nothing otherwise.
/// The degenerate shot at a target exactly on the firing origin is skipped:
/// it has no direction.
pub open spec fn shot_of(tw: Tower, ts: Seq<Target>, dt: u64) -> Seq<Bullet> {
    if timer_fires(tw.shooting_timer, dt) {
        match nearest_in_range(ts, firing_origin(tw), tw.range as int) {
            Option::Some(j) => if dist2(ts[j].pos, firing_origin(tw)) > 0 {
                seq![make_bullet(tw, ts[j])]
            } else {
                Seq::empty()
            },
            Option::None => Seq::empty(),
        }
    } else {
        Seq::empty()
    }
}

/// All bullets spawned in one tick, in tower order.
pub open spec fn fired_bullets(tws: Seq<Tower>, ts: Seq<Target>, dt: u64) -> Seq<Bullet>
    decreases tws.len(),
{
    if tws.len() == 0 {
        Seq::empty()
    } else {
        fired_bullets(tws.drop_last(), ts, dt) + shot_of(tws.last(), ts, dt)
    }
}

/// Advances every tower's cooldown and fires at the nearest target in
/// range; returns the bullets spawned this tick, in tower order.  A tower
/// whose cooldown fires with no target in range simply shoots nothing; its
/// cooldown wraps either way.
pub fn tower_shooting(towers: &mut Vec<Tower>, targets: &Vec<Target>, dt: u64) -> (fired: Vec<
    Bullet,
>)
    requires
        dt <= crate::DT_LIMIT,
        forall|i: int| 0 <= i < old(towers)@.len() ==> tower_wf(#[trigger] old(towers)@[i]),
        forall|i: int| 0 <= i < targets@.len() ==> in_world((#[trigger] targets@[i]).pos),
    ensures
        final(towers)@ == ticked_towers(old(towers)@, dt),
        forall|i: int| 0 <= i < final(towers)@.len() ==> tower_wf(#[trigger] final(towers)@[i]),
        fired@ == fired_bullets(old(towers)@, targets@, dt),
        forall|i: int| 0 <= i < fired@.len() ==> bullet_wf(#[trigger] fired@[i]),
{
    let ghost orig = towers@;
    let mut fired: Vec<Bullet> = Vec::new();
    let mut i: usize = 0;
    while i < towers.len()
        invariant
            i <= towers@.len(),
            towers@.len() == orig.len(),
            dt <= crate::DT_LIMIT,
            forall|k: int| 0 <= k < orig.len() ==> tower_wf(#[trigger] orig[k]),
            forall|k: int| 0 <= k < targets@.len() ==> in_world((#[trigger] targets@[k]).pos),
            forall|k: int| 0 <= k < i ==> towers@[k] == ticked_towers(orig, dt)[k],
            forall|k: int| 0 <= k < i ==> tower_wf(#[trigger] towers@[k]),
            forall|k: int| i <= k < orig.len() ==> towers@[k] == orig[k],
            fired@ == fired_bullets(orig.take(i as int), targets@, dt),
            forall|k: int| 0 <= k < fired@.len() ==> bullet_wf(#[trigger] fired@[k]),
        decreases towers@.len() - i,
    {
        proof {
            assert(orig.take(i as int + 1).drop_last() =~= orig.take(i as int));
            assert(orig.take(i as int + 1).last() == orig[i as int]);
        }
        let mut tw = towers[i];
        proof {
            assert(tw == orig[i as int]);
            assert(tower_wf(orig[i as int]));
        }
        let fires = tw.shooting_timer.tick(dt);
        towers[i] = tw;
        if fires {
            let origin = Vec2 { x: tw.pos.x + tw.bullet_offset.x, y: tw.pos.y + tw.bullet_offset.y };
            proof {
                assert(origin == firing_origin(orig[i as int]));
            }
            let found = nearest_target(targets, origin, tw.range);
            match found {
                Option::Some(j) => {
                    proof {
                        lemma_nearest_in_range(targets@, origin, tw.range as int);
                    }
                    let t = targets[j];
                    let d2 = square_dist(t.pos, origin);
                    if d2 > 0 {
                        let dx = t.pos.x - origin.x;
                        let dy = t.pos.y - origin.y;
                        proof {
                            assert(d2 == dx * dx + dy * dy);
                            lemma_axis_within_dist(dx as int, dy as int);
                            lemma_axis_within_dist(dy as int, dx as int);
                            lemma_isqrt_bounds(d2 as int);
                            assert(dx * dx <= 90_000_000_000_000_000int
                                && dy * dy <= 90_000_000_000_000_000int) by (nonlinear_arith)
                                requires
                                    -300_000_000 <= dx <= 300_000_000,
                                    -300_000_000 <= dy <= 300_000_000,
                            ;
                            assert(isqrt_spec(d2 as int) <= 600_000_000int) by {
                                let r = isqrt_spec(d2 as int);
                                if r > 600_000_000int {
                                    assert(r * r > 180_000_000_000_000_000int)
                                        by (nonlinear_arith)
                                        requires r > 600_000_000int;
                                }
                            }
                            assert(isqrt_spec(d2 as int) >= 1) by (nonlinear_arith)
                                requires
                                    isqrt_spec(d2 as int) >= 0,
                                    d2 > 0,
                                    d2 < (isqrt_spec(d2 as int) + 1) * (isqrt_spec(d2 as int)
                                        + 1),
                            ;
                        }
                        let norm = isqrt(d2 as u64) as i64;
                        let b = tw.kind.get_bullet(origin, Vec2 { x: dx, y: dy }, norm);
                        proof {
                            assert(b == make_bullet(orig[i as int], targets@[j as int]));
                        }
                        fired.push(b);
                    }
                },
                Option::None => {},
            }
        }
        i = i + 1;
        proof {
            assert(fired@ == fired_bullets(orig.take(i as int), targets@, dt));
        }
    }
    proof {
        assert(orig.take(orig.len() as int) =~= orig);
        assert(towers@ =~= ticked_towers(orig, dt));
    }
    fired
}

/// One shop button with its price and whether the player can afford it.
#[derive(Clone, Copy, Debug, PartialEq, Eq, Structural)]
pub struct TowerButtonState {
    pub cost: u64,
    pub affordable: bool,
}

/// Refreshes every shop button's affordability from the player's money.
pub fn grey_tower_buttons(buttons: &mut Vec<TowerButtonState>, player: &Player)
    ensures
        final(buttons)@.len() == old(buttons)@.len(),
        forall|i: int|
            0 <= i < final(buttons)@.len() ==> #[trigger] final(buttons)@[i] == (TowerButtonState {
                cost: old(buttons)@[i].cost,
                affordable: player.money >= old(buttons)@[i].cost,
            }),
{
    let ghost orig = buttons@;
    let mut i: usize = 0;
    while i < buttons.len()
        invariant
            i <= buttons@.len(),
            buttons@.len() == orig.len(),
            forall|k: int|
                0 <= k < i ==> #[trigger] buttons@[k] == (TowerButtonState {
                    cost: orig[k].cost,
                    affordable: player.money >= orig[k].cost,
                }),
            forall|k: int| i <= k < orig.len() ==> buttons@[k] == orig[k],
        decreases buttons@.len() - i,
    {
        let mut button = buttons[i];
        button.affordable = player.money >= button.cost;
        buttons[i] = button;
        i = i + 1;
    }
}

/// The purchase rule of the shop: a click builds a tower at the selected
/// spot and deducts its price exactly when the player can afford it, and
/// does nothing otherwise.
pub fn tower_button_clicked(
    player: &mut Player,
    button: &TowerButtonState,
    tower_type: TowerType,
    position: Vec2,
) -> (built: Option<Tower>)
    requires
        in_world(position),
    ensures
        old(player).money >= button.cost ==> {
            &&& final(player).money == old(player).money - button.cost
            &&& built == Option::Some(tower_from(tower_type, position))
        },
        old(player).money < button.cost ==> {
            &&& final(player).money == old(player).money
            &&& built is None
        },
        final(player).health == old(player).health,
{
    if player.money >= button.cost {
        player.money = player.money - button.cost;
        Option::Some(spawn_tower(position, tower_type))
    } else {
        Option::None
    }
}

} // verus!
