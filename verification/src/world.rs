//! The simulation world and its tick: all entities plus the player, and the
//! fixed phase order that advances them by one step of game time.

use crate::bullet::Bullet;
use crate::bullet::bullet_collision_detection;
use crate::bullet::bullet_wf;
use crate::bullet::collided_targets;
use crate::bullet::move_bullets;
use crate::bullet::moved_bullets;
use crate::bullet::surviving_bullets;
use crate::geom::Vec2;
use crate::geom::in_world;
use crate::player::Player;
use crate::player::give_money_on_kill;
use crate::player::health_after_breaches;
use crate::player::is_game_over;
use crate::player::spawn_player;
use crate::target::Health;
use crate::target::Target;
use crate::target::TargetPath;
use crate::target::breach_survivors;
use crate::target::death_survivors;
use crate::target::hurt_player;
use crate::target::lemma_filter_elements;
use crate::target::move_targets;
use crate::target::moved_targets;
use crate::target::path_wf;
use crate::target::target_death;
use crate::target::target_wf;
use crate::tower::Tower;
use crate::tower::fired_bullets;
use crate::tower::ticked_towers;
use crate::tower::tower_shooting;
use crate::tower::tower_wf;
use vstd::prelude::*;

verus! {

/// Everything the simulation owns: the route, the live entities and the
/// player.
pub struct World {
    pub path: TargetPath,
    pub targets: Vec<Target>,
    pub towers: Vec<Tower>,
    pub bullets: Vec<Bullet>,
    pub player: Player,
}

pub open spec fn world_wf(w: World) -> bool {
    &&& path_wf(w.path)
    &&& forall|i: int|
        0 <= i < w.targets@.len() ==> target_wf(
            #[trigger] w.targets@[i],
            w.path.waypoints@.len() as int,
        )
    &&& forall|i: int| 0 <= i < w.towers@.len() ==> tower_wf(#[trigger] w.towers@[i])
    &&& forall|i: int| 0 <= i < w.bullets@.len() ==> bullet_wf(#[trigger] w.bullets@[i])
}

impl World {
    /// An empty world on the given route, with a fresh player.
    pub fn new(path: TargetPath) -> (w: World)
        requires
            path_wf(path),
        ensures
            world_wf(w),
            w.path.waypoints@ == path.waypoints@,
            w.targets@.len() == 0,
            w.towers@.len() == 0,
            w.bullets@.len() == 0,
            w.player.money == crate::START_MONEY,
            w.player.health == crate::START_HEALTH,
    {
        World {
            path,
            targets: Vec::new(),
            towers: Vec::new(),
            bullets: Vec::new(),
            player: spawn_player(),
        }
    }

    /// Whether the terminal game-over condition holds.
    pub fn game_over(&self) -> (over: bool)
        ensures
            over == (self.player.health == 0),
    {
        is_game_over(&self.player)
    }

    /// One tick of `dt` milliseconds, phases in their fixed order:
    /// movement, breach check, death check, firing, bullet motion and
    /// collision, economy.  Bullets fired this tick take off on the next
    /// one: spawns are buffered past the motion phase, as deferred entity
    /// creation is in the scheduler this models.
    pub fn tick(&mut self, dt: u64)
        requires
            world_wf(*old(self)),
            dt <= crate::DT_LIMIT,
            old(self).player.money + crate::KILL_REWARD * old(self).targets@.len() <= u64::MAX,
        ensures
            world_wf(*final(self)),
            final(self).path.waypoints@ == old(self).path.waypoints@,
            ({
                let path = old(self).path.waypoints@;
                let t1 = moved_targets(old(self).targets@, path, dt);
                let t2 = breach_survivors(t1, path.len() as int);
                let t3 = death_survivors(t2);
                let b1 = moved_bullets(old(self).bullets@, dt);
                &&& final(self).targets@ == collided_targets(t3, b1)
                &&& final(self).towers@ == ticked_towers(old(self).towers@, dt)
                &&& final(self).bullets@ == surviving_bullets(t3, b1) + fired_bullets(
                    old(self).towers@,
                    t3,
                    dt,
                )
                &&& final(self).player.health as int == health_after_breaches(
                    old(self).player.health as int,
                    t1.len() - t2.len(),
                )
                &&& final(self).player.money as int == old(self).player.money + (
                crate::KILL_REWARD as int) * (t2.len() - t3.len())
            }),
    {
        let ghost path = self.path.waypoints@;
        let ghost plen = path.len() as int;
        let ghost wf_target = |t: Target| target_wf(t, plen);
        move_targets(&mut self.targets, &self.path, dt);
        let ghost t1 = self.targets@;
        hurt_player(&mut self.targets, &self.path, &mut self.player);
        let ghost t2 = self.targets@;
        proof {
            lemma_filter_elements(t1, |t: Target| (t.path_index as int) < plen, wf_target);
            assert(forall|i: int| 0 <= i < t2.len() ==> wf_target(#[trigger] t2[i]));
        }
        let death_events = target_death(&mut self.targets);
        let ghost t3 = self.targets@;
        proof {
            lemma_filter_elements(t2, |t: Target| t.health.value > 0, wf_target);
            assert(forall|i: int| 0 <= i < t3.len() ==> wf_target(#[trigger] t3[i]));
            assert(forall|i: int| 0 <= i < t3.len() ==> in_world((#[trigger] t3[i]).pos));
            broadcast use vstd::seq_lib::group_filter_ensures;

            assert(t3.len() <= t2.len() <= t1.len());
        }
        let mut fired = tower_shooting(&mut self.towers, &self.targets, dt);
        move_bullets(&mut self.bullets, dt);
        bullet_collision_detection(&mut self.targets, &mut self.bullets);
        self.bullets.append(&mut fired);
        give_money_on_kill(&mut self.player, &death_events);
        proof {
            let t4 = self.targets@;
            assert(forall|i: int|
                0 <= i < t4.len() ==> (#[trigger] t4[i]).pos == t3[i].pos && t4[i].speed
                    == t3[i].speed && t4[i].path_index == t3[i].path_index);
            assert(forall|i: int| 0 <= i < t4.len() ==> target_wf(#[trigger] t4[i], plen));
        }
    }
}

/// The initial gameplay scene: the fixed three-waypoint route, a marching
/// line of two dozen targets approaching from the left, no towers yet, and
/// a fresh player.
pub fn spawn_basic_scene() -> (w: World)
    ensures
        world_wf(w),
        w.path.waypoints@ == seq![
            Vec2 { x: 6000, y: 2000 },
            Vec2 { x: 6000, y: 6000 },
            Vec2 { x: 9000, y: 9000 },
        ],
        w.targets@.len() == 24,
        forall|i: int|
            0 <= i < 24 ==> #[trigger] w.targets@[i] == (Target {
                speed: 450,
                path_index: 0,
                pos: Vec2 { x: (-2000 * (i + 1)) as i64, y: 2500 },
                heading: Vec2 { x: 0, y: 0 },
                health: Health { value: 3 },
            }),
        w.towers@.len() == 0,
        w.bullets@.len() == 0,
        w.player.money == crate::START_MONEY,
        w.player.health == crate::START_HEALTH,
{
    let mut waypoints: Vec<Vec2> = Vec::new();
    waypoints.push(Vec2 { x: 6000, y: 2000 });
    waypoints.push(Vec2 { x: 6000, y: 6000 });
    waypoints.push(Vec2 { x: 9000, y: 9000 });
    proof {
        assert(waypoints@ =~= seq![
            Vec2 { x: 6000, y: 2000 },
            Vec2 { x: 6000, y: 6000 },
            Vec2 { x: 9000, y: 9000 },
        ]);
    }
    let mut w = World::new(TargetPath { waypoints });
    let mut i: u64 = 0;
    while i < 24
        invariant
            i <= 24,
            world_wf(w),
            w.path.waypoints@ == seq![
                Vec2 { x: 6000, y: 2000 },
                Vec2 { x: 6000, y: 6000 },
                Vec2 { x: 9000, y: 9000 },
            ],
            w.targets@.len() == i,
            forall|k: int|
                0 <= k < i ==> #[trigger] w.targets@[k] == (Target {
                    speed: 450,
                    path_index: 0,
                    pos: Vec2 { x: (-2000 * (k + 1)) as i64, y: 2500 },
                    heading: Vec2 { x: 0, y: 0 },
                    health: Health { value: 3 },
                }),
            w.towers@.len() == 0,
            w.bullets@.len() == 0,
            w.player.money == crate::START_MONEY,
            w.player.health == crate::START_HEALTH,
        decreases 24 - i,
    {
        let x: i64 = -2000 * (i as i64 + 1);
        w.targets.push(
            Target {
                speed: 450,
                path_index: 0,
                pos: Vec2 { x, y: 2500 },
                heading: Vec2 { x: 0, y: 0 },
                health: Health { value: 3 },
            },
        );
        i = i + 1;
    }
    w
}

} // verus!
