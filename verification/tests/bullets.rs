//! Bullet flight, lifetime expiry and collision resolution, and the whole
//! world tick that ties kills to the economy.

use tower_defense::Bullet;
use tower_defense::Health;
use tower_defense::Lifetime;
use tower_defense::Target;
use tower_defense::TargetPath;
use tower_defense::Vec2;
use tower_defense::World;
use tower_defense::bullet_collision_detection;
use tower_defense::move_bullets;
use tower_defense::spawn_basic_scene;

fn bullet_at(pos: Vec2) -> Bullet {
    Bullet {
        pos,
        direction: Vec2 { x: 1000, y: 0 },
        norm: 1000,
        speed: 3500,
        lifetime: Lifetime { remaining_ms: 10_000 },
    }
}

fn standing_target(pos: Vec2, health: i64) -> Target {
    Target {
        speed: 0,
        path_index: 0,
        pos,
        heading: Vec2 { x: 0, y: 0 },
        health: Health { value: health },
    }
}

#[test]
fn bullet_moves_along_its_direction() {
    let mut bullets = vec![bullet_at(Vec2 { x: 0, y: 0 })];
    move_bullets(&mut bullets, 100);
    // 3.5 units per second for 0.1 s is 350 milli-units, along +x.
    assert_eq!(bullets[0].pos, Vec2 { x: 350, y: 0 });
    assert_eq!(bullets[0].lifetime.remaining_ms, 9_900);
}

#[test]
fn bullet_expires_without_damage() {
    // Lifetime 10 s, ticks of 1 s: alive through nine ticks, gone on the
    // tenth, and nobody is hurt by the expiry.
    let mut bullets = vec![bullet_at(Vec2 { x: 0, y: 0 })];
    let mut targets = vec![standing_target(Vec2 { x: 90_000, y: 0 }, 3)];
    for _ in 0..9 {
        move_bullets(&mut bullets, 1000);
        bullet_collision_detection(&mut targets, &mut bullets);
        assert_eq!(bullets.len(), 1);
        assert_eq!(targets[0].health.value, 3);
    }
    move_bullets(&mut bullets, 1000);
    assert!(bullets.is_empty(), "destroyed after exactly its lifetime");
    assert_eq!(targets[0].health.value, 3);
}

#[test]
fn bullet_damages_first_target_only() {
    // One bullet overlapping two targets is consumed by the first one in
    // order: no pass-through, no splash.
    let mut bullets = vec![bullet_at(Vec2 { x: 0, y: 0 })];
    let mut targets = vec![
        standing_target(Vec2 { x: 100, y: 0 }, 3),
        standing_target(Vec2 { x: 200, y: 0 }, 3),
    ];
    bullet_collision_detection(&mut targets, &mut bullets);
    assert_eq!(targets[0].health.value, 2);
    assert_eq!(targets[1].health.value, 3);
    assert!(bullets.is_empty(), "consumed on first contact");
}

#[test]
fn two_bullets_stack_their_damage() {
    let mut bullets = vec![bullet_at(Vec2 { x: 0, y: 0 }), bullet_at(Vec2 { x: 10, y: 0 })];
    let mut targets = vec![standing_target(Vec2 { x: 100, y: 0 }, 3)];
    bullet_collision_detection(&mut targets, &mut bullets);
    assert_eq!(targets[0].health.value, 1);
    assert!(bullets.is_empty());
}

#[test]
fn distant_bullet_hits_nothing() {
    let mut bullets = vec![bullet_at(Vec2 { x: 0, y: 0 })];
    let mut targets = vec![standing_target(Vec2 { x: 501, y: 0 }, 3)];
    bullet_collision_detection(&mut targets, &mut bullets);
    assert_eq!(targets[0].health.value, 3, "just outside the hit radius");
    assert_eq!(bullets.len(), 1);

    let mut targets = vec![standing_target(Vec2 { x: 500, y: 0 }, 3)];
    bullet_collision_detection(&mut targets, &mut bullets);
    assert_eq!(targets[0].health.value, 2, "on the hit radius counts as contact");
    assert!(bullets.is_empty());
}

#[test]
fn kill_pays_on_the_following_tick() {
    // A bullet kills a target during one tick's collision phase; the death
    // check of the next tick records the kill and pays the reward.
    let mut world = World::new(TargetPath { waypoints: vec![Vec2 { x: 50_000, y: 0 }] });
    world.targets.push(standing_target(Vec2 { x: 400, y: 0 }, 1));
    world.bullets.push(bullet_at(Vec2 { x: 50, y: 0 }));
    world.tick(100);
    assert_eq!(world.targets.len(), 1);
    assert_eq!(world.targets[0].health.value, 0);
    assert!(world.bullets.is_empty());
    assert_eq!(world.player.money, 100);
    world.tick(100);
    assert!(world.targets.is_empty());
    assert_eq!(world.player.money, 110, "one kill pays the documented reward");
    assert_eq!(world.player.health, 10);
}

#[test]
fn world_game_over_on_overrun() {
    // Twelve targets finish the route at once: health is clamped at zero,
    // not driven negative, and the game-over condition turns on.
    let mut world = World::new(TargetPath { waypoints: vec![Vec2 { x: 1000, y: 0 }] });
    for _ in 0..12 {
        let mut done = standing_target(Vec2 { x: 1000, y: 0 }, 3);
        done.path_index = 1;
        world.targets.push(done);
    }
    assert!(!world.game_over());
    world.tick(100);
    assert!(world.targets.is_empty());
    assert_eq!(world.player.health, 0);
    assert!(world.game_over());
}

#[test]
fn spawn_basic_scene_layout() {
    let world = spawn_basic_scene();
    assert_eq!(world.path.waypoints.len(), 3);
    assert_eq!(world.path.waypoints[0], Vec2 { x: 6000, y: 2000 });
    assert_eq!(world.path.waypoints[1], Vec2 { x: 6000, y: 6000 });
    assert_eq!(world.path.waypoints[2], Vec2 { x: 9000, y: 9000 });
    assert_eq!(world.targets.len(), 24);
    assert_eq!(world.targets[0].pos, Vec2 { x: -2000, y: 2500 });
    assert_eq!(world.targets[23].pos, Vec2 { x: -48_000, y: 2500 });
    for target in &world.targets {
        assert_eq!(target.speed, 450);
        assert_eq!(target.path_index, 0);
        assert_eq!(target.health.value, 3);
    }
    assert!(world.towers.is_empty());
    assert!(world.bullets.is_empty());
    assert_eq!(world.player.money, 100);
    assert_eq!(world.player.health, 10);
}
