//! Tower targeting and firing: range, nearest-target selection and the
//! repeating cooldown.

use tower_defense::CooldownTimer;
use tower_defense::Health;
use tower_defense::Target;
use tower_defense::TowerType;
use tower_defense::Vec2;
use tower_defense::spawn_tower;
use tower_defense::tower_shooting;

fn standing_target(pos: Vec2) -> Target {
    Target {
        speed: 0,
        path_index: 0,
        pos,
        heading: Vec2 { x: 0, y: 0 },
        health: Health { value: 3 },
    }
}

#[test]
fn cooldown_timer_wraps() {
    let mut timer = CooldownTimer { duration: 500, elapsed: 0 };
    assert!(timer.tick(600));
    assert_eq!(timer.elapsed, 100);
    assert!(!timer.tick(300));
    assert_eq!(timer.elapsed, 400);
    assert!(timer.tick(100));
    assert_eq!(timer.elapsed, 0);
}

#[test]
fn tower_picks_nearest_target() {
    // Two candidates at distances 2.0 and 4.0 with range 4.5: the tower
    // must pick the one at 2.0.
    let mut towers = vec![spawn_tower(Vec2 { x: 0, y: 0 }, TowerType::Tomato)];
    let targets = vec![
        standing_target(Vec2 { x: 0, y: 4000 }),
        standing_target(Vec2 { x: 2000, y: 0 }),
    ];
    let fired = tower_shooting(&mut towers, &targets, 500);
    assert_eq!(fired.len(), 1);
    let bullet = &fired[0];
    assert_eq!(bullet.pos, Vec2 { x: 0, y: 0 }, "fired from the tower's origin");
    assert_eq!(bullet.direction, Vec2 { x: 2000, y: 0 }, "aimed at the nearer target");
    assert_eq!(bullet.norm, 2000);
    assert_eq!(bullet.speed, 3500);
    assert_eq!(bullet.lifetime.remaining_ms, 10_000);
}

#[test]
fn tower_fires_only_within_range() {
    // 4.6 world units is outside the 4.5 range: no bullet, ever.
    let mut towers = vec![spawn_tower(Vec2 { x: 0, y: 0 }, TowerType::Tomato)];
    let targets = vec![standing_target(Vec2 { x: 4600, y: 0 })];
    for _ in 0..40 {
        let fired = tower_shooting(&mut towers, &targets, 100);
        assert!(fired.is_empty());
    }
    // A target on the range boundary is within it.
    let targets = vec![standing_target(Vec2 { x: 4500, y: 0 })];
    let fired = tower_shooting(&mut towers, &targets, 500);
    assert_eq!(fired.len(), 1);
}

#[test]
fn tower_fires_after_cooldown() {
    // Cooldown 0.5 s, ticks of 0.1 s: the first bullet leaves on the fifth
    // tick, the next one five ticks later.
    let mut towers = vec![spawn_tower(Vec2 { x: 0, y: 0 }, TowerType::Tomato)];
    let targets = vec![standing_target(Vec2 { x: 2000, y: 0 })];
    let mut shots_at: Vec<usize> = Vec::new();
    for tick_no in 1..=20 {
        let fired = tower_shooting(&mut towers, &targets, 100);
        assert!(fired.len() <= 1);
        if fired.len() == 1 {
            shots_at.push(tick_no);
        }
    }
    assert_eq!(shots_at, vec![5, 10, 15, 20]);
}

#[test]
fn tower_with_no_candidates_spawns_nothing() {
    let mut towers = vec![spawn_tower(Vec2 { x: 0, y: 0 }, TowerType::Potato)];
    let targets: Vec<Target> = Vec::new();
    for _ in 0..30 {
        let fired = tower_shooting(&mut towers, &targets, 700);
        assert!(fired.is_empty());
    }
}

#[test]
fn bullet_stats_follow_the_table() {
    let targets = vec![standing_target(Vec2 { x: 1000, y: 0 })];
    let mut tomato = vec![spawn_tower(Vec2 { x: 0, y: 0 }, TowerType::Tomato)];
    let mut potato = vec![spawn_tower(Vec2 { x: 0, y: 0 }, TowerType::Potato)];
    let mut cabbage = vec![spawn_tower(Vec2 { x: 0, y: 0 }, TowerType::Cabbage)];
    assert_eq!(tower_shooting(&mut tomato, &targets, 500)[0].speed, 3500);
    assert_eq!(tower_shooting(&mut potato, &targets, 700)[0].speed, 6500);
    assert_eq!(tower_shooting(&mut cabbage, &targets, 800)[0].speed, 2500);
    assert_eq!(tomato[0].shooting_timer.duration, 500);
    assert_eq!(potato[0].shooting_timer.duration, 700);
    assert_eq!(cabbage[0].shooting_timer.duration, 800);
}
