//! Path-following behaviour: approach, arrival, completion and the breach
//! that completion causes.

use tower_defense::Health;
use tower_defense::Target;
use tower_defense::TargetPath;
use tower_defense::Vec2;
use tower_defense::World;
use tower_defense::isqrt;
use tower_defense::move_targets;

fn route() -> TargetPath {
    TargetPath {
        waypoints: vec![
            Vec2 { x: 6000, y: 2000 },
            Vec2 { x: 6000, y: 6000 },
            Vec2 { x: 9000, y: 9000 },
        ],
    }
}

fn walker(speed: i64) -> Target {
    Target {
        speed,
        path_index: 0,
        pos: Vec2 { x: 0, y: 0 },
        heading: Vec2 { x: 0, y: 0 },
        health: Health { value: 3 },
    }
}

fn square_distance(a: Vec2, b: Vec2) -> i64 {
    (a.x - b.x) * (a.x - b.x) + (a.y - b.y) * (a.y - b.y)
}

#[test]
fn moving_target_approaches_waypoint() {
    let path = route();
    let mut targets = vec![walker(450)];
    let before = square_distance(targets[0].pos, path.waypoints[0]);
    move_targets(&mut targets, &path, 100);
    let after = square_distance(targets[0].pos, path.waypoints[0]);
    assert_eq!(targets[0].path_index, 0);
    assert!(after < before);
    // The target now faces its waypoint.
    assert_eq!(targets[0].heading, Vec2 { x: 6000, y: 2000 });
}

#[test]
fn arrival_advances_index_without_moving() {
    let path = route();
    let mut targets = vec![walker(450)];
    // Start one milli-unit short of the first waypoint.
    targets[0].pos = Vec2 { x: 5999, y: 2000 };
    move_targets(&mut targets, &path, 100);
    assert_eq!(targets[0].path_index, 1);
    assert_eq!(targets[0].pos, Vec2 { x: 5999, y: 2000 });
}

#[test]
fn zero_speed_target_never_moves() {
    let path = route();
    let mut on_waypoint = walker(0);
    on_waypoint.pos = path.waypoints[0];
    let mut targets = vec![walker(0), on_waypoint];
    for _ in 0..200 {
        move_targets(&mut targets, &path, 100);
        assert_eq!(targets[0].path_index, 0);
        assert_eq!(targets[0].pos, Vec2 { x: 0, y: 0 });
        // Frozen even when standing exactly on its waypoint.
        assert_eq!(targets[1].path_index, 0);
        assert_eq!(targets[1].pos, Vec2 { x: 6000, y: 2000 });
    }
}

#[test]
fn zero_speed_target_never_breaches() {
    // A frozen target parked on a waypoint never completes the route, so
    // the player is never hurt by it.
    let mut world = World::new(route());
    let mut frozen = walker(0);
    frozen.pos = world.path.waypoints[0];
    world.targets.push(frozen);
    for _ in 0..300 {
        world.tick(100);
        assert_eq!(world.targets.len(), 1);
        assert_eq!(world.targets[0].path_index, 0);
        assert_eq!(world.player.health, 10);
    }
}

#[test]
fn target_path_scenario() {
    // One target walks the whole route: the index runs 0 -> 1 -> 2 -> 3,
    // exactly one breach fires at the end, and none earlier.
    let mut world = World::new(route());
    world.targets.push(walker(450));
    let mut last_index = 0;
    let mut done = false;
    for _ in 0..2000 {
        world.tick(100);
        if world.targets.is_empty() {
            done = true;
            break;
        }
        let index = world.targets[0].path_index;
        assert!(index >= last_index, "path index went backward");
        assert!(index < 3, "a target past the route end must be despawned");
        assert_eq!(world.player.health, 10, "no breach before the route ends");
        last_index = index;
    }
    assert!(done, "the target never finished the route");
    assert_eq!(last_index, 2, "the index must have walked through 2 before completion");
    assert_eq!(world.player.health, 9, "exactly one breach");
    assert_eq!(world.player.money, 100, "a breach pays nothing");
    // Nothing more happens once the target is gone.
    for _ in 0..50 {
        world.tick(100);
        assert_eq!(world.player.health, 9);
    }
}

#[test]
fn integer_square_root() {
    assert_eq!(isqrt(0), 0);
    assert_eq!(isqrt(1), 1);
    assert_eq!(isqrt(2), 1);
    assert_eq!(isqrt(3), 1);
    assert_eq!(isqrt(4), 2);
    assert_eq!(isqrt(24), 4);
    assert_eq!(isqrt(25), 5);
    assert_eq!(isqrt(40_000_000), 6324);
    assert_eq!(isqrt(10_000_000_000_000_000), 100_000_000);
    assert_eq!(isqrt(9_223_372_036_854_775_807), 3_037_000_499);
}
