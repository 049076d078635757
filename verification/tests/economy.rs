//! The player economy: breach damage with its floor at zero, kill rewards,
//! the game-over condition and the tower shop.

use tower_defense::Health;
use tower_defense::Player;
use tower_defense::Target;
use tower_defense::TargetPath;
use tower_defense::TowerButtonState;
use tower_defense::TowerType;
use tower_defense::Vec2;
use tower_defense::give_money_on_kill;
use tower_defense::grey_tower_buttons;
use tower_defense::hurt_player;
use tower_defense::is_game_over;
use tower_defense::spawn_player;
use tower_defense::target_death;
use tower_defense::tower_button_clicked;

fn short_route() -> TargetPath {
    TargetPath { waypoints: vec![Vec2 { x: 1000, y: 0 }] }
}

fn finished_target() -> Target {
    Target {
        speed: 450,
        path_index: 1,
        pos: Vec2 { x: 1000, y: 0 },
        heading: Vec2 { x: 0, y: 0 },
        health: Health { value: 3 },
    }
}

fn dead_target() -> Target {
    Target {
        speed: 450,
        path_index: 0,
        pos: Vec2 { x: 0, y: 0 },
        heading: Vec2 { x: 0, y: 0 },
        health: Health { value: 0 },
    }
}

#[test]
fn breach_costs_one_health_each() {
    let path = short_route();
    let mut player = spawn_player();
    let mut targets = vec![finished_target(), finished_target(), finished_target()];
    hurt_player(&mut targets, &path, &mut player);
    assert_eq!(player.health, 7);
    assert_eq!(player.money, 100);
    assert!(targets.is_empty());
}

#[test]
fn player_health_clamps_at_zero() {
    let path = short_route();
    let mut player = spawn_player();
    let mut targets: Vec<Target> = (0..15).map(|_| finished_target()).collect();
    hurt_player(&mut targets, &path, &mut player);
    assert_eq!(player.health, 0, "health after 15 breaches from 10 is max(0, 10 - 15)");
    assert!(is_game_over(&player));
    // Further breaches have no further effect.
    let mut more: Vec<Target> = vec![finished_target()];
    hurt_player(&mut more, &path, &mut player);
    assert_eq!(player.health, 0);
}

#[test]
fn breach_keeps_unfinished_targets() {
    let path = short_route();
    let mut player = spawn_player();
    let mut walking = finished_target();
    walking.path_index = 0;
    let mut targets = vec![finished_target(), walking, finished_target()];
    hurt_player(&mut targets, &path, &mut player);
    assert_eq!(targets.len(), 1);
    assert_eq!(targets[0].path_index, 0);
    assert_eq!(player.health, 8);
}

#[test]
fn kill_reward_pays_ten_per_event() {
    let mut player = spawn_player();
    let mut targets = vec![dead_target(), finished_target(), dead_target(), dead_target()];
    let events = target_death(&mut targets);
    assert_eq!(events.len(), 3);
    assert_eq!(targets.len(), 1, "live targets stay");
    give_money_on_kill(&mut player, &events);
    assert_eq!(player.money, 130, "money after 3 kills from 100 is 100 + 10*3");
    assert_eq!(player.health, 10);
}

#[test]
fn game_over_is_exactly_health_zero() {
    let mut player = spawn_player();
    assert!(!is_game_over(&player));
    player.health = 1;
    assert!(!is_game_over(&player));
    player.health = 0;
    assert!(is_game_over(&player));
}

#[test]
fn tower_purchase_deducts_cost() {
    let mut player = spawn_player();
    let button = TowerButtonState { cost: TowerType::Tomato.cost(), affordable: true };
    let built = tower_button_clicked(
        &mut player,
        &button,
        TowerType::Tomato,
        Vec2 { x: 4000, y: 2500 },
    );
    let tower = built.expect("an affordable click builds a tower");
    assert_eq!(player.money, 50);
    assert_eq!(tower.pos, Vec2 { x: 4000, y: 2500 });
    assert_eq!(tower.kind, TowerType::Tomato);
    assert_eq!(tower.range, 4500);
    assert_eq!(tower.shooting_timer.duration, 500);
    assert_eq!(tower.shooting_timer.elapsed, 0);

    // 50 left: the cabbage tower at 110 is out of reach.
    let button = TowerButtonState { cost: TowerType::Cabbage.cost(), affordable: false };
    let built = tower_button_clicked(
        &mut player,
        &button,
        TowerType::Cabbage,
        Vec2 { x: 0, y: 0 },
    );
    assert!(built.is_none());
    assert_eq!(player.money, 50);
}

#[test]
fn shop_prices_follow_the_table() {
    assert_eq!(TowerType::Tomato.cost(), 50);
    assert_eq!(TowerType::Potato.cost(), 80);
    assert_eq!(TowerType::Cabbage.cost(), 110);
}

#[test]
fn grey_tower_buttons_affordability() {
    let player = Player { money: 100, health: 10 };
    let mut buttons = vec![
        TowerButtonState { cost: 50, affordable: false },
        TowerButtonState { cost: 80, affordable: false },
        TowerButtonState { cost: 110, affordable: true },
    ];
    grey_tower_buttons(&mut buttons, &player);
    assert!(buttons[0].affordable);
    assert!(buttons[1].affordable);
    assert!(!buttons[2].affordable);
    assert_eq!(buttons[2].cost, 110);
}
