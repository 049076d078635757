//! Core rule engine of a small tower-defense simulation.
//!
//! Mobile targets follow a fixed waypoint route, towers fire bullets at the
//! nearest target in range, bullets damage the first target they touch, and a
//! player economy reacts to kills and to targets that breach the end of the
//! route.  All geometry is done in fixed-point milli-units (1000 units per
//! world unit) and all times in milliseconds, so every rule is plain integer
//! arithmetic.
//!
//! Rendering, scene loading, input handling and the entity scheduler are
//! external collaborators; this crate holds only the simulation rules.

use vstd::prelude::*;

mod bullet;
mod geom;
mod player;
mod target;
mod tower;
mod world;

pub use bullet::Bullet;
pub use bullet::Lifetime;
pub use bullet::bullet_collision_detection;
pub use bullet::move_bullets;
pub use geom::Vec2;
pub use geom::isqrt;
pub use player::Player;
pub use player::give_money_on_kill;
pub use player::is_game_over;
pub use player::spawn_player;
pub use target::Health;
pub use target::Target;
pub use target::TargetDeathEvent;
pub use target::TargetPath;
pub use target::hurt_player;
pub use target::move_targets;
pub use target::target_death;
pub use tower::CooldownTimer;
pub use tower::Tower;
pub use tower::TowerButtonState;
pub use tower::TowerType;
pub use tower::grey_tower_buttons;
pub use tower::spawn_tower;
pub use tower::tower_button_clicked;
pub use tower::tower_shooting;
pub use world::World;
pub use world::spawn_basic_scene;

verus! {

/// Fixed-point scale: coordinates and ranges carry 1000 milli-units per
/// world unit, speeds 1000 milli-units per second.
pub const MILLI: i64 = 1000;

/// Largest coordinate magnitude of any waypoint, target or tower.
pub const COORD_LIMIT: i64 = 100_000_000;

/// Largest speed of a target or bullet, in milli-units per second.
pub const SPEED_LIMIT: i64 = 1_000_000;

/// Longest single tick, in milliseconds.
pub const DT_LIMIT: u64 = 10_000;

/// Longest bullet lifetime, in milliseconds.
pub const LIFETIME_LIMIT: u64 = 600_000;

/// Lifetime of every freshly fired bullet, in milliseconds.
pub const BULLET_LIFETIME: u64 = 10_000;

/// Longest tower cooldown, in milliseconds.
pub const COOLDOWN_LIMIT: u64 = 3_600_000;

/// A bullet position `p` with speed `s` and remaining lifetime `l` always
/// satisfies `1000*|p| + s*l <= TRAVEL_BUDGET` on each axis: the distance a
/// bullet can still fly is paid for by the lifetime it has left, so bullet
/// coordinates stay below `TRAVEL_BUDGET / 1000`.
pub const TRAVEL_BUDGET: i64 = 800_000_000_000;

/// Money granted to the player for each killed target.
pub const KILL_REWARD: u64 = 10;

/// Money the player starts with.
pub const START_MONEY: u64 = 100;

/// Health the player starts with.
pub const START_HEALTH: u64 = 10;

/// A bullet hits a target when their squared distance is at most
/// `HIT_RADIUS * HIT_RADIUS`; this is the geometric model of the colliders.
pub const HIT_RADIUS: i64 = 500;

} // verus!
