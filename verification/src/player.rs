//! The player's economy: money earned from kills, health lost to breaches,
//! and the terminal game-over condition.

use crate::target::TargetDeathEvent;
use vstd::prelude::*;

verus! {

/// The single player of a simulation run.
#[derive(Clone, Copy, Debug, PartialEq, Eq, Structural)]
pub struct Player {
    pub money: u64,
    pub health: u64,
}

/// The player as it exists when gameplay starts.
pub fn spawn_player() -> (player: Player)
    ensures
        player.money == crate::START_MONEY,
        player.health == crate::START_HEALTH,
{
    Player { money: crate::START_MONEY, health: crate::START_HEALTH }
}

/// Health left after `n` breaches starting from `h`: one point per breach,
/// clamped at a floor of zero.
pub open spec fn health_after_breaches(h: int, n: int) -> int {
    if n >= h {
        0
    } else {
        h - n
    }
}

/// One breach event: the player loses one health point unless already at zero.
pub open spec fn breach_once(h: int) -> int {
    if h > 0 {
        h - 1
    } else {
        h
    }
}

/// `n` breach events applied one at a time.
pub open spec fn breaches_applied(h: int, n: int) -> int
    decreases n,
{
    if n <= 0 {
        h
    } else {
        breach_once(breaches_applied(h, n - 1))
    }
}

/// Law: breach events applied one at a time leave the player with
/// `max(0, h - n)` health; health never goes below zero, however many
/// breaches arrive.
pub proof fn lemma_health_after_breaches(h: int, n: int)
    requires
        0 <= h,
        0 <= n,
    ensures
        breaches_applied(h, n) == health_after_breaches(h, n),
        breaches_applied(h, n) >= 0,
    decreases n,
{
    if n > 0 {
        lemma_health_after_breaches(h, n - 1);
    }
}

/// Law: the game-over state is terminal — once health has reached zero,
/// any number of further breaches leaves it at zero.
pub proof fn lemma_game_over_terminal(n: int)
    requires
        0 <= n,
    ensures
        breaches_applied(0, n) == 0,
{
    lemma_health_after_breaches(0, n);
}

/// `n` kill rewards applied one at a time.
pub open spec fn kill_rewards_applied(m: int, n: int) -> int
    decreases n,
{
    if n <= 0 {
        m
    } else {
        kill_rewards_applied(m, n - 1) + crate::KILL_REWARD
    }
}

/// Law: kill events applied one at a time pay out exactly
/// `KILL_REWARD * n` on top of the starting money.
pub proof fn lemma_money_after_kills(m: int, n: int)
    requires
        0 <= n,
    ensures
        kill_rewards_applied(m, n) == m + crate::KILL_REWARD * n,
    decreases n,
{
    if n > 0 {
        lemma_money_after_kills(m, n - 1);
        assert(crate::KILL_REWARD * n == crate::KILL_REWARD * (n - 1) + crate::KILL_REWARD)
            by (nonlinear_arith);
    }
}

/// Pays the kill reward once per death event recorded this tick.
pub fn give_money_on_kill(player: &mut Player, death_events: &Vec<TargetDeathEvent>)
    requires
        old(player).money + crate::KILL_REWARD * death_events@.len() <= u64::MAX,
    ensures
        final(player).money == old(player).money + crate::KILL_REWARD * death_events@.len(),
        final(player).health == old(player).health,
{
    let mut i: usize = 0;
    while i < death_events.len()
        invariant
            i <= death_events@.len(),
            player.money == old(player).money + crate::KILL_REWARD * i,
            player.health == old(player).health,
            old(player).money + crate::KILL_REWARD * death_events@.len() <= u64::MAX,
        decreases death_events@.len() - i,
    {
        proof {
            assert(crate::KILL_REWARD * (i + 1) <= crate::KILL_REWARD * death_events@.len())
                by (nonlinear_arith)
                requires i + 1 <= death_events@.len();
        }
        player.money = player.money + crate::KILL_REWARD;
        i = i + 1;
    }
}

/// The terminal condition: the core is over exactly when health is exhausted.
pub fn is_game_over(player: &Player) -> (game_over: bool)
    ensures
        game_over == (player.health == 0),
{
    player.health == 0
}

} // verus!
