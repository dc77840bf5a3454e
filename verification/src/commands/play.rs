//! Batches of games between two players, and the tally of their outcomes.

use crate::game::{self, can_end, Game};
use crate::players::{perfect, prepared, Player};
use crate::tree::game_value;
use vstd::arithmetic::div_mod::{lemma_fundamental_div_mod, lemma_mod_bound};
use vstd::prelude::*;

verus! {

/// How a batch of games ended for the first of its two players.
#[derive(Copy, Clone, Debug, PartialEq, Eq, Structural)]
pub struct GamesResult {
    pub victories: u32,
    pub draws: u32,
    pub losses: u32,
}

/// The mark of the player who moved first or second: `X` always opens.
pub open spec fn mark_of(moved_first: bool) -> game::Player {
    if moved_first {
        game::Player::X
    } else {
        game::Player::O
    }
}

/// The tally with one more game counted: a victory where the mark that won
/// is the one that the tally's player held, a draw where nobody won, else a
/// loss.
pub open spec fn counted(
    tally: GamesResult,
    winner: Option<game::Player>,
    moved_first: bool,
) -> GamesResult {
    match winner {
        Some(mark) if mark == mark_of(moved_first) => GamesResult {
            victories: (tally.victories + 1) as u32,
            ..tally
        },
        Some(_) => GamesResult { losses: (tally.losses + 1) as u32, ..tally },
        None => GamesResult { draws: (tally.draws + 1) as u32, ..tally },
    }
}

/// The tally of a batch of games with the given winners, of which the
/// tally's player opened the first, the third and so on.
pub open spec fn tallied(winners: Seq<Option<game::Player>>) -> GamesResult
    decreases winners.len(),
{
    if winners.len() == 0 {
        GamesResult { victories: 0, draws: 0, losses: 0 }
    } else {
        counted(tallied(winners.drop_last()), winners.last(), winners.len() % 2 == 1)
    }
}

/// The tally of two batches together.
pub open spec fn sum(a: GamesResult, b: GamesResult) -> GamesResult {
    GamesResult {
        victories: (a.victories + b.victories) as u32,
        draws: (a.draws + b.draws) as u32,
        losses: (a.losses + b.losses) as u32,
    }
}

/// Tallies can be added up in any order.
pub proof fn lemma_sum_any_order(a: GamesResult, b: GamesResult, c: GamesResult)
    requires
        a.total() + b.total() + c.total() <= u32::MAX,
    ensures
        sum(a, b) == sum(b, a),
        sum(sum(a, b), c) == sum(a, sum(b, c)),
        sum(a, b).total() == a.total() + b.total(),
{
}

/// `winners` are the results of games between the two players, of which
/// `player_1` opened the first, the third and so on, and `player_2` the
/// others.
pub open spec fn batch<A: Player + ?Sized, B: Player + ?Sized>(
    player_1: &A,
    player_2: &B,
    winners: Seq<Option<game::Player>>,
) -> bool {
    forall|k: int|
        0 <= k < winners.len() ==> if k % 2 == 0 {
            can_end(player_1, player_2, #[trigger] winners[k])
        } else {
            can_end(player_2, player_1, winners[k])
        }
}

/// The number of workers that share a batch of `game_count` games where
/// `parallelism` can run at once: one for each, but never more than games.
pub open spec fn workers_for(parallelism: usize, game_count: u32) -> nat {
    if parallelism <= game_count {
        parallelism as nat
    } else {
        game_count as nat
    }
}

impl GamesResult {
    /// The number of games in the tally.
    pub open spec fn total(&self) -> int {
        self.victories + self.draws + self.losses
    }

    /// The tally of no games.
    pub fn new() -> (tally: GamesResult)
        ensures
            tally == (GamesResult { victories: 0, draws: 0, losses: 0 }),
    {
        GamesResult { victories: 0, draws: 0, losses: 0 }
    }

    /// Counts one game: a victory where the mark that won is the one that
    /// the tally's player held, a draw where nobody won, else a loss. The
    /// player held `X` where it moved first, `O` where it did not.
    pub fn record(&mut self, winner: Option<game::Player>, moved_first: bool)
        requires
            old(self).total() < u32::MAX,
        ensures
            *final(self) == counted(*old(self), winner, moved_first),
            final(self).total() == old(self).total() + 1,
    {
        match winner {
            Some(player) => match player {
                game::Player::X if moved_first => self.victories += 1,
                game::Player::O if !moved_first => self.victories += 1,
                game::Player::X | game::Player::O => self.losses += 1,
            },
            None => self.draws += 1,
        }
    }

    /// Adds the tally of another batch to this one.
    pub fn add_assign(&mut self, rhs: GamesResult)
        requires
            old(self).victories + rhs.victories <= u32::MAX,
            old(self).draws + rhs.draws <= u32::MAX,
            old(self).losses + rhs.losses <= u32::MAX,
        ensures
            *final(self) == sum(*old(self), rhs),
            final(self).victories == old(self).victories + rhs.victories,
            final(self).draws == old(self).draws + rhs.draws,
            final(self).losses == old(self).losses + rhs.losses,
    {
        self.victories += rhs.victories;
        self.draws += rhs.draws;
        self.losses += rhs.losses;
    }
}

/// Plays `n` games between the two players and tallies them for `player_1`.
/// The players take turns at moving first, `player_1` opening the first
/// game.
///
/// Where the game is worth a draw, a player that only makes best moves loses
/// none of the games: against it the other wins none, and between two such
/// players every game is drawn.
pub fn play_games<A: Player + ?Sized, B: Player + ?Sized>(
    player_1: &A,
    player_2: &B,
    n: usize,
) -> (tally: GamesResult)
    requires
        prepared(player_1, game::Player::X),
        prepared(player_1, game::Player::O),
        prepared(player_2, game::Player::X),
        prepared(player_2, game::Player::O),
        n <= u32::MAX,
    ensures
        exists|winners: Seq<Option<game::Player>>|
            winners.len() == n && #[trigger] batch(player_1, player_2, winners) && tallied(winners)
                == tally,
        tally.total() == n,
        game_value() == 0 && perfect(player_1, game::Player::X) && perfect(
            player_1,
            game::Player::O,
        ) ==> tally.losses == 0,
        game_value() == 0 && perfect(player_2, game::Player::X) && perfect(
            player_2,
            game::Player::O,
        ) ==> tally.victories == 0,
{
    let mut tally = GamesResult::new();
    let mut first_player = false;
    let mut played: usize = 0;
    let ghost mut winners: Seq<Option<game::Player>> = Seq::empty();
    while played < n
        invariant
            winners.len() == played,
            batch(player_1, player_2, winners),
            tallied(winners) == tally,
            first_player == (played % 2 == 1),
            prepared(player_1, game::Player::X),
            prepared(player_1, game::Player::O),
            prepared(player_2, game::Player::X),
            prepared(player_2, game::Player::O),
            n <= u32::MAX,
            played <= n,
            tally.total() == played,
            game_value() == 0 && perfect(player_1, game::Player::X) && perfect(
                player_1,
                game::Player::O,
            ) ==> tally.losses == 0,
            game_value() == 0 && perfect(player_2, game::Player::X) && perfect(
                player_2,
                game::Player::O,
            ) ==> tally.victories == 0,
        decreases n - played,
    {
        // We alternate the players
        first_player = !first_player;
        let result = if first_player {
            Game::play(player_1, player_2)
        } else {
            Game::play(player_2, player_1)
        };
        tally.record(result, first_player);
        proof {
            assert(winners.push(result).drop_last() == winners);
            winners = winners.push(result);
        }
        played += 1;
    }
    tally
}

/// Shares `game_count` games out between workers, of which `parallelism`
/// can run at once: the number of workers, and the number of games that
/// each of them plays. Every worker gets the same share, so the games that
/// are left over when the count is divided are not played: they are fewer
/// than the workers.
pub fn share_out(parallelism: usize, game_count: u32) -> (plan: (usize, usize))
    ensures
        plan.0 == workers_for(parallelism, game_count),
        plan.1 == if plan.0 == 0 {
            0
        } else {
            game_count as int / plan.0 as int
        },
        plan.0 * plan.1 <= game_count,
        plan.0 > 0 ==> game_count - plan.0 * plan.1 < plan.0,
{
    let workers = if parallelism <= game_count as usize {
        parallelism
    } else {
        game_count as usize
    };
    if workers == 0 {
        (0, 0)
    } else {
        let games_each = game_count as usize / workers;
        proof {
            lemma_fundamental_div_mod(game_count as int, workers as int);
            lemma_mod_bound(game_count as int, workers as int);
            assert(workers * games_each + game_count as int % workers as int == game_count);
        }
        (workers, games_each)
    }
}

} // verus!
