//! A player that moves at random.

use crate::game::{self, Game, State};
use vstd::prelude::*;

verus! {

/// Picks any of the open moves, each with the same chance.
pub struct RandomPlayer;

impl RandomPlayer {
    /// The move that stands at `index` in the list of the state's moves.
    pub fn pick(state: &State, index: usize) -> (position: u8)
        requires
            index < state.moves().len(),
        ensures
            position == state.moves()[index as int],
    {
        let available_moves = Game::available_moves(state);
        available_moves[index]
    }
}

impl crate::players::Player for RandomPlayer {
    /// Any of the state's moves.
    open spec fn offers(&self, state: &State, position: u8) -> bool {
        state.moves().contains(position)
    }

    /// One of the state's moves, drawn at random.
    fn play(&self, state: &State, player: game::Player) -> (position: u8) {
        let available_moves = Game::available_moves(state);
        let i = random_below(available_moves.len());
        RandomPlayer::pick(state, i)
    }

    fn learn(&mut self, game: &Game) {
    }
}

/// `fastrand::usize` on the range `..n`, drawn from the generator of the
/// current thread. For a positive `n` the range is not empty, so the call
/// returns, and what it returns lies in the range. Nothing is said of which
/// number it is.
#[verifier::external_body]
fn random_below(n: usize) -> (i: usize)
    requires
        n > 0,
    ensures
        i < n,
{
    fastrand::usize(..n)
}

} // verus!
