//! The players of the game.

pub mod human;
pub mod minmax;
pub mod random;
pub mod table;

pub use human::HumanPlayer;
pub use minmax::MinMaxPlayer;
pub use random::RandomPlayer;

use crate::game::{self, status_of, vacant, Game, State};
use crate::tree::{optimal, reachable, to_move};
use vstd::prelude::*;

verus! {

/// The kinds of player.
#[derive(Copy, Clone, Debug, PartialEq, Eq, Structural)]
pub enum PlayerKind {
    Human,
    Random,
    MinMax,
}

impl PlayerKind {
    /// Whether a player of this kind has anything to learn, and to keep once
    /// it has learned it: only the one that searches the game has.
    pub fn is_trainable(self) -> (trainable: bool)
        ensures
            trainable == (self == PlayerKind::MinMax),
    {
        match self {
            PlayerKind::Human | PlayerKind::Random => false,
            PlayerKind::MinMax => true,
        }
    }
}

/// What it takes to play the game: to name a legal move in an open position.
pub trait Player: Sync + Send {
    /// The player has a move to offer in `state`. A player is taken to have
    /// one everywhere unless it says otherwise.
    open spec fn ready(&self, state: &State) -> bool {
        true
    }

    /// `position` is a move that the player may make in `state`. Unless a
    /// player says otherwise, any move is.
    open spec fn offers(&self, state: &State, position: u8) -> bool {
        true
    }

    /// The move that the player makes in `state`, where it holds the mark
    /// `player` and it is its turn: an empty cell, and one that it offers.
    fn play(&self, state: &State, player: game::Player) -> (position: u8)
        requires
            state.wf(),
            status_of(state@) is OnGoing,
            self.ready(state),
        ensures
            vacant(state@, position as int),
            self.offers(state, position),
    ;

    /// Prepares the player for every position that a game can come to.
    fn learn(&mut self, game: &Game)
        ensures
            forall|state: State|
                state.wf() && reachable(state@) && status_of(state@) is OnGoing
                    ==> #[trigger] final(self).ready(&state),
    ;
}

/// `player` has a move to offer wherever a game can come to with the mark
/// `mark` to move.
pub open spec fn prepared<P: Player + ?Sized>(player: &P, mark: game::Player) -> bool {
    forall|state: State|
        state.wf() && reachable(state@) && status_of(state@) is OnGoing && to_move(state@) == mark
            ==> #[trigger] player.ready(&state)
}

/// Wherever a game can come to with the mark `mark` to move, every move
/// that `player` may make there is a best move for `mark`.
pub open spec fn perfect<P: Player + ?Sized>(player: &P, mark: game::Player) -> bool {
    forall|state: State, position: u8|
        state.wf() && reachable(state@) && status_of(state@) is OnGoing && to_move(state@) == mark
            && vacant(state@, position as int) && #[trigger] player.offers(&state, position)
            ==> optimal(state@, game::Player::X, mark, position as int)
}

} // verus!
