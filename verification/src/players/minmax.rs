//! A player that searches the whole game tree.
//!
//! The search alternates between the steps of the player, which keep the
//! move of greatest value, and those of the opponent, which keep the move of
//! least value, down to the positions where the game is over. It suits only
//! a game as small as this one: every position below the current one is
//! visited before a move is chosen.

use crate::game::{empty_board, encoding, status_of, vacant, Board, Game, Player, State, Status};
use crate::players::{perfect, prepared};
use crate::players::table::{
    answers, below, learned, learned_below, lemma_below_all, lemma_child_learned,
    lemma_root_learned, lemma_searched_all, lemma_searched_nothing, lemma_searched_on, listing,
    searched, searched_below, tabled, taught,
};
use crate::tree::{
    after, earliest_best, follows, leads, lemma_leader_is_best, lemma_turn_passes, optimal,
    reachable, to_move, utility, value,
};
use std::collections::HashMap;
use vstd::prelude::*;

verus! {

/// A perfect player: it searches the game tree, and keeps what a full search
/// has taught it.
pub struct MinMaxPlayer {
    knowledge: HashMap<u16, u8>,
}

impl MinMaxPlayer {
    /// The move on record for each position, by the position's code.
    pub closed spec fn table(&self) -> Map<u16, u8> {
        self.knowledge@
    }

    /// The table names a best move for every open position that a game
    /// can come to: one that leads `X` to the best outcome it can force where
    /// `X` is to move, and `O` where `O` is.
    pub open spec fn trained(&self) -> bool {
        forall|d: Board|
            #[trigger] reachable(d) && status_of(d) is OnGoing ==> taught(
                self.table(),
                d,
                Player::X,
            )
    }

    /// A trained player has a move wherever a game can come to, whichever
    /// side it takes, and only makes best moves.
    pub proof fn lemma_trained_plays_well(&self)
        requires
            self.trained(),
        ensures
            prepared(self, Player::X),
            prepared(self, Player::O),
            perfect(self, Player::X),
            perfect(self, Player::O),
    {
        assert forall|state: State|
            state.wf() && reachable(state@) && status_of(state@) is OnGoing implies answers(
            self.table(),
            state@,
        ) by {
            assert(taught(self.table(), state@, Player::X));
        }
        assert forall|state: State, position: u8|
            state.wf() && reachable(state@) && status_of(state@) is OnGoing && vacant(
                state@,
                position as int,
            ) && position == self.table()[encoding(state@) as u16] implies optimal(
            state@,
            Player::X,
            to_move(state@),
            position as int,
        ) by {
            assert(taught(self.table(), state@, Player::X));
        }
    }

    /// A player that has learned nothing yet.
    pub fn new() -> (player: MinMaxPlayer)
        ensures
            player.table() == Map::<u16, u8>::empty(),
    {
        MinMaxPlayer { knowledge: HashMap::new() }
    }

    /// A player that holds the entries of `list`.
    pub fn from_entries(list: &Vec<(u16, u8)>) -> (player: MinMaxPlayer)
        ensures
            player.table() == tabled(list@),
    {
        let mut knowledge: HashMap<u16, u8> = HashMap::new();
        let mut i: usize = 0;
        while i < list.len()
            invariant
                i <= list.len(),
                knowledge@ == tabled(list@.take(i as int)),
            decreases list.len() - i,
        {
            let (code, action) = list[i];
            knowledge.insert(code, action);
            proof {
                assert(list@.take(i + 1).drop_last() == list@.take(i as int));
            }
            i += 1;
        }
        proof {
            assert(list@.take(list.len() as int) == list@);
        }
        MinMaxPlayer { knowledge }
    }

    /// The entries of the table, by ascending code.
    pub fn entries(&self) -> (list: Vec<(u16, u8)>)
        ensures
            listing(self.table(), list@),
    {
        let mut list: Vec<(u16, u8)> = Vec::new();
        let mut code: u16 = 0;
        while code < 19683
            invariant
                code <= 19683,
                forall|i: int|
                    0 <= i < list.len() ==> {
                        &&& (#[trigger] list[i]).0 < code
                        &&& self.table().contains_key(list[i].0)
                        &&& self.table()[list[i].0] == list[i].1
                    },
                forall|i: int, j: int|
                    0 <= i < j < list.len() ==> (#[trigger] list[i]).0 < (#[trigger] list[j]).0,
                forall|known: u16|
                    known < code && #[trigger] self.table().contains_key(known) ==> exists|i: int|
                        0 <= i < list.len() && (#[trigger] list[i]).0 == known,
            decreases 19683 - code,
        {
            if let Some(action) = self.knowledge.get(&code) {
                let ghost before = list@;
                list.push((code, *action));
                proof {
                    assert forall|known: u16|
                        known < code + 1 && #[trigger] self.table().contains_key(
                            known,
                        ) implies exists|i: int|
                        0 <= i < list.len() && (#[trigger] list[i]).0 == known by {
                        if known < code {
                            let i = choose|i: int|
                                0 <= i < before.len() && (#[trigger] before[i]).0 == known;
                            assert(list[i].0 == known);
                        } else {
                            assert(list[list.len() - 1].0 == known);
                        }
                    }
                }
            }
            code += 1;
        }
        list
    }

    /// The move that the table names for the position, where it names one
    /// and the cell is empty.
    pub fn recall(&self, state: &State) -> (action: Option<u8>)
        ensures
            match action {
                Some(position) => {
                    &&& answers(self.table(), state@)
                    &&& position == self.table()[encoding(state@) as u16]
                },
                None => !answers(self.table(), state@),
            },
    {
        let code = state.encode_state();
        match self.knowledge.get(&code) {
            Some(position) => {
                if state.is_available(*position) {
                    Some(*position)
                } else {
                    None
                }
            },
            None => None,
        }
    }

    /// Whether the table names an empty cell for every open position that a
    /// game can come to, so that the player can take either side of any game.
    pub fn is_prepared(&self) -> (all: bool)
        ensures
            all == forall|d: Board|
                #[trigger] reachable(d) && status_of(d) is OnGoing ==> answers(self.table(), d),
            all ==> prepared(self, Player::X) && prepared(self, Player::O),
    {
        let state = State::new();
        let all = self.covers(&state, Player::X);
        proof {
            if all {
                assert forall|d: Board|
                    #[trigger] reachable(d) && status_of(d) is OnGoing implies answers(
                    self.table(),
                    d,
                ) by {
                    assert(follows(state@, d));
                }
            } else {
                let d = choose|d: Board|
                    #[trigger] follows(state@, d) && status_of(d) is OnGoing && !answers(
                        self.table(),
                        d,
                    );
                assert(reachable(d));
            }
        }
        all
    }

    /// Whether the table names an empty cell for every open position that a
    /// game at `state` can come to, where `player` is to move.
    fn covers(&self, state: &State, player: Player) -> (all: bool)
        requires
            state.wf(),
            to_move(state@) == player,
        ensures
            all == forall|d: Board|
                #[trigger] follows(state@, d) && status_of(d) is OnGoing ==> answers(
                    self.table(),
                    d,
                ),
        decreases state.moves().len(),
    {
        if let Status::Finished(_) = Game::status(state) {
            return true;
        }
        if self.recall(state).is_none() {
            assert(follows(state@, state@));
            return false;
        }
        let moves = Game::available_moves(state);
        let mut i: usize = 0;
        while i < moves.len()
            invariant
                state.wf(),
                status_of(state@) is OnGoing,
                player == to_move(state@),
                moves@ == state.moves(),
                i <= moves.len(),
                forall|d: Board|
                    #[trigger] below(state@, moves@, i as int, d) && status_of(d) is OnGoing
                        ==> answers(self.table(), d),
            decreases moves.len() - i,
        {
            let mut next_state = state.clone();
            Game::act(player, moves[i], &mut next_state).unwrap();
            proof {
                lemma_turn_passes(state@, moves[i as int] as int, player);
            }
            if !self.covers(&next_state, player.next_player()) {
                proof {
                    let d = choose|d: Board|
                        #[trigger] follows(next_state@, d) && status_of(d) is OnGoing && !answers(
                            self.table(),
                            d,
                        );
                    assert(vacant(state@, moves[i as int] as int));
                    assert(follows(state@, d));
                }
                return false;
            }
            proof {
                assert forall|d: Board|
                    #[trigger] below(state@, moves@, i + 1, d) && status_of(
                        d,
                    ) is OnGoing implies answers(self.table(), d) by {
                    if !follows(next_state@, d) {
                        assert(below(state@, moves@, i as int, d));
                    }
                }
            }
            i += 1;
        }
        proof {
            assert forall|d: Board|
                #[trigger] follows(state@, d) && status_of(d) is OnGoing implies answers(
                self.table(),
                d,
            ) by {
                if d != state@ {
                    lemma_below_all(state@, moves@, d);
                }
            }
        }
        true
    }

    /// The best move for `player` in an open position, found by a search of
    /// everything below it: of the moves that lead to the best outcome that
    /// `player` can force, the first in the order of the state's moves.
    pub fn search(&self, game: &Game, state: &State, player: Player) -> (action: u8)
        requires
            state.wf(),
            status_of(state@) is OnGoing,
        ensures
            exists|j: int|
                earliest_best(state@, state.moves(), player, player, j) && state.moves()[j]
                    == action,
    {
        let (_, action) = self.maximize(game, state, player);
        action.unwrap()
    }

    /// The value of the position for `player`, who is to move, and the first
    /// move that attains it; no move where the game is over. The search of
    /// the moves stops at the first that wins, as nothing is worth more.
    pub fn maximize(&self, game: &Game, state: &State, player: Player) -> (found: (
        i64,
        Option<u8>,
    ))
        requires
            state.wf(),
        ensures
            found.0 == value(state@, player, player),
            match found.1 {
                Some(action) => status_of(state@) is OnGoing && exists|j: int|
                    earliest_best(state@, state.moves(), player, player, j)
                        && state.moves()[j] == action,
                None => status_of(state@) is Finished,
            },
        decreases state.moves().len(),
    {
        if let Status::Finished(maybe_winner) = Game::status(state) {
            return (self.utility(maybe_winner, player), None);
        }
        let moves = Game::available_moves(state);
        let ghost mut first: int = 0;
        let mut highest_value: i64 = -10;
        let mut best_move: Option<u8> = None;
        let mut i: usize = 0;
        while i < moves.len()
            invariant
                state.wf(),
                status_of(state@) is OnGoing,
                moves@ == state.moves(),
                i <= moves.len(),
                i == 0 ==> best_move is None && highest_value == -10,
                i > 0 ==> {
                    &&& leads(state@, moves@, player, player, i as int, first)
                    &&& best_move == Some(moves[first])
                    &&& highest_value == after(state@, player, player, moves[first] as int)
                },
            ensures
                i == moves.len() || highest_value == 1,
            decreases moves.len() - i,
        {
            let action = moves[i];
            let mut next_state = state.clone();
            Game::act(player, action, &mut next_state).unwrap();
            let (action_value, _) = self.minimize(game, &next_state, player);
            if action_value > highest_value {
                highest_value = action_value;
                best_move = Some(action);
                proof {
                    first = i as int;
                }
            }
            i += 1;
            // There is no higher value than that
            if highest_value == 1 {
                break ;
            }
        }
        proof {
            lemma_leader_is_best(state@, moves@, player, player, i as int, first);
        }
        (highest_value, best_move)
    }

    /// The value of the position for `player` when the opponent is to move,
    /// and the first move of the opponent that attains it; no move where the
    /// game is over. The search of the moves stops at the first that makes
    /// `player` lose, as nothing is worth less.
    pub fn minimize(&self, game: &Game, state: &State, player: Player) -> (found: (
        i64,
        Option<u8>,
    ))
        requires
            state.wf(),
        ensures
            found.0 == value(state@, player, player.other()),
            match found.1 {
                Some(action) => status_of(state@) is OnGoing && exists|j: int|
                    earliest_best(state@, state.moves(), player, player.other(), j)
                        && state.moves()[j] == action,
                None => status_of(state@) is Finished,
            },
        decreases state.moves().len(),
    {
        if let Status::Finished(maybe_winner) = Game::status(state) {
            return (self.utility(maybe_winner, player), None);
        }
        let moves = Game::available_moves(state);
        let ghost mut first: int = 0;
        let mut lowest_value: i64 = 10;
        let mut worst_move: Option<u8> = None;
        let mut i: usize = 0;
        while i < moves.len()
            invariant
                state.wf(),
                status_of(state@) is OnGoing,
                moves@ == state.moves(),
                i <= moves.len(),
                i == 0 ==> worst_move is None && lowest_value == 10,
                i > 0 ==> {
                    &&& leads(state@, moves@, player, player.other(), i as int, first)
                    &&& worst_move == Some(moves[first])
                    &&& lowest_value == after(state@, player, player.other(), moves[first] as int)
                },
            ensures
                i == moves.len() || lowest_value == -1,
            decreases moves.len() - i,
        {
            let action = moves[i];
            let mut next_state = state.clone();
            Game::act(player.next_player(), action, &mut next_state).unwrap();
            let (action_value, _) = self.maximize(game, &next_state, player);
            if action_value < lowest_value {
                lowest_value = action_value;
                worst_move = Some(action);
                proof {
                    first = i as int;
                }
            }
            i += 1;
            // There is no worse value than that
            if lowest_value == -1 {
                break ;
            }
        }
        proof {
            lemma_leader_is_best(state@, moves@, player, player.other(), i as int, first);
        }
        (lowest_value, worst_move)
    }

    /// Searches everything below a position in which `player` is to move, as
    /// `maximize` does but without stopping early, and writes down the best
    /// move of every open position on the way, this one included.
    fn learn_maximize(&mut self, game: &Game, state: State, player: Player) -> (found: (
        i64,
        Option<u8>,
    ))
        requires
            state.wf(),
            to_move(state@) == player,
        ensures
            found.0 == value(state@, player, player),
            match found.1 {
                Some(action) => status_of(state@) is OnGoing && exists|j: int|
                    earliest_best(state@, state.moves(), player, player, j)
                        && state.moves()[j] == action,
                None => status_of(state@) is Finished,
            },
            final(self).table() == searched(
                old(self).table(),
                state@,
                state.moves(),
                player,
                player,
            ),
            learned(final(self).table(), old(self).table(), state@, player),
        decreases state.moves().len(),
    {
        if let Status::Finished(maybe_winner) = Game::status(&state) {
            proof {
                lemma_searched_nothing(self.table(), state@, state.moves(), player, player);
            }
            return (self.utility(maybe_winner, player), None);
        }
        let moves = Game::available_moves(&state);
        let ghost mut first: int = 0;
        let ghost start = self.table();
        proof {
            lemma_searched_nothing(start, state@, moves@, player, player);
        }
        let mut highest_value: i64 = -10;
        let mut best_move: Option<u8> = None;
        let mut i: usize = 0;
        while i < moves.len()
            invariant
                state.wf(),
                status_of(state@) is OnGoing,
                moves@ == state.moves(),
                i <= moves.len(),
                i == 0 ==> best_move is None && highest_value == -10,
                i > 0 ==> {
                    &&& leads(state@, moves@, player, player, i as int, first)
                    &&& best_move == Some(moves[first])
                    &&& highest_value == after(state@, player, player, moves[first] as int)
                },
                to_move(state@) == player,
                self.table() == searched_below(start, state@, moves@, player, player, i as int),
                learned_below(self.table(), start, state@, moves@, i as int, player),
            decreases moves.len() - i,
        {
            let action = moves[i];
            let mut next_state = state.clone();
            Game::act(player, action, &mut next_state).unwrap();
            let ghost before = self.table();
            proof {
                lemma_turn_passes(state@, action as int, player);
            }
            let (action_value, _) = self.learn_minimize(game, next_state, player);
            proof {
                lemma_child_learned(start, before, self.table(), state@, moves@, i as int, player);
                lemma_searched_on(start, state@, moves@, player, player, i as int);
            }
            if action_value > highest_value {
                highest_value = action_value;
                best_move = Some(action);
                proof {
                    first = i as int;
                }
            }
            i += 1;
        }
        proof {
            lemma_leader_is_best(state@, moves@, player, player, i as int, first);
            lemma_searched_all(start, state@, moves@, player, player, first);
        }
        let action = best_move.unwrap();
        let ghost before = self.table();
        self.knowledge.insert(state.encode_state(), action);
        proof {
            lemma_root_learned(start, before, self.table(), state@, moves@, player, action);
        }
        (highest_value, best_move)
    }

    /// Searches everything below a position in which the opponent of
    /// `player` is to move, as `minimize` does but without stopping early,
    /// and writes down the best move of every open position on the way, this
    /// one included.
    fn learn_minimize(&mut self, game: &Game, state: State, player: Player) -> (found: (
        i64,
        Option<u8>,
    ))
        requires
            state.wf(),
            to_move(state@) == player.other(),
        ensures
            found.0 == value(state@, player, player.other()),
            match found.1 {
                Some(action) => status_of(state@) is OnGoing && exists|j: int|
                    earliest_best(state@, state.moves(), player, player.other(), j)
                        && state.moves()[j] == action,
                None => status_of(state@) is Finished,
            },
            final(self).table() == searched(
                old(self).table(),
                state@,
                state.moves(),
                player,
                player.other(),
            ),
            learned(final(self).table(), old(self).table(), state@, player),
        decreases state.moves().len(),
    {
        if let Status::Finished(maybe_winner) = Game::status(&state) {
            proof {
                lemma_searched_nothing(self.table(), state@, state.moves(), player, player.other());
            }
            return (self.utility(maybe_winner, player), None);
        }
        let moves = Game::available_moves(&state);
        let ghost mut first: int = 0;
        let ghost start = self.table();
        proof {
            lemma_searched_nothing(start, state@, moves@, player, player.other());
        }
        let mut lowest_value: i64 = 10;
        let mut worst_move: Option<u8> = None;
        let mut i: usize = 0;
        while i < moves.len()
            invariant
                state.wf(),
                status_of(state@) is OnGoing,
                moves@ == state.moves(),
                i <= moves.len(),
                i == 0 ==> worst_move is None && lowest_value == 10,
                i > 0 ==> {
                    &&& leads(state@, moves@, player, player.other(), i as int, first)
                    &&& worst_move == Some(moves[first])
                    &&& lowest_value == after(state@, player, player.other(), moves[first] as int)
                },
                to_move(state@) == player.other(),
                self.table() == searched_below(
                    start,
                    state@,
                    moves@,
                    player,
                    player.other(),
                    i as int,
                ),
                learned_below(self.table(), start, state@, moves@, i as int, player),
            decreases moves.len() - i,
        {
            let action = moves[i];
            let mut next_state = state.clone();
            Game::act(player.next_player(), action, &mut next_state).unwrap();
            let ghost before = self.table();
            proof {
                lemma_turn_passes(state@, action as int, player.other());
            }
            let (action_value, _) = self.learn_maximize(game, next_state, player);
            proof {
                lemma_child_learned(start, before, self.table(), state@, moves@, i as int, player);
                lemma_searched_on(start, state@, moves@, player, player.other(), i as int);
            }
            if action_value < lowest_value {
                lowest_value = action_value;
                worst_move = Some(action);
                proof {
                    first = i as int;
                }
            }
            i += 1;
        }
        proof {
            lemma_leader_is_best(state@, moves@, player, player.other(), i as int, first);
            lemma_searched_all(start, state@, moves@, player, player.other(), first);
        }
        let action = worst_move.unwrap();
        let ghost before = self.table();
        self.knowledge.insert(state.encode_state(), action);
        proof {
            lemma_root_learned(start, before, self.table(), state@, moves@, player, action);
        }
        (lowest_value, worst_move)
    }

    /// What the outcome is worth to `player`.
    pub fn utility(&self, maybe_winner: Option<Player>, player: Player) -> (worth: i64)
        ensures
            worth == utility(maybe_winner, player),
    {
        match maybe_winner {
            Some(winner) => {
                if winner == player {
                    1
                } else {
                    -1
                }
            },
            None => 0,
        }
    }
}

impl crate::players::Player for MinMaxPlayer {
    /// The table names an empty cell for the position.
    open spec fn ready(&self, state: &State) -> bool {
        answers(self.table(), state@)
    }

    /// The move that the table names for the position.
    open spec fn offers(&self, state: &State, position: u8) -> bool {
        position == self.table()[encoding(state@) as u16]
    }

    /// The move that the table names for the position.
    fn play(&self, state: &State, player: Player) -> (position: u8) {
        let code = state.encode_state();
        *self.knowledge.get(&code).unwrap()
    }

    /// Searches the whole game from the empty board and writes down, for
    /// every open position that a game can come to, a best move of the
    /// player whose turn it is there. Entries under other codes stay as they
    /// are.
    fn learn(&mut self, game: &Game)
        ensures
            final(self).table() == searched(
                old(self).table(),
                empty_board(),
                seq![0u8, 1, 2, 3, 4, 5, 6, 7, 8],
                Player::X,
                Player::X,
            ),
            final(self).trained(),
            learned(final(self).table(), old(self).table(), empty_board(), Player::X),
    {
        let state = State::new();
        let player = Player::X;
        self.learn_maximize(game, state, player);
    }
}

} // verus!
