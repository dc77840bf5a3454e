//! The board, its marks and the rules of the game.

use crate::players;
use crate::tree::{
    game_value, lemma_follows_step, lemma_move_value, lemma_turn_passes, reachable, to_move,
    utility, value,
};
use vstd::prelude::*;
use vstd::std_specs::cmp::PartialEqSpecImpl;
use vstd::string::StringExecFns;

verus! {

/// One of the two marks. `X` always moves first.
#[derive(Copy, Clone, Debug, PartialEq, Eq, Hash, Structural)]
pub enum Player {
    X,
    O,
}

/// Whether a game is still open, and how it ended if it is not.
#[derive(Copy, Clone, Debug, PartialEq, Eq, Structural)]
pub enum Status {
    /// The game is over; the winner, or `None` for a draw.
    Finished(Option<Player>),
    OnGoing,
}

/// Why a move was refused.
#[derive(Copy, Clone, Debug, PartialEq, Eq, Structural)]
pub enum MoveError {
    /// The cell already holds a mark.
    NonEmptyField,
    /// The position is not one of the nine cells.
    OutOfBound,
}

/// The nine cells of a board, row by row.
pub type Board = Seq<Option<Player>>;

impl Player {
    /// The mark that moves after this one.
    pub open spec fn other(self) -> Player {
        match self {
            Player::X => Player::O,
            Player::O => Player::X,
        }
    }

    /// The letter of the mark.
    pub open spec fn letter(self) -> Seq<char> {
        match self {
            Player::X => "X"@,
            Player::O => "O"@,
        }
    }

    /// The letter of the mark.
    pub fn label(self) -> (text: &'static str)
        ensures
            text@ == self.letter(),
    {
        match self {
            Player::X => "X",
            Player::O => "O",
        }
    }

    /// The mark that moves after this one.
    pub fn next_player(self) -> (next: Player)
        ensures
            next == self.other(),
    {
        match self {
            Player::X => Player::O,
            Player::O => Player::X,
        }
    }
}

/// The board on which nothing is marked.
pub open spec fn empty_board() -> Board {
    Seq::new(9, |i: int| None::<Player>)
}

/// Cell `i` is on the board and holds no mark.
pub open spec fn vacant(b: Board, i: int) -> bool {
    0 <= i < 9 && b[i] is None
}

/// 1 for an empty cell, 0 for a marked one.
pub open spec fn gap(cell: Option<Player>) -> nat {
    if cell is None {
        1
    } else {
        0
    }
}

/// The number of empty cells.
pub open spec fn vacancies(b: Board) -> nat {
    gap(b[0]) + gap(b[1]) + gap(b[2]) + gap(b[3]) + gap(b[4]) + gap(b[5]) + gap(b[6]) + gap(b[7])
        + gap(b[8])
}

/// The number of marked cells.
pub open spec fn marks(b: Board) -> nat {
    (9 - vacancies(b)) as nat
}

/// The board after `p` has marked cell `i`.
pub open spec fn place(b: Board, i: int, p: Player) -> Board {
    b.update(i, Some(p))
}

/// Cells `i`, `j` and `k` all hold the mark of `p`.
pub open spec fn line(b: Board, p: Player, i: int, j: int, k: int) -> bool {
    b[i] == Some(p) && b[j] == Some(p) && b[k] == Some(p)
}

/// `p` holds a full row, column or diagonal.
pub open spec fn wins(b: Board, p: Player) -> bool {
    ||| line(b, p, 0, 1, 2)
    ||| line(b, p, 3, 4, 5)
    ||| line(b, p, 6, 7, 8)
    ||| line(b, p, 0, 3, 6)
    ||| line(b, p, 1, 4, 7)
    ||| line(b, p, 2, 5, 8)
    ||| line(b, p, 0, 4, 8)
    ||| line(b, p, 2, 4, 6)
}

/// The player who holds a line. Where both do, `X` is named.
pub open spec fn winner_of(b: Board) -> Option<Player> {
    if wins(b, Player::X) {
        Some(Player::X)
    } else if wins(b, Player::O) {
        Some(Player::O)
    } else {
        None
    }
}

/// A line ends the game for its holder, a full board without one is a draw,
/// and anything else is still open.
pub open spec fn status_of(b: Board) -> Status {
    if winner_of(b) is Some {
        Status::Finished(winner_of(b))
    } else if vacancies(b) == 0 {
        Status::Finished(None)
    } else {
        Status::OnGoing
    }
}

/// The empty cells below `k`, in ascending order.
pub open spec fn vacant_below(b: Board, k: int) -> Seq<u8>
    decreases k,
{
    if k <= 0 {
        Seq::empty()
    } else if b[k - 1] is None {
        vacant_below(b, k - 1).push((k - 1) as u8)
    } else {
        vacant_below(b, k - 1)
    }
}

/// `s` without its element at `i`, the last element taking its place.
pub open spec fn swap_removed(s: Seq<u8>, i: int) -> Seq<u8> {
    s.update(i, s.last()).drop_last()
}

/// A cell as it is drawn: its mark, or a blank, between two blanks.
pub open spec fn cell_text(cell: Option<Player>) -> Seq<char> {
    match cell {
        Some(mark) => " "@ + mark.letter() + " "@,
        None => "   "@,
    }
}

/// Row `r` as it is drawn: its three cells with bars between them, and a
/// line break.
pub open spec fn row_text(b: Board, r: int) -> Seq<char> {
    cell_text(b[3 * r]) + "|"@ + cell_text(b[3 * r + 1]) + "|"@ + cell_text(b[3 * r + 2]) + "\n"@
}

/// The board as it is drawn: its three rows with rules between them.
pub open spec fn drawing(b: Board) -> Seq<char> {
    row_text(b, 0) + "---+---+---\n"@ + row_text(b, 1) + "---+---+---\n"@ + row_text(b, 2)
}

/// The base-3 digit of a cell: 0 for empty, 1 for `X`, 2 for `O`.
pub open spec fn trit(cell: Option<Player>) -> nat {
    match cell {
        None => 0,
        Some(Player::X) => 1,
        Some(Player::O) => 2,
    }
}

/// The board read as a number in base 3, cell 0 being the lowest digit.
pub open spec fn encoding(b: Board) -> nat {
    trit(b[0]) + 3 * trit(b[1]) + 9 * trit(b[2]) + 27 * trit(b[3]) + 81 * trit(b[4]) + 243 * trit(
        b[5],
    ) + 729 * trit(b[6]) + 2187 * trit(b[7]) + 6561 * trit(b[8])
}

/// A board together with the list of its empty cells.
#[derive(Debug)]
pub struct State {
    fields: [Option<Player>; 9],
    available_fields: Vec<u8>,
}

impl View for State {
    type V = Board;

    /// The cells, row by row.
    closed spec fn view(&self) -> Board {
        self.fields@
    }
}

impl State {
    /// The empty cells, in the order in which they are offered as moves.
    pub closed spec fn moves(&self) -> Seq<u8> {
        self.available_fields@
    }

    /// The list of moves names every empty cell exactly once, and nothing else.
    pub open spec fn wf(&self) -> bool {
        &&& self@.len() == 9
        &&& self.moves().len() == vacancies(self@)
        &&& self.moves().no_duplicates()
        &&& forall|j: int|
            0 <= j < self.moves().len() ==> vacant(self@, #[trigger] self.moves()[j] as int)
        &&& forall|i: int| #[trigger] vacant(self@, i) ==> self.moves().contains(i as u8)
    }

    /// The empty board, its moves in ascending order.
    pub fn new() -> (s: State)
        ensures
            s.wf(),
            s@ == empty_board(),
            s.moves() == seq![0u8, 1, 2, 3, 4, 5, 6, 7, 8],
    {
        let s = State::from_array([None, None, None, None, None, None, None, None, None]);
        proof {
            reveal_with_fuel(vacant_below, 10);
            assert(s.moves() =~= seq![0u8, 1, 2, 3, 4, 5, 6, 7, 8]);
            assert(s@ =~= empty_board());
        }
        s
    }

    /// The board with the given cells, its moves in ascending order.
    pub fn from_array(fields: [Option<Player>; 9]) -> (s: State)
        ensures
            s.wf(),
            s@ == fields@,
            s.moves() == vacant_below(fields@, 9),
    {
        let mut available_fields: Vec<u8> = Vec::new();
        let mut idx: u8 = 0;
        while idx < 9
            invariant
                idx <= 9,
                available_fields@ == vacant_below(fields@, idx as int),
            decreases 9 - idx,
        {
            if fields[idx as usize].is_none() {
                available_fields.push(idx);
            }
            idx += 1;
        }
        proof {
            lemma_vacant_below(fields@, 9);
        }
        State { fields, available_fields }
    }

    /// Marks cell `position` for `player` and takes it off the list of moves,
    /// the last move of the list taking its place. A position off the board
    /// or a cell already marked is refused, and the state stays as it was.
    pub fn act(&mut self, player: Player, position: u8) -> (done: Result<(), MoveError>)
        requires
            old(self).wf(),
        ensures
            final(self).wf(),
            match done {
                Ok(_) => {
                    &&& vacant(old(self)@, position as int)
                    &&& final(self)@ == place(old(self)@, position as int, player)
                    &&& final(self).moves() == swap_removed(
                        old(self).moves(),
                        old(self).moves().index_of(position),
                    )
                },
                Err(MoveError::OutOfBound) => {
                    &&& position >= 9
                    &&& *final(self) == *old(self)
                },
                Err(MoveError::NonEmptyField) => {
                    &&& position < 9
                    &&& old(self)@[position as int] is Some
                    &&& *final(self) == *old(self)
                },
            },
    {
        if position >= 9 {
            return Err(MoveError::OutOfBound);
        }
        if !self.is_available(position) {
            return Err(MoveError::NonEmptyField);
        }
        let index = self.position_of(position);
        self.available_fields.swap_remove(index);
        self.fields[position as usize] = Some(player);
        proof {
            lemma_act_keeps_wf(old(self)@, old(self).moves(), index as int, player);
        }
        Ok(())
    }

    /// Draws the board.
    pub fn render(&self) -> (text: String)
        ensures
            text@ == drawing(self@),
    {
        let text = self.render_row(0);
        let text = text.concat("---+---+---\n");
        let text = text.concat(self.render_row(1).as_str());
        let text = text.concat("---+---+---\n");
        text.concat(self.render_row(2).as_str())
    }

    /// Draws row `r`.
    fn render_row(&self, r: usize) -> (text: String)
        requires
            r < 3,
        ensures
            text@ == row_text(self@, r as int),
    {
        let text = State::render_cell(self.fields[3 * r]);
        let text = text.concat("|");
        let text = text.concat(State::render_cell(self.fields[3 * r + 1]).as_str());
        let text = text.concat("|");
        let text = text.concat(State::render_cell(self.fields[3 * r + 2]).as_str());
        text.concat("\n")
    }

    /// Draws a cell.
    fn render_cell(cell: Option<Player>) -> (text: String)
        ensures
            text@ == cell_text(cell),
    {
        match cell {
            Some(player) => String::from_str(" ").concat(player.label()).concat(" "),
            None => String::from_str("   "),
        }
    }

    /// Encodes the cells in a single number, which can stand for the board
    /// as a key or as an index: no two boards share one.
    pub fn encode_state(&self) -> (code: u16)
        ensures
            code == encoding(self@),
            code < 19683,
    {
        let cells = &self.fields;
        State::digit(cells[0]) + 3 * State::digit(cells[1]) + 9 * State::digit(cells[2]) + 27
            * State::digit(cells[3]) + 81 * State::digit(cells[4]) + 243 * State::digit(cells[5])
            + 729 * State::digit(cells[6]) + 2187 * State::digit(cells[7]) + 6561 * State::digit(
            cells[8],
        )
    }

    /// The base-3 digit that stands for a cell.
    fn digit(cell: Option<Player>) -> (d: u16)
        ensures
            d == trit(cell),
    {
        match cell {
            Some(Player::O) => 2,
            Some(Player::X) => 1,
            None => 0,
        }
    }

    /// The mark in cell `position`, if it holds one.
    pub fn cell(&self, position: u8) -> (mark: Option<Player>)
        requires
            position < 9,
        ensures
            mark == self@[position as int],
    {
        self.fields[position as usize]
    }

    /// Whether `position` is an empty cell of the board.
    pub fn is_available(&self, position: u8) -> (open: bool)
        ensures
            open == vacant(self@, position as int),
    {
        position < 9 && self.fields[position as usize].is_none()
    }

    /// Where `position` stands in the list of moves.
    fn position_of(&self, position: u8) -> (index: usize)
        requires
            self.wf(),
            vacant(self@, position as int),
        ensures
            index < self.moves().len(),
            self.moves()[index as int] == position,
            index == self.moves().index_of(position),
    {
        let mut index: usize = 0;
        assert(self.moves().contains(position));
        while self.available_fields[index] != position
            invariant
                index < self.available_fields.len(),
                exists|j: int|
                    index <= j < self.available_fields.len() && self.available_fields[j]
                        == position,
            decreases self.available_fields.len() - index,
        {
            index += 1;
        }
        proof {
            let first = self.moves().index_of(position);
            assert(self.moves()[first] == position);
        }
        index
    }
}

/// A legal move leaves a list of moves that again names every empty cell once.
proof fn lemma_act_keeps_wf(b: Board, moves: Seq<u8>, index: int, p: Player)
    requires
        b.len() == 9,
        moves.len() == vacancies(b),
        moves.no_duplicates(),
        forall|j: int| 0 <= j < moves.len() ==> vacant(b, #[trigger] moves[j] as int),
        forall|i: int| #[trigger] vacant(b, i) ==> moves.contains(i as u8),
        0 <= index < moves.len(),
    ensures
        ({
            let after = place(b, moves[index] as int, p);
            let rest = swap_removed(moves, index);
            &&& after.len() == 9
            &&& rest.len() == vacancies(after)
            &&& rest.no_duplicates()
            &&& forall|j: int| 0 <= j < rest.len() ==> vacant(after, #[trigger] rest[j] as int)
            &&& forall|i: int| #[trigger] vacant(after, i) ==> rest.contains(i as u8)
        }),
{
    let after = place(b, moves[index] as int, p);
    let rest = swap_removed(moves, index);
    let last = moves.len() - 1;
    assert(vacant(b, moves[index] as int));
    assert forall|j: int| 0 <= j < rest.len() implies vacant(after, #[trigger] rest[j] as int) by {
        if j == index {
            assert(vacant(b, moves[last] as int));
        } else {
            assert(vacant(b, moves[j] as int));
        }
    }
    assert forall|i: int| #[trigger] vacant(after, i) implies rest.contains(i as u8) by {
        assert(vacant(b, i));
        let j = choose|j: int| 0 <= j < moves.len() && moves[j] == i as u8;
        if j == last {
            assert(rest[index] == i as u8);
        } else {
            assert(rest[j] == i as u8);
        }
    }
}

impl Clone for State {
    fn clone(&self) -> (copy: State)
        ensures
            copy@ == self@,
            copy.moves() == self.moves(),
    {
        State { fields: self.fields, available_fields: self.available_fields.clone() }
    }
}

impl PartialEq for State {
    /// Two states are equal when their cells are: the order of the moves
    /// does not count.
    fn eq(&self, other: &State) -> (same: bool) {
        let mut idx: usize = 0;
        while idx < 9
            invariant
                idx <= 9,
                forall|i: int| 0 <= i < idx ==> self@[i] == other@[i],
            decreases 9 - idx,
        {
            let same = match (self.fields[idx], other.fields[idx]) {
                (None, None) => true,
                (Some(p), Some(q)) => p == q,
                _ => false,
            };
            if !same {
                return false;
            }
            idx += 1;
        }
        assert(self@ =~= other@);
        true
    }
}

impl Eq for State {

}

impl PartialEqSpecImpl for State {
    open spec fn obeys_eq_spec() -> bool {
        true
    }

    open spec fn eq_spec(&self, other: &State) -> bool {
        self@ == other@
    }
}

/// The rules of the game.
pub struct Game;

/// `after` is what `before` becomes when `mover` marks the empty cell
/// `position`.
pub open spec fn moved(before: State, after: State, mover: Player, position: u8) -> bool {
    &&& vacant(before@, position as int)
    &&& after@ == place(before@, position as int, mover)
    &&& after.moves() == swap_removed(before.moves(), before.moves().index_of(position))
}

/// The game has gone from the empty board through `states` by the moves of
/// `course`: every move was made in an open position by the player whose
/// turn it was, `player_1` with `X` and `player_2` with `O`, and was one
/// that this player offers there.
pub open spec fn played<A: players::Player + ?Sized, B: players::Player + ?Sized>(
    player_1: &A,
    player_2: &B,
    states: Seq<State>,
    course: Seq<u8>,
) -> bool {
    &&& states.len() == course.len() + 1
    &&& states[0]@ == empty_board()
    &&& states[0].moves() == seq![0u8, 1, 2, 3, 4, 5, 6, 7, 8]
    &&& forall|k: int|
        0 <= k < course.len() ==> {
            &&& status_of((#[trigger] states[k])@) is OnGoing
            &&& moved(states[k], states[k + 1], to_move(states[k]@), course[k])
            &&& if to_move(states[k]@) == Player::X {
                player_1.offers(&states[k], course[k])
            } else {
                player_2.offers(&states[k], course[k])
            }
        }
}

/// A game between the two players can end with `winner`: it goes through
/// states that the players' moves lead to, the last of which shows this
/// result.
pub open spec fn can_end<A: players::Player + ?Sized, B: players::Player + ?Sized>(
    player_1: &A,
    player_2: &B,
    winner: Option<Player>,
) -> bool {
    exists|states: Seq<State>, course: Seq<u8>|
        #[trigger] played(player_1, player_2, states, course) && reachable(states.last()@)
            && status_of(states.last()@) == Status::Finished(winner)
}

impl Game {
    /// Plays one game, `player_1` with `X` and moving first, `player_2` with
    /// `O`, and returns the winner, or `None` for a draw. A player whose move
    /// is refused is asked again.
    ///
    /// The game starts on the empty board and goes on by moves that the
    /// players offer, each in its turn, until it comes to a position that
    /// shows the result. A player that only makes best moves gets at least
    /// what the game is worth to its side, whatever the other does.
    pub fn play<A: players::Player + ?Sized, B: players::Player + ?Sized>(
        player_1: &A,
        player_2: &B,
    ) -> (winner: Option<Player>)
        requires
            players::prepared(player_1, Player::X),
            players::prepared(player_2, Player::O),
        ensures
            can_end(player_1, player_2, winner),
            players::perfect(player_1, Player::X) ==> utility(winner, Player::X) >= game_value(),
            players::perfect(player_2, Player::O) ==> utility(winner, Player::X) <= game_value(),
    {
        let mut current_player = Player::X;
        let mut board = State::new();
        let ghost mut states: Seq<State> = seq![board];
        let ghost mut course: Seq<u8> = Seq::empty();
        loop
            invariant
                played(player_1, player_2, states, course),
                states.last() == board,
                players::prepared(player_1, Player::X),
                players::prepared(player_2, Player::O),
                board.wf(),
                reachable(board@),
                status_of(board@) is OnGoing,
                current_player == to_move(board@),
                players::perfect(player_1, Player::X) ==> value(board@, Player::X, current_player)
                    >= game_value(),
                players::perfect(player_2, Player::O) ==> value(board@, Player::X, current_player)
                    <= game_value(),
            decreases board.moves().len(),
        {
            let player = current_player;
            current_player = current_player.next_player();
            let ghost before = board@;
            let action = match player {
                Player::X => player_1.play(&board, player),
                Player::O => player_2.play(&board, player),
            };
            if Game::act(player, action, &mut board).is_err() {
                // The same player tries again
                current_player = current_player.next_player();
                continue ;
            }
            proof {
                lemma_follows_step(empty_board(), before, action as int);
                lemma_turn_passes(before, action as int, player);
                lemma_move_value(before, Player::X, action as int);
                lemma_played_on(player_1, player_2, states, course, board, action);
                states = states.push(board);
                course = course.push(action);
            }
            if let Status::Finished(winner) = Game::status(&board) {
                return winner;
            }
        }
    }

    /// Whether the game is over, and who won it.
    pub fn status(state: &State) -> (status: Status)
        requires
            state.wf(),
        ensures
            status == status_of(state@),
    {
        let winner = Game::winner(state);
        if winner.is_some() {
            Status::Finished(winner)
        } else if state.available_fields.is_empty() {
            Status::Finished(None)
        } else {
            Status::OnGoing
        }
    }

    /// The moves open in `state`, in the order in which the state lists them.
    pub fn available_moves(state: &State) -> (moves: &Vec<u8>)
        ensures
            moves@ == state.moves(),
    {
        &state.available_fields
    }

    /// Makes the move of `player` at `position`, or refuses it and leaves
    /// `state` as it was.
    pub fn act(player: Player, position: u8, state: &mut State) -> (done: Result<(), MoveError>)
        requires
            old(state).wf(),
        ensures
            final(state).wf(),
            match done {
                Ok(_) => {
                    &&& vacant(old(state)@, position as int)
                    &&& final(state)@ == place(old(state)@, position as int, player)
                    &&& final(state).moves() == swap_removed(
                        old(state).moves(),
                        old(state).moves().index_of(position),
                    )
                },
                Err(MoveError::OutOfBound) => {
                    &&& position >= 9
                    &&& *final(state) == *old(state)
                },
                Err(MoveError::NonEmptyField) => {
                    &&& position < 9
                    &&& old(state)@[position as int] is Some
                    &&& *final(state) == *old(state)
                },
            },
    {
        state.act(player, position)
    }

    /// The player who holds a row, a column or a diagonal, if one does.
    pub fn winner(state: &State) -> (winner: Option<Player>)
        ensures
            winner == winner_of(state@),
    {
        if Game::holds_line(&state.fields, Player::X) {
            Some(Player::X)
        } else if Game::holds_line(&state.fields, Player::O) {
            Some(Player::O)
        } else {
            None
        }
    }

    /// Whether `player` holds one of the eight lines.
    fn holds_line(fields: &[Option<Player>; 9], player: Player) -> (held: bool)
        ensures
            held == wins(fields@, player),
    {
        Game::aligned(fields, player, 0, 1, 2) || Game::aligned(fields, player, 3, 4, 5)
            || Game::aligned(fields, player, 6, 7, 8) || Game::aligned(fields, player, 0, 3, 6)
            || Game::aligned(fields, player, 1, 4, 7) || Game::aligned(fields, player, 2, 5, 8)
            || Game::aligned(fields, player, 0, 4, 8) || Game::aligned(fields, player, 2, 4, 6)
    }

    /// Whether the three cells all hold the mark of `player`.
    fn aligned(fields: &[Option<Player>; 9], player: Player, i: usize, j: usize, k: usize) -> (held:
        bool)
        requires
            i < 9,
            j < 9,
            k < 9,
        ensures
            held == line(fields@, player, i as int, j as int, k as int),
    {
        Game::marked(fields[i], player) && Game::marked(fields[j], player) && Game::marked(
            fields[k],
            player,
        )
    }

    /// Whether the cell holds the mark of `player`.
    fn marked(cell: Option<Player>, player: Player) -> (held: bool)
        ensures
            held == (cell == Some(player)),
    {
        match cell {
            Some(mark) => mark == player,
            None => false,
        }
    }
}

/// A game goes on by one more move of the player whose turn it is.
proof fn lemma_played_on<A: players::Player + ?Sized, B: players::Player + ?Sized>(
    player_1: &A,
    player_2: &B,
    states: Seq<State>,
    course: Seq<u8>,
    next: State,
    position: u8,
)
    requires
        played(player_1, player_2, states, course),
        status_of(states.last()@) is OnGoing,
        moved(states.last(), next, to_move(states.last()@), position),
        if to_move(states.last()@) == Player::X {
            player_1.offers(&states.last(), position)
        } else {
            player_2.offers(&states.last(), position)
        },
    ensures
        played(player_1, player_2, states.push(next), course.push(position)),
{
    let longer = states.push(next);
    let line = course.push(position);
    assert forall|k: int| 0 <= k < line.len() implies {
        &&& status_of((#[trigger] longer[k])@) is OnGoing
        &&& moved(longer[k], longer[k + 1], to_move(longer[k]@), line[k])
        &&& if to_move(longer[k]@) == Player::X {
            player_1.offers(&longer[k], line[k])
        } else {
            player_2.offers(&longer[k], line[k])
        }
    } by {
        if k < course.len() {
            assert(longer[k] == states[k]);
            assert(longer[k + 1] == states[k + 1]);
        } else {
            assert(longer[k] == states.last());
        }
    }
}

/// Every cell of a state is either marked or listed among its moves: the
/// marked cells and the moves are nine together.
pub proof fn lemma_cells_accounted(state: State)
    requires
        state.wf(),
    ensures
        marks(state@) + state.moves().len() == 9,
{
}

/// Three aligned marks end the game in favour of their holder, however many
/// cells are still empty. Where both players hold a line, the game counts
/// for `X`.
pub proof fn lemma_line_wins(b: Board, p: Player)
    requires
        wins(b, p),
        p == Player::O ==> !wins(b, Player::X),
    ensures
        status_of(b) == Status::Finished(Some(p)),
{
}

/// No two boards share a code.
pub proof fn lemma_encoding_injective(a: Board, b: Board)
    requires
        a.len() == 9,
        b.len() == 9,
        encoding(a) == encoding(b),
    ensures
        a == b,
{
    let a7 = trit(a[7]) + 3 * trit(a[8]);
    let b7 = trit(b[7]) + 3 * trit(b[8]);
    let a6 = trit(a[6]) + 3 * a7;
    let b6 = trit(b[6]) + 3 * b7;
    let a5 = trit(a[5]) + 3 * a6;
    let b5 = trit(b[5]) + 3 * b6;
    let a4 = trit(a[4]) + 3 * a5;
    let b4 = trit(b[4]) + 3 * b5;
    let a3 = trit(a[3]) + 3 * a4;
    let b3 = trit(b[3]) + 3 * b4;
    let a2 = trit(a[2]) + 3 * a3;
    let b2 = trit(b[2]) + 3 * b3;
    let a1 = trit(a[1]) + 3 * a2;
    let b1 = trit(b[1]) + 3 * b2;
    assert(encoding(a) == trit(a[0]) + 3 * a1);
    assert(encoding(b) == trit(b[0]) + 3 * b1);
    lemma_peel(a[0], b[0], a1 as int, b1 as int);
    lemma_peel(a[1], b[1], a2 as int, b2 as int);
    lemma_peel(a[2], b[2], a3 as int, b3 as int);
    lemma_peel(a[3], b[3], a4 as int, b4 as int);
    lemma_peel(a[4], b[4], a5 as int, b5 as int);
    lemma_peel(a[5], b[5], a6 as int, b6 as int);
    lemma_peel(a[6], b[6], a7 as int, b7 as int);
    lemma_peel(a[7], b[7], trit(a[8]) as int, trit(b[8]) as int);
    assert(trit(a[8]) == trit(b[8]));
    assert(a =~= b);
}

/// Where a digit on top of three times a number gives the same as another
/// digit on top of three times another number, the digits agree and so do
/// the numbers.
proof fn lemma_peel(x: Option<Player>, y: Option<Player>, p: int, q: int)
    requires
        trit(x) + 3 * p == trit(y) + 3 * q,
    ensures
        x == y,
        p == q,
{
}

/// The partial sum of `vacancies` over the cells below `k`.
spec fn gaps_below(b: Board, k: int) -> nat
    decreases k,
{
    if k <= 0 {
        0
    } else {
        gaps_below(b, k - 1) + gap(b[k - 1])
    }
}

/// `vacant_below(b, k)` lists each empty cell below `k` once, in ascending order.
proof fn lemma_vacant_below(b: Board, k: int)
    requires
        b.len() == 9,
        0 <= k <= 9,
    ensures
        vacant_below(b, k).len() == gaps_below(b, k),
        vacant_below(b, k).no_duplicates(),
        forall|j: int|
            0 <= j < vacant_below(b, k).len() ==> {
                &&& vacant(b, #[trigger] vacant_below(b, k)[j] as int)
                &&& vacant_below(b, k)[j] < k
            },
        forall|i: int| #[trigger] vacant(b, i) && i < k ==> vacant_below(b, k).contains(i as u8),
        k == 9 ==> gaps_below(b, k) == vacancies(b),
    decreases k,
{
    if k > 0 {
        lemma_vacant_below(b, k - 1);
        let prev = vacant_below(b, k - 1);
        let cur = vacant_below(b, k);
        assert forall|i: int| #[trigger] vacant(b, i) && i < k implies cur.contains(i as u8) by {
            if i < k - 1 {
                let j = choose|j: int| 0 <= j < prev.len() && prev[j] == i as u8;
                assert(cur[j] == i as u8);
            } else {
                assert(cur[cur.len() - 1] == i as u8);
            }
        }
        if k == 9 {
            reveal_with_fuel(gaps_below, 10);
        }
    }
}

} // verus!
