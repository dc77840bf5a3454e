//! The game tree: what a position is worth under perfect play, and which
//! positions a game can reach.

use crate::game::{
    empty_board, place, status_of, vacancies, vacant, wins, Board, Player, Status,
};
use vstd::prelude::*;

verus! {

/// What an ended game is worth to `me`: 1 for a win, -1 for a loss, 0 for a draw.
pub open spec fn utility(winner: Option<Player>, me: Player) -> int {
    match winner {
        Some(w) => if w == me {
            1
        } else {
            -1
        },
        None => 0,
    }
}

/// What the position is worth to `me` when `mover` is to move and both sides
/// play perfectly from here on: the worth of the outcome where the game is
/// over, else the best of the values after each legal move, which is the
/// greatest where `me` moves and the least where the opponent does.
pub open spec fn value(b: Board, me: Player, mover: Player) -> int
    decreases vacancies(b), 1int,
{
    match status_of(b) {
        Status::Finished(winner) => utility(winner, me),
        Status::OnGoing => if mover == me {
            if exists|i: int| #[trigger] vacant(b, i) && after(b, me, mover, i) == 1 {
                1
            } else if exists|i: int| #[trigger] vacant(b, i) && after(b, me, mover, i) == 0 {
                0
            } else {
                -1
            }
        } else {
            if exists|i: int| #[trigger] vacant(b, i) && after(b, me, mover, i) == -1 {
                -1
            } else if exists|i: int| #[trigger] vacant(b, i) && after(b, me, mover, i) == 0 {
                0
            } else {
                1
            }
        },
    }
}

/// The value for `me` of the position that `mover` leaves by marking the
/// empty cell `i`.
pub open spec fn after(b: Board, me: Player, mover: Player, i: int) -> int
    decreases vacancies(b), 0int,
{
    if b.len() == 9 && vacant(b, i) {
        value(place(b, i, mover), me, mover.other())
    } else {
        0
    }
}

/// No move does better for `mover` than one worth `v`: none is worth more to
/// `me` where `me` moves, none less where the opponent does.
pub open spec fn unbeaten(b: Board, me: Player, mover: Player, v: int) -> bool {
    forall|i: int| vacant(b, i) ==> no_better(me, mover, #[trigger] after(b, me, mover, i), v)
}

/// A move worth `reply` is no better for `mover` than one worth `v`.
pub open spec fn no_better(me: Player, mover: Player, reply: int, v: int) -> bool {
    if mover == me {
        reply <= v
    } else {
        reply >= v
    }
}

/// Marking cell `i` is a best move for `mover`.
pub open spec fn optimal(b: Board, me: Player, mover: Player, i: int) -> bool {
    vacant(b, i) && after(b, me, mover, i) == value(b, me, mover)
}

/// The move at index `j` of `moves` is a best one, and none before it is.
pub open spec fn earliest_best(
    b: Board,
    moves: Seq<u8>,
    me: Player,
    mover: Player,
    j: int,
) -> bool {
    &&& 0 <= j < moves.len()
    &&& optimal(b, me, mover, moves[j] as int)
    &&& forall|k: int| 0 <= k < j ==> !optimal(b, me, mover, #[trigger] moves[k] as int)
}

/// Of the first `n` moves, the one at index `j` is as good as any, and the
/// first that is.
pub open spec fn leads(
    b: Board,
    moves: Seq<u8>,
    me: Player,
    mover: Player,
    n: int,
    j: int,
) -> bool {
    &&& 0 <= j < n <= moves.len()
    &&& forall|k: int|
        0 <= k < n ==> no_better(
            me,
            mover,
            after(b, me, mover, #[trigger] moves[k] as int),
            after(b, me, mover, moves[j] as int),
        )
    &&& forall|k: int|
        0 <= k < j ==> after(b, me, mover, #[trigger] moves[k] as int) != after(
            b,
            me,
            mover,
            moves[j] as int,
        )
}

/// The most that a move can be worth to `mover`: a win of `me` where `me`
/// moves, a loss of `me` where the opponent does.
pub open spec fn limit(me: Player, mover: Player) -> int {
    if mover == me {
        1
    } else {
        -1
    }
}

/// The player whose turn it is, `X` having made the first move: `X` where
/// the number of empty cells is odd.
pub open spec fn to_move(b: Board) -> Player {
    if vacancies(b) % 2 == 1 {
        Player::X
    } else {
        Player::O
    }
}

/// A game that stands at `b` can come to stand at `d`: the players mark an
/// empty cell in turn, and nobody moves once the game is over.
pub open spec fn follows(b: Board, d: Board) -> bool
    decreases vacancies(b),
{
    d == b || (b.len() == 9 && status_of(b) is OnGoing && exists|i: int|
        #[trigger] vacant(b, i) && follows(place(b, i, to_move(b)), d))
}

/// A game that starts on the empty board can come to stand at `d`.
pub open spec fn reachable(d: Board) -> bool {
    follows(empty_board(), d)
}

/// What the game is worth to `X`, who opens it, when both sides play
/// perfectly from the first move on.
pub open spec fn game_value() -> int {
    value(empty_board(), Player::X, Player::X)
}

/// A value is a loss, a draw or a win.
pub proof fn lemma_value_range(b: Board, me: Player, mover: Player)
    ensures
        -1 <= value(b, me, mover) <= 1,
{
}

/// An open position has an empty cell.
pub proof fn lemma_open_cell(b: Board) -> (i: int)
    requires
        status_of(b) is OnGoing,
    ensures
        vacant(b, i),
{
    if b[0] is None {
        0
    } else if b[1] is None {
        1
    } else if b[2] is None {
        2
    } else if b[3] is None {
        3
    } else if b[4] is None {
        4
    } else if b[5] is None {
        5
    } else if b[6] is None {
        6
    } else if b[7] is None {
        7
    } else {
        8
    }
}

/// The value of an open position is attained by one of its moves and beaten
/// by none.
pub proof fn lemma_value_is_best(b: Board, me: Player, mover: Player)
    requires
        b.len() == 9,
        status_of(b) is OnGoing,
    ensures
        unbeaten(b, me, mover, value(b, me, mover)),
        exists|i: int| optimal(b, me, mover, i),
{
    assert forall|i: int| vacant(b, i) implies no_better(
        me,
        mover,
        #[trigger] after(b, me, mover, i),
        value(b, me, mover),
    ) by {
        lemma_value_range(place(b, i, mover), me, mover.other());
    }
    let v = value(b, me, mover);
    if mover == me && v == -1 || mover != me && v == 1 {
        let i = lemma_open_cell(b);
        lemma_value_range(place(b, i, mover), me, mover.other());
        assert(optimal(b, me, mover, i));
    } else {
        let i = choose|i: int| #[trigger] vacant(b, i) && after(b, me, mover, i) == v;
        assert(optimal(b, me, mover, i));
    }
}

/// No move of an open position leads the player to more than a best move
/// does, once the opponent has answered as well as it can.
pub proof fn lemma_best_move_unbeaten(b: Board, me: Player, chosen: int, other: int)
    requires
        b.len() == 9,
        status_of(b) is OnGoing,
        optimal(b, me, me, chosen),
        vacant(b, other),
    ensures
        after(b, me, me, other) <= after(b, me, me, chosen),
{
    lemma_value_is_best(b, me, me);
}

/// A value that one move attains and none beats is the value of the position.
pub proof fn lemma_best_is_value(b: Board, me: Player, mover: Player, i: int)
    requires
        b.len() == 9,
        status_of(b) is OnGoing,
        vacant(b, i),
        unbeaten(b, me, mover, after(b, me, mover, i)),
    ensures
        value(b, me, mover) == after(b, me, mover, i),
{
    lemma_value_range(place(b, i, mover), me, mover.other());
    lemma_value_is_best(b, me, mover);
    let best = choose|best: int| optimal(b, me, mover, best);
    assert(optimal(b, me, mover, best));
}

/// A move that leads among all the moves of an open position, or among the
/// first of them with a worth that nothing can exceed, is the earliest best
/// move, and its worth is the value of the position.
pub proof fn lemma_leader_is_best(
    b: Board,
    moves: Seq<u8>,
    me: Player,
    mover: Player,
    n: int,
    j: int,
)
    requires
        b.len() == 9,
        status_of(b) is OnGoing,
        forall|k: int| 0 <= k < moves.len() ==> vacant(b, #[trigger] moves[k] as int),
        forall|i: int| #[trigger] vacant(b, i) ==> moves.contains(i as u8),
        leads(b, moves, me, mover, n, j),
        n == moves.len() || after(b, me, mover, moves[j] as int) == limit(me, mover),
    ensures
        value(b, me, mover) == after(b, me, mover, moves[j] as int),
        earliest_best(b, moves, me, mover, j),
{
    let worth = after(b, me, mover, moves[j] as int);
    assert forall|i: int| vacant(b, i) implies no_better(
        me,
        mover,
        #[trigger] after(b, me, mover, i),
        worth,
    ) by {
        if n == moves.len() {
            let k = moves.index_of(i as u8);
            assert(moves.contains(i as u8));
            assert(moves[k] == i as u8);
        } else {
            lemma_value_range(place(b, i, mover), me, mover.other());
        }
    }
    lemma_best_is_value(b, me, mover, moves[j] as int);
}

/// The turn passes to the other player with every move.
pub proof fn lemma_turn_passes(b: Board, i: int, p: Player)
    requires
        b.len() == 9,
        vacant(b, i),
    ensures
        vacancies(place(b, i, p)) == vacancies(b) - 1,
        to_move(place(b, i, p)) == to_move(b).other(),
{
}

/// What a game can come to is a board of nine cells, as what it started from.
pub proof fn lemma_follows_board(b: Board, d: Board)
    requires
        b.len() == 9,
        follows(b, d),
    ensures
        d.len() == 9,
    decreases vacancies(b),
{
    if d != b {
        let i = choose|i: int| #[trigger] vacant(b, i) && follows(place(b, i, to_move(b)), d);
        lemma_follows_board(place(b, i, to_move(b)), d);
    }
}

/// A game can come to whatever it can come to after one more move.
pub proof fn lemma_follows_step(b: Board, d: Board, i: int)
    requires
        b.len() == 9,
        follows(b, d),
        status_of(d) is OnGoing,
        vacant(d, i),
    ensures
        follows(b, place(d, i, to_move(d))),
    decreases vacancies(b),
{
    let next = place(d, i, to_move(d));
    if d == b {
        assert(follows(next, next));
    } else {
        let c = choose|c: int| #[trigger] vacant(b, c) && follows(place(b, c, to_move(b)), d);
        lemma_follows_step(place(b, c, to_move(b)), d, i);
    }
}

/// What a move does to the value of an open position: nothing where it is a
/// best move, and nothing in favour of the player who makes it where it is
/// not.
pub proof fn lemma_move_value(b: Board, me: Player, i: int)
    requires
        b.len() == 9,
        status_of(b) is OnGoing,
        vacant(b, i),
    ensures
        value(place(b, i, to_move(b)), me, to_move(b).other()) == after(b, me, to_move(b), i),
        no_better(me, to_move(b), after(b, me, to_move(b), i), value(b, me, to_move(b))),
        optimal(b, me, to_move(b), i) ==> value(place(b, i, to_move(b)), me, to_move(b).other())
            == value(b, me, to_move(b)),
{
    lemma_value_is_best(b, me, to_move(b));
}

/// What a game has come to after at least one move arose by the last move
/// from an open position that the game had come to before.
pub proof fn lemma_last_move(b: Board, d: Board) -> (last: (Board, int))
    requires
        b.len() == 9,
        follows(b, d),
        d != b,
    ensures
        follows(b, last.0),
        last.0.len() == 9,
        status_of(last.0) is OnGoing,
        vacant(last.0, last.1),
        d == place(last.0, last.1, to_move(last.0)),
    decreases vacancies(b),
{
    let c = choose|c: int| #[trigger] vacant(b, c) && follows(place(b, c, to_move(b)), d);
    let child = place(b, c, to_move(b));
    if d == child {
        (b, c)
    } else {
        lemma_last_move(child, d)
    }
}

/// In a game the two players never both hold a line: the game is over as
/// soon as one of them does.
pub proof fn lemma_one_winner(d: Board)
    requires
        reachable(d),
    ensures
        !(wins(d, Player::X) && wins(d, Player::O)),
{
    if d != empty_board() {
        let (before, i) = lemma_last_move(empty_board(), d);
        let idle = to_move(before).other();
        assert(!wins(before, idle));
        assert forall|k: int| 0 <= k < 9 implies (d[k] == Some(idle) <==> before[k] == Some(
            idle,
        )) by {}
        assert(!wins(d, idle));
    }
}

/// In a game, three aligned marks end the game in favour of their holder,
/// however many cells are still empty.
pub proof fn lemma_line_ends_game(d: Board, p: Player)
    requires
        reachable(d),
        wins(d, p),
    ensures
        status_of(d) == Status::Finished(Some(p)),
{
    lemma_one_winner(d);
}

} // verus!
