//! What a table of moves holds: which positions it has a move for, whether
//! the moves are best moves, and how it is written out and read back.

use crate::game::{
    encoding, lemma_encoding_injective, place, status_of, swap_removed, vacant, Board, Player,
};
use crate::tree::{earliest_best, follows, lemma_follows_board, optimal, to_move};
use vstd::prelude::*;

verus! {

/// The table names an empty cell for the position `b`.
pub open spec fn answers(table: Map<u16, u8>, b: Board) -> bool {
    let code = encoding(b) as u16;
    table.contains_key(code) && vacant(b, table[code] as int)
}

/// The table names a best move of the player whose turn it is in `d`, the
/// moves being valued as `me` values them.
pub open spec fn taught(table: Map<u16, u8>, d: Board, me: Player) -> bool {
    let code = encoding(d) as u16;
    table.contains_key(code) && optimal(d, me, to_move(d), table[code] as int)
}

/// `code` stands for an open position that a game at `b` can come to.
pub open spec fn touched(b: Board, code: u16) -> bool {
    exists|d: Board| #[trigger] follows(b, d) && status_of(d) is OnGoing && encoding(d) == code
}

/// Both tables say the same of `code`.
pub open spec fn same_entry(a: Map<u16, u8>, b: Map<u16, u8>, code: u16) -> bool {
    a.contains_key(code) == b.contains_key(code) && (a.contains_key(code) ==> a[code] == b[code])
}

/// The table `now` names a best move for every open position that a game at
/// `b` can come to, and says of every other code what the table `start` says.
pub open spec fn learned(now: Map<u16, u8>, start: Map<u16, u8>, b: Board, me: Player) -> bool {
    &&& forall|d: Board| #[trigger] follows(b, d) && status_of(d) is OnGoing ==> taught(now, d, me)
    &&& forall|code: u16| !touched(b, code) ==> #[trigger] same_entry(now, start, code)
}

/// The table after a search of everything below the position with the cells
/// `b` and the moves `moves`, in which `mover` is to move: what the search
/// below each move has written, one move after the other in the order of
/// `moves`, and then the earliest best move for `b` itself. Nothing is
/// written for a position in which the game is over.
#[verifier::opaque]
pub open spec fn searched(
    table: Map<u16, u8>,
    b: Board,
    moves: Seq<u8>,
    me: Player,
    mover: Player,
) -> Map<u16, u8>
    decreases moves.len(), 1int, 0int,
{
    if status_of(b) is OnGoing {
        searched_below(table, b, moves, me, mover, moves.len() as int).insert(
            encoding(b) as u16,
            moves[first_best(b, moves, me, mover)],
        )
    } else {
        table
    }
}

/// The table after the search below each of the first `n` moves. Each of
/// these searches starts from what the move leaves: its cell is marked, and
/// in the list of moves the last one has taken its place.
#[verifier::opaque]
pub open spec fn searched_below(
    table: Map<u16, u8>,
    b: Board,
    moves: Seq<u8>,
    me: Player,
    mover: Player,
    n: int,
) -> Map<u16, u8>
    decreases moves.len(), 0int, n,
{
    if 0 < n <= moves.len() {
        searched(
            searched_below(table, b, moves, me, mover, n - 1),
            place(b, moves[n - 1] as int, mover),
            swap_removed(moves, n - 1),
            me,
            mover.other(),
        )
    } else {
        table
    }
}

/// The index in `moves` of the earliest best move.
pub open spec fn first_best(b: Board, moves: Seq<u8>, me: Player, mover: Player) -> int {
    choose|j: int| earliest_best(b, moves, me, mover, j)
}

/// `list` holds the entries of the table whose codes can stand for a board,
/// each once, the codes ascending.
pub open spec fn listing(table: Map<u16, u8>, list: Seq<(u16, u8)>) -> bool {
    &&& forall|i: int|
        0 <= i < list.len() ==> {
            &&& (#[trigger] list[i]).0 < 19683
            &&& table.contains_key(list[i].0)
            &&& table[list[i].0] == list[i].1
        }
    &&& forall|i: int, j: int|
        0 <= i < j < list.len() ==> (#[trigger] list[i]).0 < (#[trigger] list[j]).0
    &&& forall|code: u16|
        code < 19683 && #[trigger] table.contains_key(code) ==> exists|i: int|
            0 <= i < list.len() && (#[trigger] list[i]).0 == code
}

/// The table that holds the entries of `list`. Where a code comes twice, its
/// last entry counts.
pub open spec fn tabled(list: Seq<(u16, u8)>) -> Map<u16, u8>
    decreases list.len(),
{
    if list.len() == 0 {
        Map::empty()
    } else {
        tabled(list.drop_last()).insert(list.last().0, list.last().1)
    }
}

/// A game at `cells` can come to `d` by way of one of the first `n` moves.
pub open spec fn below(cells: Board, moves: Seq<u8>, n: int, d: Board) -> bool {
    exists|k: int|
        0 <= k < n && #[trigger] follows(place(cells, moves[k] as int, to_move(cells)), d)
}

/// `code` stands for an open position below one of the first `n` moves.
pub open spec fn covered(cells: Board, moves: Seq<u8>, n: int, code: u16) -> bool {
    exists|d: Board|
        #[trigger] below(cells, moves, n, d) && status_of(d) is OnGoing && encoding(d) == code
}

/// The table `now` names a best move for every open position below the
/// first `n` moves, and says of every other code what the table `start` says.
pub open spec fn learned_below(
    now: Map<u16, u8>,
    start: Map<u16, u8>,
    cells: Board,
    moves: Seq<u8>,
    n: int,
    me: Player,
) -> bool {
    &&& forall|d: Board|
        #[trigger] below(cells, moves, n, d) && status_of(d) is OnGoing ==> taught(now, d, me)
    &&& forall|code: u16|
        !covered(cells, moves, n, code) ==> #[trigger] same_entry(now, start, code)
}

/// A search of a position in which the game is over writes nothing.
pub proof fn lemma_searched_nothing(
    table: Map<u16, u8>,
    b: Board,
    moves: Seq<u8>,
    me: Player,
    mover: Player,
)
    ensures
        status_of(b) is Finished ==> searched(table, b, moves, me, mover) == table,
        searched_below(table, b, moves, me, mover, 0) == table,
{
    reveal(searched);
    reveal(searched_below);
}

/// The search below move `n` goes on from what the searches below the moves
/// before it have written.
pub proof fn lemma_searched_on(
    table: Map<u16, u8>,
    b: Board,
    moves: Seq<u8>,
    me: Player,
    mover: Player,
    n: int,
)
    requires
        0 <= n < moves.len(),
        moves.no_duplicates(),
    ensures
        searched_below(table, b, moves, me, mover, n + 1) == searched(
            searched_below(table, b, moves, me, mover, n),
            place(b, moves[n] as int, mover),
            swap_removed(moves, moves.index_of(moves[n])),
            me,
            mover.other(),
        ),
{
    reveal(searched);
    reveal(searched_below);
    assert(moves.index_of(moves[n]) == n) by {
        assert(moves[moves.index_of(moves[n])] == moves[n]);
    }
}

/// Once every move is searched, the earliest best move is written for the
/// position itself.
pub proof fn lemma_searched_all(
    table: Map<u16, u8>,
    b: Board,
    moves: Seq<u8>,
    me: Player,
    mover: Player,
    j: int,
)
    requires
        status_of(b) is OnGoing,
        earliest_best(b, moves, me, mover, j),
    ensures
        searched(table, b, moves, me, mover) == searched_below(
            table,
            b,
            moves,
            me,
            mover,
            moves.len() as int,
        ).insert(encoding(b) as u16, moves[j]),
{
    reveal(searched);
    reveal(searched_below);
    lemma_first_best(b, moves, me, mover, j);
}

/// Only one move is the earliest best move.
pub proof fn lemma_first_best(b: Board, moves: Seq<u8>, me: Player, mover: Player, j: int)
    requires
        earliest_best(b, moves, me, mover, j),
    ensures
        first_best(b, moves, me, mover) == j,
{
    let other = first_best(b, moves, me, mover);
    assert(earliest_best(b, moves, me, mover, other));
    if other < j {
        assert(!optimal(b, me, mover, moves[other] as int));
    } else if j < other {
        assert(!optimal(b, me, mover, moves[j] as int));
    }
}

/// A table that is built from the listing of another holds the same as the
/// other under every code that can stand for a board: what is written out
/// and read back is what was there.
pub proof fn lemma_listing_restores(table: Map<u16, u8>, list: Seq<(u16, u8)>)
    requires
        listing(table, list),
    ensures
        forall|code: u16| code < 19683 ==> #[trigger] same_entry(tabled(list), table, code),
{
    lemma_tabled(list);
    assert forall|code: u16| code < 19683 implies #[trigger] same_entry(
        tabled(list),
        table,
        code,
    ) by {
        if tabled(list).contains_key(code) {
            let i = choose|i: int| 0 <= i < list.len() && (#[trigger] list[i]).0 == code;
            assert(table.contains_key(list[i].0));
        }
        if table.contains_key(code) {
            let i = choose|i: int| 0 <= i < list.len() && (#[trigger] list[i]).0 == code;
            assert(tabled(list)[list[i].0] == list[i].1);
        }
    }
}

/// A table built from a list of ascending codes holds each entry of the
/// list, and nothing else.
pub proof fn lemma_tabled(list: Seq<(u16, u8)>)
    requires
        forall|i: int, j: int|
            0 <= i < j < list.len() ==> (#[trigger] list[i]).0 < (#[trigger] list[j]).0,
    ensures
        forall|code: u16|
            #[trigger] tabled(list).contains_key(code) <==> exists|i: int|
                0 <= i < list.len() && (#[trigger] list[i]).0 == code,
        forall|i: int| 0 <= i < list.len() ==> tabled(list)[(#[trigger] list[i]).0] == list[i].1,
    decreases list.len(),
{
    if list.len() > 0 {
        let front = list.drop_last();
        let last = list.len() - 1;
        lemma_tabled(front);
        assert forall|code: u16| #[trigger] tabled(list).contains_key(code) implies exists|i: int|
            0 <= i < list.len() && (#[trigger] list[i]).0 == code by {
            if code != list[last].0 {
                assert(tabled(front).contains_key(code));
                let i = choose|i: int| 0 <= i < front.len() && (#[trigger] front[i]).0 == code;
                assert(list[i].0 == code);
            } else {
                assert(list[last].0 == code);
            }
        }
        assert forall|code: u16|
            (exists|i: int|
                0 <= i < list.len() && (#[trigger] list[i]).0 == code) implies #[trigger] tabled(
            list,
        ).contains_key(code) by {
            let i = choose|i: int| 0 <= i < list.len() && (#[trigger] list[i]).0 == code;
            if i < last {
                assert(front[i].0 == code);
            }
        }
        assert forall|i: int| 0 <= i < list.len() implies tabled(list)[(#[trigger] list[i]).0]
            == list[i].1 by {
            if i < last {
                assert(front[i] == list[i]);
                assert(list[i].0 < list[last].0);
            }
        }
    }
}

/// Once the search below move `n` has come back, the table holds a best move
/// for every open position below the first `n + 1` moves, and is as it was
/// at the start for every other code.
pub proof fn lemma_child_learned(
    start: Map<u16, u8>,
    before: Map<u16, u8>,
    now: Map<u16, u8>,
    cells: Board,
    moves: Seq<u8>,
    n: int,
    me: Player,
)
    requires
        cells.len() == 9,
        0 <= n < moves.len(),
        forall|j: int| 0 <= j < moves.len() ==> vacant(cells, #[trigger] moves[j] as int),
        learned_below(before, start, cells, moves, n, me),
        learned(now, before, place(cells, moves[n] as int, to_move(cells)), me),
    ensures
        learned_below(now, start, cells, moves, n + 1, me),
{
    let child = place(cells, moves[n] as int, to_move(cells));
    assert forall|d: Board|
        #[trigger] below(cells, moves, n + 1, d) && status_of(d) is OnGoing implies taught(
        now,
        d,
        me,
    ) by {
        if !follows(child, d) {
            let k = choose|k: int|
                0 <= k < n + 1 && #[trigger] follows(
                    place(cells, moves[k] as int, to_move(cells)),
                    d,
                );
            assert(below(cells, moves, n, d));
            let code = encoding(d) as u16;
            if touched(child, code) {
                let known = choose|known: Board|
                    #[trigger] follows(child, known) && status_of(known) is OnGoing && encoding(
                        known,
                    ) == code;
                lemma_follows_board(child, known);
                lemma_follows_board(place(cells, moves[k] as int, to_move(cells)), d);
                lemma_encoding_injective(known, d);
            } else {
                assert(same_entry(now, before, code));
            }
        }
    }
    assert forall|code: u16| !covered(cells, moves, n + 1, code) implies #[trigger] same_entry(
        now,
        start,
        code,
    ) by {
        if touched(child, code) {
            let known = choose|known: Board|
                #[trigger] follows(child, known) && status_of(known) is OnGoing && encoding(known)
                    == code;
            assert(below(cells, moves, n + 1, known));
        }
        if covered(cells, moves, n, code) {
            let known = choose|known: Board|
                #[trigger] below(cells, moves, n, known) && status_of(known) is OnGoing
                    && encoding(known) == code;
            let k = choose|k: int|
                0 <= k < n && #[trigger] follows(
                    place(cells, moves[k] as int, to_move(cells)),
                    known,
                );
            assert(below(cells, moves, n + 1, known));
        }
        assert(same_entry(now, before, code));
        assert(same_entry(before, start, code));
    }
}

/// Once every move has been searched and the best of them is written down
/// for `cells`, the table holds a best move for every open position that
/// the game can come to, and is as it was at the start for every other code.
pub proof fn lemma_root_learned(
    start: Map<u16, u8>,
    before: Map<u16, u8>,
    now: Map<u16, u8>,
    cells: Board,
    moves: Seq<u8>,
    me: Player,
    action: u8,
)
    requires
        cells.len() == 9,
        status_of(cells) is OnGoing,
        forall|j: int| 0 <= j < moves.len() ==> vacant(cells, #[trigger] moves[j] as int),
        forall|i: int| #[trigger] vacant(cells, i) ==> moves.contains(i as u8),
        learned_below(before, start, cells, moves, moves.len() as int, me),
        optimal(cells, me, to_move(cells), action as int),
        now == before.insert(encoding(cells) as u16, action),
    ensures
        learned(now, start, cells, me),
{
    assert forall|d: Board| #[trigger] follows(cells, d) && status_of(d) is OnGoing implies taught(
        now,
        d,
        me,
    ) by {
        if d != cells {
            lemma_below_all(cells, moves, d);
            lemma_follows_board(cells, d);
            if encoding(d) == encoding(cells) {
                lemma_encoding_injective(d, cells);
            }
        }
    }
    assert forall|code: u16| !touched(cells, code) implies #[trigger] same_entry(
        now,
        start,
        code,
    ) by {
        assert(follows(cells, cells));
        if covered(cells, moves, moves.len() as int, code) {
            let known = choose|known: Board|
                #[trigger] below(cells, moves, moves.len() as int, known) && status_of(
                    known,
                ) is OnGoing && encoding(known) == code;
            let k = choose|k: int|
                0 <= k < moves.len() && #[trigger] follows(
                    place(cells, moves[k] as int, to_move(cells)),
                    known,
                );
            assert(vacant(cells, moves[k] as int));
            assert(follows(cells, known));
        }
        assert(same_entry(before, start, code));
    }
}

/// Whatever a game at an open position can come to, but the position itself,
/// lies below one of its moves.
pub proof fn lemma_below_all(cells: Board, moves: Seq<u8>, d: Board)
    requires
        forall|i: int| #[trigger] vacant(cells, i) ==> moves.contains(i as u8),
        follows(cells, d),
        d != cells,
    ensures
        below(cells, moves, moves.len() as int, d),
{
    let i = choose|i: int|
        #[trigger] vacant(cells, i) && follows(place(cells, i, to_move(cells)), d);
    let k = moves.index_of(i as u8);
    assert(moves.contains(i as u8));
    assert(follows(place(cells, moves[k] as int, to_move(cells)), d));
}

} // verus!
