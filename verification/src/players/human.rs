//! A player at the console.

use crate::game::{drawing, State};
use vstd::prelude::*;
use vstd::string::StringExecFns;

verus! {

/// A person who is shown the board and asked for a move. What is shown is
/// made here; showing it and reading the answer is left to the program.
pub struct HumanPlayer;

/// The digit of a move.
pub open spec fn digit_text(position: u8) -> Seq<char> {
    if position == 0 {
        "0"@
    } else if position == 1 {
        "1"@
    } else if position == 2 {
        "2"@
    } else if position == 3 {
        "3"@
    } else if position == 4 {
        "4"@
    } else if position == 5 {
        "5"@
    } else if position == 6 {
        "6"@
    } else if position == 7 {
        "7"@
    } else {
        "8"@
    }
}

/// The first `n` moves, with a comma and a blank between each two.
pub open spec fn listed(moves: Seq<u8>, n: int) -> Seq<char>
    decreases n,
{
    if n <= 0 {
        Seq::empty()
    } else if n == 1 {
        digit_text(moves[0])
    } else {
        listed(moves, n - 1) + ", "@ + digit_text(moves[n - 1])
    }
}

/// What the player is shown: the board, then the list of the open moves in
/// square brackets, each on lines of their own.
pub open spec fn prompt_text(b: Seq<Option<crate::game::Player>>, moves: Seq<u8>) -> Seq<char> {
    drawing(b) + "\n"@ + "Available moves: ["@ + listed(moves, moves.len() as int) + "]\n"@
}

impl HumanPlayer {
    /// What the player is shown before it is asked for a move.
    pub fn prompt(state: &State) -> (text: String)
        requires
            state.wf(),
        ensures
            text@ == prompt_text(state@, state.moves()),
    {
        let moves = crate::game::Game::available_moves(state);
        let mut list = String::new();
        let mut i: usize = 0;
        while i < moves.len()
            invariant
                i <= moves.len(),
                list@ == listed(moves@, i as int),
            decreases moves.len() - i,
        {
            if i > 0 {
                list.append(", ");
            }
            list.append(HumanPlayer::digit(moves[i]));
            proof {
                assert(list@ =~= listed(moves@, i + 1));
            }
            i += 1;
        }
        let text = state.render().concat("\n").concat("Available moves: [");
        text.concat(list.as_str()).concat("]\n")
    }

    /// The digit of a move.
    fn digit(position: u8) -> (text: &'static str)
        ensures
            text@ == digit_text(position),
    {
        if position == 0 {
            "0"
        } else if position == 1 {
            "1"
        } else if position == 2 {
            "2"
        } else if position == 3 {
            "3"
        } else if position == 4 {
            "4"
        } else if position == 5 {
            "5"
        } else if position == 6 {
            "6"
        } else if position == 7 {
            "7"
        } else {
            "8"
        }
    }
}

} // verus!
