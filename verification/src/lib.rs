//! Tic-tac-toe with players that learn it: the rules of the game, an
//! exhaustive minimax search that plays it perfectly, and a harness that
//! plays batches of games between two players and tallies the outcomes.

pub mod commands;
pub mod game;
pub mod players;
pub mod tree;

use vstd::prelude::*;
use vstd::string::StringExecFns;

verus! {

/// Why a learned player could not be stored or brought back.
#[derive(Debug)]
pub enum ReLearnError {
    SaveAgentError(String),
    LoadAgentError(String),
}

impl ReLearnError {
    /// The message for the user, as a sequence of characters.
    pub open spec fn message_of(&self) -> Seq<char> {
        match self {
            ReLearnError::SaveAgentError(error_msg) => "Could not save the learned agent. Err: "@
                + error_msg@,
            ReLearnError::LoadAgentError(error_msg) => "Could not load the agent. Err: "@
                + error_msg@,
        }
    }

    /// The message for the user.
    pub fn message(&self) -> (text: String)
        ensures
            text@ == self.message_of(),
    {
        match self {
            ReLearnError::SaveAgentError(error_msg) => String::from_str(
                "Could not save the learned agent. Err: ",
            ).concat(error_msg.as_str()),
            ReLearnError::LoadAgentError(error_msg) => String::from_str(
                "Could not load the agent. Err: ",
            ).concat(error_msg.as_str()),
        }
    }
}

} // verus!
