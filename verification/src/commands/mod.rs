//! What the program can be asked to do.

pub mod play;

pub use play::{play_games, GamesResult};
