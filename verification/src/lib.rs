use vstd::prelude::*;

pub mod board;
pub mod gameboard;
pub mod grid;
pub mod parse;
pub mod render;
pub mod session;
pub mod tile;

pub use board::Board;
pub use board::GameError;
pub use gameboard::GameBoard;
pub use session::Session;
pub use session::State;
pub use tile::Tile;

verus! {

/// Top-level handle for the game: it may hold one live session.
pub struct MineSweeper {
    pub session: Option<Session>,
}

impl MineSweeper {
    pub fn new() -> (r: Self)
        ensures
            r.session is None,
    {
        Self { session: None }
    }

    /// Reserved entry point for starting a session at a given mine level;
    /// it leaves the handle untouched.
    pub fn start_session(&mut self, level: u8)
        ensures
            *final(self) == *old(self),
    {
    }
}


} // verus!
