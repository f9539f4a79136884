use vstd::prelude::*;

verus! {

/// Why a request into the game core was refused.
#[derive(Clone, Copy, Debug, PartialEq, Eq, Structural)]
pub enum GameError {
    /// At generation time: the mine count reaches the cell count, or a
    /// dimension is zero or too large for the score counter.
    InvalidConfiguration,
    /// A reveal coordinate from the caller lies outside the grid.
    OutOfBounds,
    /// A textual board description is empty or not rectangular.
    ParseError,
}

/// The ways a board representation can be produced.  `Tile` implements this
/// with `Item` a freshly built grid, or an error when the request is invalid.
pub trait Board {
    type Item;

    /// Creates a new game board of the given size with mines placed at
    /// random and neighbor counts computed.
    fn new_board(level: usize, x_size: usize, y_size: usize) -> Self::Item;

    /// Creates a new blank game board of the given size.
    fn blank_board(x_size: usize, y_size: usize) -> Self::Item;

    /// Converts a string representation into a board of the associated type.
    fn from_string(input: &str, hidden: bool) -> Self::Item;
}

} // verus!
