use vstd::prelude::*;

verus! {

/// The ways in which an operation of the rules engine can be refused.
#[derive(Clone, Copy, Debug, PartialEq, Eq, Structural)]
pub enum GamePlayError {
    /// A coordinate is negative or lies beyond the grid.
    OutOfBounds,
    /// The coordinate names a cell that is not part of the playable board.
    DeadCell,
    /// The player index names no player of this board.
    InvalidPlayer,
    /// A tile cannot be placed on a square that already holds one.
    AlreadyOccupied,
    /// A tile must be placed on the player's root or next to one of their tiles.
    NotAdjacentToOwnTiles,
    /// A square cannot be swapped with itself.
    SameSquareSwap,
    /// Both squares of a swap must belong to the player who swaps.
    NotOwnedBySwapper,
    /// Both squares of a swap must hold a tile.
    MustSwapOccupiedSquares,
    /// The player does not hold the tile they tried to play.
    TileUnavailable,
    /// A textual board layout could not be read.
    MalformedBoardText,
}

} // verus!
