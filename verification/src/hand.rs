use vstd::prelude::*;
use crate::error::GamePlayError;

verus! {

/// The tiles that each player holds and may play.
pub trait Hands {
    /// Takes `tile` out of the hand of `player`, or says why it cannot:
    /// the player does not exist or does not hold that tile.
    fn use_tile(&mut self, player: usize, tile: char) -> Result<(), GamePlayError>;
}

} // verus!
