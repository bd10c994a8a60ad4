//! Rules engine of a tile-placement word game played on a grid-shaped board.
//!
//! Players grow chains of letters outward from their root squares. A newly
//! placed tile that touches opposing letters starts a battle; the losing
//! words are cleared and any tiles cut off from every root are pruned.

pub mod error;
pub mod board;
mod text;
pub mod words;
pub mod connectivity;
pub mod layout;
pub mod judge;
pub mod hand;
pub mod moves;
