//! The rules of a falling-blocks game: pieces and their rotations, the
//! playing field, line clearing, scoring and levels, and the high-score file
//! format.
pub mod piece;
pub mod game;
pub mod events;
pub mod texture;
pub mod scores;
