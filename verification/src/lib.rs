//! The game of Chomp, proved: the board and the rule by which a move changes
//! it, the exhaustive search for a winning move, the fallback move, and the
//! computer's turn that is made of them.
//!
//! Beside the game stand the pieces of two small calculators: modular
//! exponentiation with the reading of decimal numbers, and the rules of a
//! toy RSA scheme.

pub mod board;
pub mod decimal;
pub mod modexp;
pub mod play;
pub mod search;
pub mod toyrsa;

pub use board::{Board, Position, ALREADY_CHOMPED, MAX_COLUMNS, MAX_ROWS, OUT_OF_BOUNDS};
