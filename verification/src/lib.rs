//! The rules of the game 2048 on a board of four by four cells: tiles slide
//! towards an edge, equal neighbours merge, a new tile appears after each
//! move that changed the board, and the game is over when no move can change
//! it.
//!
//! [`Game2048`] is the game. What its methods do is stated over the board as a
//! mathematical value, a [`grid::Grid`], with [`grid::pushed`] for the board
//! after a move and [`grid::earned`] for the score of the move. The module
//! [`laws`] holds what follows for a whole game.

pub mod bounds;
pub mod four;
pub mod game;
pub mod grid;
pub mod laws;
pub mod line;
pub mod moves;
pub mod random;
pub mod spawn;
pub mod steps;
pub mod tile;

pub use game::{Game2048, Position};
pub use grid::{Direction, SIZE};
