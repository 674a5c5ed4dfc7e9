//! A player for the Filler game: it reads the board and the piece the game
//! hands out, and picks where to place the piece.

pub mod grid;
pub mod models;
pub mod logic;
pub mod valid;
pub mod text;
pub mod input;
pub mod visualizer;
