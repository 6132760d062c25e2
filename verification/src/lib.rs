//! Sokoban puzzles: a board model and a depth-bounded search for a solution.
//!
//! A puzzle is a grid of walls, floor, targets, boxes and one mover. The
//! mover steps up, down, left or right and pushes a box that stands in its
//! way; the puzzle is solved when every box stands on a target.
//!
//! - `geometry`: coordinates, and the four steps of the mover;
//! - `grid`: the symbols, and what a grid holds where;
//! - `rules`: the model of a board, when it is solved, and its successors;
//! - `invariants`: what every step keeps;
//! - `text`: a board as lines of glyphs;
//! - `board`: the executable board;
//! - `search`: the depth-first search under a bound, and what it finds;
//! - `solver`: loading a puzzle from text rows and solving it.

pub mod geometry;
pub mod grid;
pub mod rules;
pub mod invariants;
pub mod text;
pub mod board;
pub mod search;
pub mod solver;

pub use board::Board;
pub use geometry::{vec_plus, Direction, Vector, Vectors};
pub use search::dfbnb;
pub use solver::soko_solver;
