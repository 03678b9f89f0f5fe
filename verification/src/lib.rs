//! A Sudoku solver that alternates forced placements with randomised guessing
//! and rolls the whole grid back to its last certain state on contradiction.

pub mod bench;
pub mod board;
pub mod candidates;
pub mod engine;
pub mod geometry;
pub mod laws;
pub mod random;
pub mod rules;
pub mod select;
pub mod text;

pub use board::{Board, Position};
pub use candidates::get_possible_values;
pub use engine::{select_random_value, solve, step, Mode};
pub use select::{get_best_empty_position, get_empty_positions};
pub use text::{parse_board, render};
