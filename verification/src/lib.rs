//! Skyscraper puzzles: random solved grids, their visibility clues, a
//! solution-counting solver and a clue reducer, with contracts that Verus proves.

pub mod grid;
pub mod clues;
pub mod solver;
pub mod shuffle;
pub mod filler;
pub mod reducer;
pub mod laws;

pub use clues::{calculate_all_clues, calculate_clue_from_direction, check_clues};
pub use filler::{fill_grid, generate_complete_grid};
pub use reducer::{create_puzzle, reduce_clues, try_remove_clue};
pub use solver::{count_solutions, is_valid_placement, solve_skyscraper, SolutionCount};
