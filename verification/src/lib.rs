//! A human-style sudoku solver: candidate elimination on bitmasks.
pub mod bits;
pub mod board;
pub mod rules;
pub mod solver;
pub mod laws;
pub mod text;

pub use solver::{
    ALL_OPTIONS, Possibles, Solution, SolveState, Sudoku, line_is_readable, process_line,
    solve_grid_text,
};
pub use text::PossiblesView;
