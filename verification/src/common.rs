//! Helpers shared by the solvers.

pub mod answers;
pub mod grid_board;
pub mod parsing;
pub mod sorting;
