//! Verified puzzle solvers.
//!
//! The heart of the crate is [`year_2025::day8`]: a clustering engine that
//! builds the table of all pairwise squared distances of a set of points and
//! then joins the points into clusters by walking that table in order of
//! ascending cost. The other modules hold the smaller solvers and the grid
//! and text helpers they share. Every function takes its input as plain
//! values; reading files is left to the caller.

pub mod common;
pub mod year_2015;
pub mod year_2025;
