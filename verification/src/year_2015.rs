//! Solvers for the 2015 puzzles.

pub mod day1;
pub mod day6;

use crate::common::answers::{first_of, second_of};
use crate::common::parsing::same_text;
use vstd::prelude::*;

verus! {

/// What the brackets on the one line give; `None` where there is not
/// exactly one line.
pub open spec fn floors_of(lines: Seq<Seq<char>>) -> Option<(i64, i64)> {
    if lines.len() == 1 {
        day1::outcome(lines[0])
    } else {
        None
    }
}

/// What the solution with the given name makes of the lines; `None` where
/// no solution has that name or the solution fails.
pub open spec fn solution_of(name: Seq<char>, lines: Seq<Seq<char>>) -> Option<i64> {
    if name == "day1a"@ {
        first_of(floors_of(lines))
    } else if name == "day1b"@ {
        second_of(floors_of(lines))
    } else if name == "day6a"@ {
        first_of(day6::outcome(lines))
    } else if name == "day6b"@ {
        second_of(day6::outcome(lines))
    } else {
        None
    }
}

/// Runs the solution with the given name on the lines: `day1a`, `day1b`,
/// `day6a` or `day6b`. The first two want their brackets on one line.
/// Returns `None` where no solution has that name or the solution fails.
pub fn run_solution(name: &str, lines: &Vec<String>) -> (r: Option<i64>)
    ensures
        r == solution_of(name@, lines.deep_view()),
{
    if same_text(name, "day1a") {
        if lines.len() == 1 {
            assert(lines.deep_view()[0] == lines[0]@);
            day1::solution_a(lines[0].as_str())
        } else {
            None
        }
    } else if same_text(name, "day1b") {
        if lines.len() == 1 {
            assert(lines.deep_view()[0] == lines[0]@);
            day1::solution_b(lines[0].as_str())
        } else {
            None
        }
    } else if same_text(name, "day6a") {
        day6::solution_a(lines)
    } else if same_text(name, "day6b") {
        day6::solution_b(lines)
    } else {
        None
    }
}

} // verus!
