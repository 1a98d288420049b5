//! Solvers for the 2025 puzzles.

pub mod day2;
pub mod day4;
pub mod day8;

use crate::common::answers::{first_of, second_of};
use crate::common::parsing::same_text;
use vstd::prelude::*;

verus! {

/// The number, if there is one.
pub open spec fn number_of(outcome: Result<i64, day8::ClusterError>) -> Option<i64> {
    match outcome {
        Ok(number) => Some(number),
        Err(_) => None,
    }
}

/// What the solution with the given name makes of the lines; `None` where
/// no solution has that name or the solution fails.
pub open spec fn solution_of(name: Seq<char>, lines: Seq<Seq<char>>) -> Option<i64> {
    if name == "day2a"@ {
        first_of(day2::outcome(lines))
    } else if name == "day2b"@ {
        second_of(day2::outcome(lines))
    } else if name == "day4a"@ {
        first_of(day4::removals_of(lines))
    } else if name == "day4b"@ {
        second_of(day4::removals_of(lines))
    } else if name == "day8a"@ {
        number_of(day8::largest_outcome_of(lines, 1000))
    } else if name == "day8b"@ {
        number_of(day8::last_outcome_of(lines, 9999999))
    } else {
        None
    }
}

/// Runs the solution with the given name on the lines: `day2a`, `day2b`,
/// `day4a`, `day4b`, `day8a` or `day8b`. Returns `None` where no solution
/// has that name or the solution fails.
pub fn run_solution(name: &str, lines: &Vec<String>) -> (r: Option<i64>)
    ensures
        r == solution_of(name@, lines.deep_view()),
{
    if same_text(name, "day2a") {
        day2::solution_a(lines)
    } else if same_text(name, "day2b") {
        day2::solution_b(lines)
    } else if same_text(name, "day4a") {
        day4::solution_a(lines)
    } else if same_text(name, "day4b") {
        day4::solution_b(lines)
    } else if same_text(name, "day8a") {
        match day8::solution_a(lines) {
            Ok(number) => Some(number),
            Err(_) => None,
        }
    } else if same_text(name, "day8b") {
        match day8::solution_b(lines) {
            Ok(number) => Some(number),
            Err(_) => None,
        }
    } else {
        None
    }
}

} // verus!
