//! Picking one answer out of the two that a solver gives.

use vstd::prelude::*;

verus! {

/// The first number of a pair, if there is a pair.
pub open spec fn first_of(pair: Option<(i64, i64)>) -> Option<i64> {
    match pair {
        Some((first, _)) => Some(first),
        None => None,
    }
}

/// The second number of a pair, if there is a pair.
pub open spec fn second_of(pair: Option<(i64, i64)>) -> Option<i64> {
    match pair {
        Some((_, second)) => Some(second),
        None => None,
    }
}

} // verus!
