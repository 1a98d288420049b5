//! Floors of a building, counted from a string of brackets.

use crate::common::answers::{first_of, second_of};
use vstd::prelude::*;

verus! {

/// One step of the way: a floor up or a floor down.
#[derive(Clone, Copy, Debug, PartialEq, Eq, Structural)]
pub enum Ud {
    Up,
    Down,
}

/// The step that a bracket stands for: `(` leads up and `)` leads down.
pub open spec fn step_of(token: char) -> Option<Ud> {
    if token == '(' {
        Some(Ud::Up)
    } else if token == ')' {
        Some(Ud::Down)
    } else {
        None
    }
}

/// The steps that the tokens stand for, or `None` where some token is no
/// bracket.
pub open spec fn steps_of(tokens: Seq<char>) -> Option<Seq<Ud>> {
    if forall|i: int| 0 <= i < tokens.len() ==> step_of(#[trigger] tokens[i]) is Some {
        Some(Seq::new(tokens.len(), |i: int| step_of(tokens[i])->Some_0))
    } else {
        None
    }
}

/// The floor reached after the first `k` steps, from floor 0.
pub open spec fn floor_after(steps: Seq<Ud>, k: nat) -> int
    decreases k,
{
    if k == 0 {
        0
    } else {
        floor_after(steps, (k - 1) as nat) + (if steps[k - 1] is Up {
            1int
        } else {
            -1int
        })
    }
}

/// Step number `k`, counted from 1, is the first to lead below floor 0.
pub open spec fn enters_basement_at(steps: Seq<Ud>, k: int) -> bool {
    &&& 1 <= k <= steps.len()
    &&& floor_after(steps, k as nat) < 0
    &&& forall|j: nat| j < k ==> #[trigger] floor_after(steps, j) >= 0
}

/// No step leads below floor 0.
pub open spec fn never_in_basement(steps: Seq<Ud>) -> bool {
    forall|j: nat| j <= steps.len() ==> #[trigger] floor_after(steps, j) >= 0
}

/// No floor is further from floor 0 than there were steps.
pub proof fn lemma_floor_bound(steps: Seq<Ud>, k: nat)
    ensures
        -(k as int) <= floor_after(steps, k) <= k,
    decreases k,
{
    if k > 0 {
        lemma_floor_bound(steps, (k - 1) as nat);
    }
}

/// Reads the steps: one for each bracket. Fails where a character is no
/// bracket.
pub fn read_input(tokens: &str) -> (r: Option<Vec<Ud>>)
    ensures
        match r {
            Some(steps) => steps_of(tokens@) == Some(steps@),
            None => steps_of(tokens@) is None,
        },
{
    let mut result: Vec<Ud> = Vec::new();
    for token in iter: tokens.chars()
        invariant
            iter.seq() == tokens@,
            result.len() == iter.index(),
            forall|j: int|
                0 <= j < iter.index() ==> step_of(#[trigger] tokens@[j]) == Some(result@[j]),
    {
        if token == ')' {
            result.push(Ud::Down);
        } else if token == '(' {
            result.push(Ud::Up);
        } else {
            return None;
        }
    }
    assert(result@ =~= steps_of(tokens@)->Some_0);
    Some(result)
}

/// Only one step is the first to lead below floor 0.
pub proof fn lemma_one_basement_step(steps: Seq<Ud>, first: int, second: int)
    requires
        enters_basement_at(steps, first),
        enters_basement_at(steps, second),
    ensures
        first == second,
{
    if first < second {
        assert(floor_after(steps, first as nat) >= 0);
    }
    if second < first {
        assert(floor_after(steps, second as nat) >= 0);
    }
}

/// The number, counted from 1, of the first step that leads below floor
/// 0.
pub open spec fn basement_step(steps: Seq<Ud>) -> int {
    choose|k: int| enters_basement_at(steps, k)
}

/// The floor reached at the end and the number of the first step that
/// leads below floor 0, or `None` where no step leads there or there are
/// more steps than an `i64` counts.
pub open spec fn walk_of(steps: Seq<Ud>) -> Option<(i64, i64)> {
    if !never_in_basement(steps) && steps.len() <= i64::MAX {
        Some((floor_after(steps, steps.len()) as i64, basement_step(steps) as i64))
    } else {
        None
    }
}

/// Walks the steps from floor 0 and returns the floor reached at the end
/// and the number, counted from 1, of the first step that leads below
/// floor 0.
///
/// Fails where no step leads below floor 0, or where there are more steps
/// than an `i64` counts.
pub fn walk(steps: &Vec<Ud>) -> (r: Option<(i64, i64)>)
    ensures
        r == walk_of(steps@),
        r matches Some((_, time)) ==> enters_basement_at(steps@, time as int),
{
    if steps.len() as u64 > 0x7fff_ffff_ffff_ffffu64 {
        return None;
    }
    let mut final_floor: i64 = 0;
    let mut basement_time: Option<i64> = None;
    let mut index: usize = 0;
    while index < steps.len()
        invariant
            index <= steps.len() <= i64::MAX,
            final_floor == floor_after(steps@, index as nat),
            match basement_time {
                Some(time) => enters_basement_at(steps@, time as int),
                None => forall|j: nat| j <= index ==> #[trigger] floor_after(steps@, j) >= 0,
            },
        decreases steps.len() - index,
    {
        proof {
            lemma_floor_bound(steps@, index as nat);
        }
        match steps[index] {
            Ud::Up => {
                final_floor = final_floor + 1;
            },
            Ud::Down => {
                final_floor = final_floor - 1;
            },
        }
        if final_floor < 0 && basement_time.is_none() {
            basement_time = Some(index as i64 + 1);
        }
        index = index + 1;
    }
    match basement_time {
        Some(time) => {
            proof {
                lemma_floor_bound(steps@, steps@.len());
                lemma_one_basement_step(steps@, time as int, basement_step(steps@));
            }
            Some((final_floor, time))
        },
        None => None,
    }
}

/// What [`day1`] returns for the tokens: nothing where they are not all
/// brackets, else what [`walk`] gives for their steps.
pub open spec fn outcome(tokens: Seq<char>) -> Option<(i64, i64)> {
    match steps_of(tokens) {
        Some(steps) => walk_of(steps),
        None => None,
    }
}

/// Reads the brackets and walks them: see [`read_input`] and [`walk`].
pub fn day1(tokens: &str) -> (r: Option<(i64, i64)>)
    ensures
        r == outcome(tokens@),
{
    match read_input(tokens) {
        Some(steps) => walk(&steps),
        None => None,
    }
}

/// The floor reached at the end; fails as [`day1`] does.
pub fn solution_a(tokens: &str) -> (r: Option<i64>)
    ensures
        r == first_of(outcome(tokens@)),
{
    match day1(tokens) {
        Some((floor, _)) => Some(floor),
        None => None,
    }
}

/// The number of the first step that leads below floor 0; fails as
/// [`day1`] does.
pub fn solution_b(tokens: &str) -> (r: Option<i64>)
    ensures
        r == second_of(outcome(tokens@)),
{
    match day1(tokens) {
        Some((_, time)) => Some(time),
        None => None,
    }
}

} // verus!
