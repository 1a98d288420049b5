//! Rolls of paper on a floor: which of them can be taken away.
//!
//! A roll is marked `@`. It is free where fewer than four of the eight
//! places around it hold a roll. Taking all free rolls away may free others.

use crate::common::answers::{first_of, second_of};
use crate::common::grid_board::{
    around, cell_in, count_in_row, count_in_rows, is_rectangle, lemma_count_split, present, Board,
    Xy,
};
use vstd::prelude::*;

verus! {

/// How many of the cells hold a roll.
pub open spec fn rolls_in(cells: Seq<char>) -> nat
    decreases cells.len(),
{
    if cells.len() == 0 {
        0
    } else {
        rolls_in(cells.drop_last()) + if cells.last() == '@' {
            1nat
        } else {
            0nat
        }
    }
}

/// The cells at the places around column `x` of row `y`, as far as those
/// places are on the floor.
pub open spec fn cells_around(floor: Seq<Seq<char>>, x: int, y: int) -> Seq<char> {
    present(Seq::new(8, |i: int| cell_in(floor, around(Xy { x: x as i64, y: y as i64 }, i))))
}

/// A roll lies in column `x` of row `y`.
pub open spec fn is_roll(floor: Seq<Seq<char>>, x: int, y: int) -> bool {
    floor[y][x] == '@'
}

/// A roll lies in column `x` of row `y`, with fewer than four rolls around
/// it.
pub open spec fn is_free(floor: Seq<Seq<char>>, x: int, y: int) -> bool {
    is_roll(floor, x, y) && rolls_in(cells_around(floor, x, y)) < 4
}

/// The places of the rolls.
pub open spec fn rolls(floor: Seq<Seq<char>>) -> spec_fn(int, int) -> bool {
    |x: int, y: int| is_roll(floor, x, y)
}

/// The places of the free rolls.
pub open spec fn free_rolls(floor: Seq<Seq<char>>) -> spec_fn(int, int) -> bool {
    |x: int, y: int| is_free(floor, x, y)
}

/// The floor after every free roll was taken away, with `_` in its place.
pub open spec fn cleared(floor: Seq<Seq<char>>) -> Seq<Seq<char>> {
    Seq::new(
        floor.len(),
        |y: int|
            Seq::new(
                floor[y].len(),
                |x: int|
                    if is_free(floor, x, y) {
                        '_'
                    } else {
                        floor[y][x]
                    },
            ),
    )
}

/// The number of rolls on the floor.
pub open spec fn roll_count(floor: Seq<Seq<char>>) -> nat {
    count_in_rows(rolls(floor), floor[0].len(), floor.len())
}

/// The number of free rolls on the floor.
pub open spec fn free_count(floor: Seq<Seq<char>>) -> nat {
    count_in_rows(free_rolls(floor), floor[0].len(), floor.len())
}

/// Clearing a floor keeps its shape and takes the free rolls off the
/// count of rolls.
pub proof fn lemma_cleared(floor: Seq<Seq<char>>)
    requires
        is_rectangle(floor),
    ensures
        is_rectangle(cleared(floor)),
        cleared(floor).len() == floor.len(),
        cleared(floor)[0].len() == floor[0].len(),
        roll_count(cleared(floor)) + free_count(floor) == roll_count(floor),
{
    let after = cleared(floor);
    assert forall|x: int, y: int| 0 <= x < floor[0].len() && 0 <= y < floor.len() implies (
    #[trigger] rolls(floor)(x, y) <==> free_rolls(floor)(x, y) || rolls(after)(x, y)) && !(
    free_rolls(floor)(x, y) && rolls(after)(x, y)) by {
        assert(floor[y].len() == floor[0].len());
        assert(after[y][x] == if is_free(floor, x, y) {
            '_'
        } else {
            floor[y][x]
        });
    }
    lemma_count_split(rolls(floor), free_rolls(floor), rolls(after), floor[0].len(), floor.len());
}

/// The number of rolls that are taken away in all, when the free rolls are
/// taken away again and again until none is free.
pub open spec fn total_removed(floor: Seq<Seq<char>>) -> nat
    decreases roll_count(floor),
    when is_rectangle(floor)
{
    if free_count(floor) == 0 {
        0
    } else {
        proof {
            lemma_cleared(floor);
        }
        free_count(floor) + total_removed(cleared(floor))
    }
}

/// Reads the floor, one row from each line. Fails where there is no line
/// or the lines are not of one length.
pub fn read_input(lines: &Vec<String>) -> (r: Option<Board<char>>)
    ensures
        match r {
            Some(board) => board@ == lines.deep_view() && board.is_grid(),
            None => !is_rectangle(lines.deep_view()),
        },
{
    let board: Board<char> = Board::from_strings(lines);
    assert(board@ =~~= lines.deep_view()) by {
        assert forall|y: int| 0 <= y < board@.len() implies #[trigger] board@[y]
            =~= lines.deep_view()[y] by {
            assert(board@[y].len() == lines[y]@.len());
        }
    }
    let h = board.height();
    if h == 0 || h as u64 > 0x7fff_ffff_ffff_ffffu64 {
        return None;
    }
    let w = board.width();
    if w as u64 > 0x7fff_ffff_ffff_ffffu64 {
        return None;
    }
    let mut y: usize = 0;
    while y < h
        invariant
            y <= h,
            0 < h == board@.len(),
            w == board@[0].len(),
            board@ == lines.deep_view(),
            forall|k: int| 0 <= k < y ==> (#[trigger] board@[k]).len() == w,
        decreases h - y,
    {
        assert(board@[y as int] == board.board@[y as int]@);
        if board.board[y].len() != w {
            assert(lines.deep_view()[y as int].len() != lines.deep_view()[0].len());
            return None;
        }
        y = y + 1;
    }
    Some(board)
}

/// Counts the rolls among the cells.
fn count_rolls(cells: &Vec<char>) -> (n: usize)
    ensures
        n == rolls_in(cells@),
{
    let mut n: usize = 0;
    let mut i: usize = 0;
    assert(cells@.take(0) =~= Seq::<char>::empty());
    while i < cells.len()
        invariant
            i <= cells.len(),
            n == rolls_in(cells@.take(i as int)),
            n <= i,
        decreases cells.len() - i,
    {
        assert(cells@.take(i + 1).drop_last() =~= cells@.take(i as int));
        if cells[i] == '@' {
            n = n + 1;
        }
        i = i + 1;
    }
    assert(cells@.take(cells.len() as int) =~= cells@);
    n
}

/// `places` lists the free rolls of the first `rows` rows and of the first
/// `columns` places of the row after them, each once.
spec fn lists_free(
    floor: Seq<Seq<char>>,
    places: Seq<Xy>,
    rows: int,
    columns: int,
) -> bool {
    &&& places.len() == count_in_rows(free_rolls(floor), floor[0].len(), rows as nat)
        + count_in_row(free_rolls(floor), rows, columns as nat)
    &&& forall|k: int|
        0 <= k < places.len() ==> {
            &&& 0 <= (#[trigger] places[k]).x < floor[0].len()
            &&& 0 <= places[k].y < floor.len()
            &&& is_free(floor, places[k].x as int, places[k].y as int)
        }
    &&& forall|x: int, y: int|
        0 <= x < floor[0].len() && 0 <= y < floor.len() && (y < rows || (y == rows && x < columns))
            && #[trigger] is_free(floor, x, y) ==> places.contains(Xy { x: x as i64, y: y as i64 })
}

/// Finds the free rolls of the floor.
fn free_places(board: &Board<char>) -> (places: Vec<Xy>)
    requires
        board.is_grid(),
    ensures
        lists_free(board@, places@, board@.len() as int, 0),
        places.len() == free_count(board@),
{
    let ghost floor = board@;
    let h = board.height();
    let w = board.width();
    let mut removals: Vec<Xy> = Vec::new();
    let mut y: usize = 0;
    while y < h
        invariant
            y <= h,
            floor == board@,
            board.is_grid(),
            h == floor.len(),
            w == floor[0].len(),
            lists_free(floor, removals@, y as int, 0),
        decreases h - y,
    {
        let mut x: usize = 0;
        while x < w
            invariant
                y < h,
                x <= w,
                floor == board@,
                board.is_grid(),
                h == floor.len(),
                w == floor[0].len(),
                lists_free(floor, removals@, y as int, x as int),
            decreases w - x,
        {
            let coord = Xy::new(x as i64, y as i64);
            let ghost before = removals@;
            assert(floor[y as int].len() == w);
            let mut free = false;
            if board.at(coord) == '@' {
                let neighbors = board.neighbors8(coord);
                assert(neighbors@ == cells_around(floor, x as int, y as int)) by {
                    assert(Seq::new(8, |i: int| board.maybe_cell(around(coord, i))) =~= Seq::new(
                        8,
                        |i: int| cell_in(floor, around(Xy { x: x as i64, y: y as i64 }, i)),
                    ));
                }
                let occupied_count = count_rolls(&neighbors);
                if occupied_count < 4 {
                    free = true;
                    removals.push(coord);
                }
            }
            proof {
                assert(free == is_free(floor, x as int, y as int));
                assert forall|k: int| 0 <= k < removals@.len() implies {
                    &&& 0 <= (#[trigger] removals@[k]).x < floor[0].len()
                    &&& 0 <= removals@[k].y < floor.len()
                    &&& is_free(floor, removals@[k].x as int, removals@[k].y as int)
                } by {
                    if k < before.len() {
                        assert(removals@[k] == before[k]);
                    }
                }
                assert forall|c: int, r: int|
                    0 <= c < floor[0].len() && 0 <= r < floor.len() && (r < y || (r == y && c < x
                        + 1)) && #[trigger] is_free(floor, c, r) implies removals@.contains(
                    Xy { x: c as i64, y: r as i64 },
                ) by {
                    if r == y && c == x {
                        assert(removals@[before.len() as int] == coord);
                    } else {
                        assert(before.contains(Xy { x: c as i64, y: r as i64 }));
                        let k = choose|k: int|
                            0 <= k < before.len() && before[k] == (Xy { x: c as i64, y: r as i64 });
                        assert(removals@[k] == before[k]);
                    }
                }
            }
            x = x + 1;
        }
        y = y + 1;
    }
    removals
}

/// Takes the rolls at `places` away.
fn take_away(board: &mut Board<char>, places: &Vec<Xy>)
    requires
        old(board).is_grid(),
        forall|k: int|
            0 <= k < places.len() ==> 0 <= (#[trigger] places[k]).x < old(board)@[0].len() && 0
                <= places[k].y < old(board)@.len(),
    ensures
        final(board).is_grid(),
        final(board)@.len() == old(board)@.len(),
        final(board)@[0].len() == old(board)@[0].len(),
        forall|x: int, y: int|
            0 <= x < old(board)@[0].len() && 0 <= y < old(board)@.len() ==> #[trigger] final(board)@[y][x] == (if places@.contains(Xy { x: x as i64, y: y as i64 }) {
                '_'
            } else {
                old(board)@[y][x]
            }),
{
    let mut k: usize = 0;
    while k < places.len()
        invariant
            k <= places.len(),
            old(board).is_grid(),
            forall|j: int|
                0 <= j < places.len() ==> 0 <= (#[trigger] places[j]).x < old(board)@[0].len() && 0
                    <= places[j].y < old(board)@.len(),
            board.is_grid(),
            board@.len() == old(board)@.len(),
            board@[0].len() == old(board)@[0].len(),
            forall|x: int, y: int|
                0 <= x < old(board)@[0].len() && 0 <= y < old(board)@.len() ==> #[trigger] board@[y][x]
                    == (if places@.take(k as int).contains(Xy { x: x as i64, y: y as i64 }) {
                    '_'
                } else {
                    old(board)@[y][x]
                }),
        decreases places.len() - k,
    {
        let coord = places[k];
        let ghost before = board@;
        assert(board@[coord.y as int].len() == board@[0].len());
        board.set_at(coord, '_');
        proof {
            let done = places@.take(k as int);
            let next = places@.take(k + 1);
            assert(next =~= done.push(coord));
            assert forall|x: int, y: int|
                0 <= x < old(board)@[0].len() && 0 <= y < old(board)@.len() implies #[trigger] board@[y][x]
                == (if next.contains(Xy { x: x as i64, y: y as i64 }) {
                '_'
            } else {
                old(board)@[y][x]
            }) by {
                let here = Xy { x: x as i64, y: y as i64 };
                assert(before[y].len() == before[0].len());
                if here == coord {
                    assert(next[k as int] == here);
                } else {
                    assert(board@[y][x] == before[y][x]);
                    if done.contains(here) {
                        let j = choose|j: int| 0 <= j < done.len() && done[j] == here;
                        assert(next[j] == here);
                    }
                    if next.contains(here) {
                        let j = choose|j: int| 0 <= j < next.len() && next[j] == here;
                        assert(j < k);
                        assert(done[j] == here);
                    }
                }
            }
            assert forall|y: int| 0 <= y < board@.len() implies (#[trigger] board@[y]).len()
                == board@[0].len() by {
                assert(before[y].len() == before[0].len());
            }
        }
        k = k + 1;
    }
    assert(places@.take(places.len() as int) =~= places@);
}

/// The number of rolls that are free at first and the number of rolls
/// taken away in all, or `None` where the floor is no rectangle or the
/// second number is more than an `i64` holds.
pub open spec fn removals_of(floor: Seq<Seq<char>>) -> Option<(i64, i64)> {
    if is_rectangle(floor) && total_removed(floor) <= i64::MAX {
        Some((free_count(floor) as i64, total_removed(floor) as i64))
    } else {
        None
    }
}

/// Takes the free rolls away until none is free. Returns the number of
/// rolls that were free at first, and the number of rolls taken away in
/// all. Fails where the second number is more than an `i64` holds.
pub fn remove_rolls(floor: Board<char>) -> (r: Option<(i64, i64)>)
    requires
        floor.is_grid(),
    ensures
        r == removals_of(floor@),
{
    let ghost start = floor@;
    let mut board = floor;
    let mut first_step_removals: i64 = 0;
    let mut total_removals: i64 = 0;
    let mut first_round = true;
    loop
        invariant
            start == floor@,
            is_rectangle(start),
            board.is_grid(),
            0 <= total_removals,
            total_removals + total_removed(board@) == total_removed(start),
            first_round ==> board@ == start && total_removals == 0,
            !first_round ==> first_step_removals == free_count(start),
            !first_round ==> free_count(start) <= total_removed(start),
        decreases roll_count(board@),
    {
        let removals = free_places(&board);
        let ghost now = board@;
        if removals.len() == 0 {
            assert(total_removed(now) == 0);
            assert(first_round ==> free_count(start) == 0);
            return Some((if first_round { 0 } else { first_step_removals }, total_removals));
        }
        proof {
            lemma_cleared(now);
            assert(total_removed(now) == free_count(now) + total_removed(cleared(now)));
        }
        if removals.len() as u64 > (i64::MAX - total_removals) as u64 {
            return None;
        }
        total_removals = total_removals + removals.len() as i64;
        if first_round {
            first_step_removals = total_removals;
            first_round = false;
        }
        take_away(&mut board, &removals);
        proof {
            assert(board@ =~~= cleared(now)) by {
                assert forall|y: int| 0 <= y < now.len() implies #[trigger] board@[y]
                    =~= cleared(now)[y] by {
                    assert(board@[y].len() == board@[0].len());
                    assert(now[y].len() == now[0].len());
                    assert forall|x: int| 0 <= x < now[0].len() implies board@[y][x] == cleared(
                        now,
                    )[y][x] by {
                        let here = Xy { x: x as i64, y: y as i64 };
                        if removals@.contains(here) {
                            let k = choose|k: int| 0 <= k < removals@.len() && removals@[k] == here;
                            assert(is_free(now, removals@[k].x as int, removals@[k].y as int));
                        }
                        if is_free(now, x, y) {
                            assert(removals@.contains(here));
                        }
                    }
                }
            }
        }
    }
}

/// Reads the floor and takes the free rolls away until none is free; see
/// [`read_input`] and [`remove_rolls`].
pub fn solutions(lines: &Vec<String>) -> (r: Option<(i64, i64)>)
    ensures
        r == removals_of(lines.deep_view()),
{
    match read_input(lines) {
        Some(board) => remove_rolls(board),
        None => None,
    }
}

/// The number of rolls that are free at first; fails as [`solutions`]
/// does.
pub fn solution_a(lines: &Vec<String>) -> (r: Option<i64>)
    ensures
        r == first_of(removals_of(lines.deep_view())),
{
    match solutions(lines) {
        Some((first, _)) => Some(first),
        None => None,
    }
}

/// The number of rolls taken away in all; fails as [`solutions`] does.
pub fn solution_b(lines: &Vec<String>) -> (r: Option<i64>)
    ensures
        r == second_of(removals_of(lines.deep_view())),
{
    match solutions(lines) {
        Some((_, total)) => Some(total),
        None => None,
    }
}

} // verus!
