use advent::common::grid_board::Board;
use advent::year_2025::day4::{read_input, remove_rolls, solution_a, solution_b, solutions};

const EXAMPLE: &str = "..@@.@@@@.
@@@.@.@.@@
@@@@@.@.@@
@.@@@@..@.
@@.@@@@.@@
.@@@@@@@.@
.@.@.@.@@@
@.@@@.@@@@
.@@@@@@@@.
@.@.@@@.@.
";

fn lines_of(text: &str) -> Vec<String> {
    text.lines().map(|l| l.to_string()).collect()
}

#[test]
fn day4_test_example() {
    assert_eq!(solution_a(&lines_of(EXAMPLE)), Some(13));
}

#[test]
fn day4_test_example_b() {
    assert_eq!(solution_b(&lines_of(EXAMPLE)), Some(43));
}

#[test]
fn solutions_gives_both_counts() {
    assert_eq!(solutions(&lines_of(EXAMPLE)), Some((13, 43)));
}

#[test]
fn full_block_loses_its_corners_first() {
    let lines = lines_of("@@@\n@@@\n@@@\n");
    assert_eq!(solutions(&lines), Some((4, 9)));
}

#[test]
fn crowded_rolls_stay() {
    let lines = lines_of("@@@@@\n@@@@@\n@@@@@\n@@@@@\n@@@@@\n");
    assert_eq!(solution_a(&lines), Some(4));
    assert_eq!(solution_b(&lines), Some(4));
}

#[test]
fn floor_without_rolls_loses_none() {
    assert_eq!(solutions(&lines_of("...\n.x.\n")), Some((0, 0)));
}

#[test]
fn ragged_or_empty_floor_is_refused() {
    assert_eq!(solutions(&lines_of("@@\n@\n")), None);
    assert_eq!(solutions(&Vec::new()), None);
    assert!(read_input(&lines_of("@@\n@@@\n")).is_none());
}

#[test]
fn remove_rolls_works_on_a_board() {
    let board: Board<char> = Board::from_strings(&lines_of("@.@\n...\n@.@\n"));
    assert_eq!(remove_rolls(board), Some((4, 4)));
}
