use advent::year_2015::day1::{day1, read_input, solution_a, solution_b, walk, Ud};

const EXAMPLE: &str = ")())())";

#[test]
fn day1_test_example_1() {
    assert_eq!(solution_a(EXAMPLE), Some(-3));
}

#[test]
fn day1_test_example_1b() {
    assert_eq!(solution_b(EXAMPLE), Some(1));
}

#[test]
fn day1_gives_floor_and_first_basement_step() {
    assert_eq!(day1("()())"), Some((-1, 5)));
    assert_eq!(day1(")"), Some((-1, 1)));
    assert_eq!(day1("(()))(((("), Some((3, 5)));
}

#[test]
fn day1_fails_without_basement() {
    assert_eq!(day1(""), None);
    assert_eq!(day1("(()(()("), None);
    assert_eq!(solution_a("((("), None);
    assert_eq!(solution_b("()()"), None);
}

#[test]
fn day1_fails_on_other_characters() {
    assert_eq!(day1(")x"), None);
    assert_eq!(day1("))\n"), None);
    assert_eq!(read_input("(a)"), None);
}

#[test]
fn read_input_reads_brackets() {
    assert_eq!(read_input("(()"), Some(vec![Ud::Up, Ud::Up, Ud::Down]));
    assert_eq!(read_input(""), Some(vec![]));
}

#[test]
fn walk_counts_from_one() {
    assert_eq!(walk(&vec![Ud::Up, Ud::Down, Ud::Down, Ud::Up, Ud::Up]), Some((1, 3)));
    assert_eq!(walk(&vec![Ud::Up, Ud::Down]), None);
}
