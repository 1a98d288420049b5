use advent::common::grid_board::{Board, BoardContent, Direction, Xy};

fn lines_of(text: &str) -> Vec<String> {
    text.lines().map(|l| l.to_string()).collect()
}

fn sample() -> Board<char> {
    Board::from_strings(&lines_of("abcd\nefgh\nijkl\n"))
}

#[test]
fn directions_have_arrows() {
    assert_eq!(Direction::North.to_char(), '^');
    assert_eq!(Direction::East.to_char(), '>');
    assert_eq!(Direction::South.to_char(), 'v');
    assert_eq!(Direction::West.to_char(), '<');
    for d in Direction::ALL {
        assert_eq!(Direction::from_char(d.to_char()), d);
    }
}

#[test]
fn directions_have_offsets() {
    assert_eq!(Direction::North.to_offset(), Xy::new(0, -1));
    assert_eq!(Direction::East.to_offset(), Xy::new(1, 0));
    assert_eq!(Direction::South.to_offset(), Xy::new(0, 1));
    assert_eq!(Direction::West.to_offset(), Xy::new(-1, 0));
}

#[test]
fn directions_turn() {
    assert_eq!(Direction::North.cw(), Direction::East);
    assert_eq!(Direction::East.cw(), Direction::South);
    assert_eq!(Direction::South.cw(), Direction::West);
    assert_eq!(Direction::West.cw(), Direction::North);
    assert_eq!(Direction::North.ccw(), Direction::West);
    assert_eq!(Direction::East.ccw(), Direction::North);
    assert_eq!(Direction::South.ccw(), Direction::East);
    assert_eq!(Direction::West.ccw(), Direction::South);
    for d in Direction::ALL {
        assert_eq!(d.cw().ccw(), d);
        assert_eq!(d.ccw().cw(), d);
        assert_eq!(d.cw().cw().cw().cw(), d);
    }
}

#[test]
fn all_directions_go_clockwise_from_north() {
    assert_eq!(
        Direction::ALL,
        [Direction::North, Direction::East, Direction::South, Direction::West]
    );
}

#[test]
fn places_are_added() {
    assert_eq!(Xy::new(3, 4).plus(Xy::new(-1, 10)), Xy::new(2, 14));
    assert_eq!(Xy::new(i64::MAX - 1, i64::MIN + 1).plus(Xy::new(1, -1)), Xy::new(i64::MAX, i64::MIN));
}

#[test]
fn characters_stand_for_themselves() {
    assert_eq!(char::try_from_char('q'), Some('q'));
    assert_eq!('q'.to_glyph(), 'q');
}

#[test]
fn board_has_rows_and_columns() {
    let board = sample();
    assert_eq!(board.height(), 3);
    assert_eq!(board.width(), 4);
    assert_eq!(board.dimensions(), Xy::new(4, 3));
}

#[test]
fn board_is_read_and_written() {
    let lines = lines_of("abcd\nefgh\nijkl\n");
    let board: Board<char> = Board::from_strings(&lines);
    assert_eq!(board.board, vec![vec!['a', 'b', 'c', 'd'], vec!['e', 'f', 'g', 'h'], vec!['i', 'j', 'k', 'l']]);
    assert_eq!(board.to_strings(), lines);
    let empty: Board<char> = Board::from_strings(&Vec::new());
    assert_eq!(empty.height(), 0);
    assert_eq!(empty.to_strings(), Vec::<String>::new());
    let wide: Board<char> = Board::from_strings(&lines_of("\u{e9}\u{4e16}x\n"));
    assert_eq!(wide.width(), 3);
    assert_eq!(wide.to_strings(), lines_of("\u{e9}\u{4e16}x\n"));
}

#[test]
fn cells_are_read_by_column_and_row() {
    let board = sample();
    assert_eq!(board.at(Xy::new(0, 0)), 'a');
    assert_eq!(board.at(Xy::new(3, 0)), 'd');
    assert_eq!(board.at(Xy::new(1, 2)), 'j');
    assert_eq!(board.maybe_at(Xy::new(1, 2)), Some('j'));
    assert_eq!(board.maybe_at(Xy::new(3, 2)), Some('l'));
    assert_eq!(board.maybe_at(Xy::new(4, 2)), None);
    assert_eq!(board.maybe_at(Xy::new(3, 3)), None);
    assert_eq!(board.maybe_at(Xy::new(-1, 0)), None);
    assert_eq!(board.maybe_at(Xy::new(0, -1)), None);
    assert_eq!(board.maybe_at(Xy::new(i64::MAX, i64::MIN)), None);
}

#[test]
fn set_at_changes_one_cell() {
    let mut board = sample();
    board.set_at(Xy::new(2, 1), 'X');
    assert_eq!(board.to_strings(), lines_of("abcd\nefXh\nijkl\n"));
}

#[test]
fn fill_rect_leaves_out_the_far_corner() {
    let mut board = sample();
    board.fill_rect(Xy::new(1, 0), Xy::new(3, 2), '#');
    assert_eq!(board.to_strings(), lines_of("a##d\ne##h\nijkl\n"));
    board.fill_rect(Xy::new(0, 0), Xy::new(4, 3), '.');
    assert_eq!(board.to_strings(), lines_of("....\n....\n....\n"));
}

#[test]
fn fill_rect_passes_over_an_empty_rectangle() {
    let mut board = sample();
    board.fill_rect(Xy::new(2, 0), Xy::new(2, 3), '#');
    board.fill_rect(Xy::new(0, 2), Xy::new(4, 2), '#');
    board.fill_rect(Xy::new(9, 9), Xy::new(3, 50), '#');
    board.fill_rect(Xy::new(-5, 7), Xy::new(50, 3), '#');
    assert_eq!(board.to_strings(), lines_of("abcd\nefgh\nijkl\n"));
}

#[test]
fn update_rect_applies_the_function() {
    let mut board = sample();
    board.update_rect(Xy::new(0, 1), Xy::new(2, 3), |c: char| c.to_ascii_uppercase());
    assert_eq!(board.to_strings(), lines_of("abcd\nEFgh\nIJkl\n"));
    board.update_rect(Xy::new(3, 3), Xy::new(3, 3), |_c: char| '!');
    assert_eq!(board.to_strings(), lines_of("abcd\nEFgh\nIJkl\n"));
}

#[test]
fn all_coords_go_row_by_row() {
    let board: Board<char> = Board::from_strings(&lines_of("ab\ncd\nef\n"));
    assert_eq!(
        board.all_coords(),
        vec![Xy::new(0, 0), Xy::new(1, 0), Xy::new(0, 1), Xy::new(1, 1), Xy::new(0, 2), Xy::new(1, 2)]
    );
}

#[test]
fn neighbors_are_those_of_the_corner() {
    assert_eq!(sample().neighbors(), vec!['b', 'e']);
    let row: Board<char> = Board::from_strings(&lines_of("xyz\n"));
    assert_eq!(row.neighbors(), vec!['y']);
    let column: Board<char> = Board::from_strings(&lines_of("x\ny\n"));
    assert_eq!(column.neighbors(), vec!['y']);
    let single: Board<char> = Board::from_strings(&lines_of("x\n"));
    assert_eq!(single.neighbors(), Vec::<char>::new());
}

#[test]
fn neighbors8_start_in_the_east() {
    let board = sample();
    assert_eq!(board.neighbors8(Xy::new(1, 1)), vec!['g', 'k', 'j', 'i', 'e', 'a', 'b', 'c']);
    assert_eq!(board.neighbors8(Xy::new(0, 0)), vec!['b', 'f', 'e']);
    assert_eq!(board.neighbors8(Xy::new(3, 2)), vec!['k', 'g', 'h']);
    assert_eq!(board.neighbors8(Xy::new(4, 1)), vec!['l', 'h', 'd']);
    assert_eq!(board.neighbors8(Xy::new(10, 10)), Vec::<char>::new());
}

#[test]
fn iterator_walks_row_by_row() {
    let board: Board<char> = Board::from_strings(&lines_of("ab\ncd\n"));
    let mut it = board.iter();
    assert_eq!(it.next(), Some((Xy::new(0, 0), 'a')));
    assert_eq!(it.next(), Some((Xy::new(1, 0), 'b')));
    assert_eq!(it.next(), Some((Xy::new(0, 1), 'c')));
    assert_eq!(it.next(), Some((Xy::new(1, 1), 'd')));
    assert_eq!(it.next(), None);
    assert_eq!(it.next(), None);
}
