use advent::common::parsing::{
    parse_digits, parse_i64, parse_usize, read_regex_records, same_text, split_all, split_on,
};

fn lines_of(text: &str) -> Vec<String> {
    text.lines().map(|l| l.to_string()).collect()
}

fn strings(words: &[&str]) -> Vec<String> {
    words.iter().map(|w| w.to_string()).collect()
}

#[test]
fn records_hold_the_match_and_its_groups() {
    let records = read_regex_records(&lines_of("x=12,y=7\nnothing\nso x=3,y=44!\n"), r"x=(\d+),y=(\d+)");
    assert_eq!(records, vec![strings(&["x=12,y=7", "12", "7"]), strings(&["x=3,y=44", "3", "44"])]);
}

#[test]
fn records_take_the_leftmost_match_of_a_line() {
    let records = read_regex_records(&lines_of("a1 b2 c3\n"), r"([a-z])(\d)");
    assert_eq!(records, vec![strings(&["a1", "a", "1"])]);
}

#[test]
fn group_without_a_part_in_the_match_is_empty() {
    let records = read_regex_records(&lines_of("b\n"), r"(a)|(b)");
    assert_eq!(records, vec![strings(&["b", "", "b"])]);
}

#[test]
fn pattern_that_is_no_expression_matches_nothing() {
    let records = read_regex_records(&lines_of("(\n((\n"), "(");
    assert_eq!(records, Vec::<Vec<String>>::new());
}

#[test]
fn digits_are_parsed() {
    assert_eq!(parse_digits("0"), Some(0));
    assert_eq!(parse_digits("007"), Some(7));
    assert_eq!(parse_digits("1234567890"), Some(1234567890));
    assert_eq!(parse_digits("18446744073709551615"), Some(u64::MAX));
    assert_eq!(parse_digits("18446744073709551616"), None);
    assert_eq!(parse_digits("99999999999999999999999"), None);
    assert_eq!(parse_digits(""), None);
    assert_eq!(parse_digits("12a"), None);
    assert_eq!(parse_digits("-1"), None);
    assert_eq!(parse_digits("+1"), None);
    assert_eq!(parse_digits(" 1"), None);
    assert_eq!(parse_digits("\u{663}"), None);
}

#[test]
fn numbers_are_parsed_within_their_type() {
    assert_eq!(parse_i64("9223372036854775807"), Some(i64::MAX));
    assert_eq!(parse_i64("9223372036854775808"), None);
    assert_eq!(parse_i64("42"), Some(42));
    assert_eq!(parse_i64("4 2"), None);
    assert_eq!(parse_usize("42"), Some(42));
    assert_eq!(parse_usize("18446744073709551616"), None);
    assert_eq!(parse_usize(""), None);
}

#[test]
fn text_is_cut_at_separators() {
    assert_eq!(split_on("a,bc,,d", ','), strings(&["a", "bc", "", "d"]));
    assert_eq!(split_on("", ','), strings(&[""]));
    assert_eq!(split_on(",", ','), strings(&["", ""]));
    assert_eq!(split_on("abc", ','), strings(&["abc"]));
    assert_eq!(split_on("a;b,c", ';'), strings(&["a", "b,c"]));
    assert_eq!(split_all(&lines_of("a,b\n\nc,\n"), ','), strings(&["a", "b", "", "c", ""]));
    assert_eq!(split_all(&Vec::new(), ','), Vec::<String>::new());
}

#[test]
fn texts_are_compared() {
    assert!(same_text("", ""));
    assert!(same_text("turn on", "turn on"));
    assert!(!same_text("turn on", "turn off"));
    assert!(!same_text("turn on", "turn o"));
    assert!(!same_text("a", ""));
    assert!(same_text("\u{e9}t\u{e9}", "\u{e9}t\u{e9}"));
}
