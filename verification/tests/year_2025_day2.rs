use advent::year_2025::day2::{
    classify, day2, digits, is_pattern, ranges_from_records, read_input, solution_a, solution_b,
    sum_ranges, IdRange,
};

const EXAMPLE: &str = "11-22,95-115,998-1012,1188511880-1188511890,222220-222224,1698522-1698528,446443-446449,38593856-38593862,565653-565659,824824821-824824827,2121212118-2121212124
";

fn lines_of(text: &str) -> Vec<String> {
    text.lines().map(|l| l.to_string()).collect()
}

#[test]
fn day2_test_example_1() {
    assert_eq!(solution_a(&lines_of(EXAMPLE)), Some(1227775554));
}

#[test]
fn day2_test_example_1b() {
    assert_eq!(solution_b(&lines_of(EXAMPLE)), Some(4174379265));
}

#[test]
fn day2_gives_both_sums() {
    assert_eq!(day2(&lines_of(EXAMPLE)), Some((1227775554, 4174379265)));
    assert_eq!(day2(&lines_of("11-22")), Some((33, 33)));
    assert_eq!(day2(&lines_of("95-115")), Some((99, 210)));
    assert_eq!(day2(&Vec::new()), Some((0, 0)));
}

#[test]
fn digits_are_written_first_digit_first() {
    assert_eq!(digits(0), vec![0]);
    assert_eq!(digits(7), vec![7]);
    assert_eq!(digits(10), vec![1, 0]);
    assert_eq!(digits(120345), vec![1, 2, 0, 3, 4, 5]);
}

#[test]
fn pattern_is_found_by_its_length() {
    let d = digits(121212);
    assert!(!is_pattern(&d, 0));
    assert!(!is_pattern(&d, 1));
    assert!(is_pattern(&d, 2));
    assert!(!is_pattern(&d, 3));
    assert!(!is_pattern(&d, 4));
    assert!(!is_pattern(&d, 6));
    assert!(is_pattern(&digits(7777), 1));
    assert!(is_pattern(&digits(7777), 2));
    assert!(!is_pattern(&digits(7777), 3));
}

#[test]
fn numbers_are_classified() {
    assert_eq!(classify(5), (false, false));
    assert_eq!(classify(55), (true, true));
    assert_eq!(classify(555), (false, true));
    assert_eq!(classify(5555), (true, true));
    assert_eq!(classify(123123), (true, true));
    assert_eq!(classify(121212), (false, true));
    assert_eq!(classify(123124), (false, false));
    assert_eq!(classify(1010), (true, true));
    assert_eq!(classify(101), (false, false));
}

#[test]
fn a_number_counts_once_for_each_range() {
    let ranges = vec![IdRange { start: 10, end: 12 }, IdRange { start: 11, end: 11 }];
    assert_eq!(sum_ranges(&ranges), Some((22, 22)));
}

#[test]
fn a_range_that_ends_before_it_starts_is_empty() {
    assert_eq!(sum_ranges(&vec![IdRange { start: 30, end: 20 }]), Some((0, 0)));
    assert_eq!(sum_ranges(&vec![IdRange { start: 22, end: 22 }]), Some((22, 22)));
}

#[test]
fn sums_that_leave_an_i64_fail() {
    let big = 9223372036854775807usize - 1000;
    let ranges = vec![
        IdRange { start: 7777777777777777777, end: 7777777777777777777 },
        IdRange { start: 7777777777777777777, end: 7777777777777777777 },
    ];
    assert_eq!(sum_ranges(&ranges[..1].to_vec()), Some((0, 7777777777777777777)));
    assert_eq!(sum_ranges(&ranges), None);
    assert_eq!(sum_ranges(&vec![IdRange { start: big, end: big + 10 }]), Some((0, 0)));
}

#[test]
fn read_input_cuts_lines_at_commas() {
    let ranges = read_input(&lines_of("1-2,30-40\n,junk,5-5,\n")).unwrap();
    assert_eq!(
        ranges,
        vec![
            IdRange { start: 1, end: 2 },
            IdRange { start: 30, end: 40 },
            IdRange { start: 5, end: 5 },
        ]
    );
}

#[test]
fn read_input_takes_the_first_range_of_a_piece() {
    let ranges = read_input(&lines_of("ids 1-2 and 3-4,5-6-7")).unwrap();
    assert_eq!(ranges, vec![IdRange { start: 1, end: 2 }, IdRange { start: 5, end: 6 }]);
}

#[test]
fn ranges_fail_on_a_number_too_large() {
    assert_eq!(read_input(&lines_of("1-99999999999999999999999")), None);
    assert_eq!(day2(&lines_of("1-99999999999999999999999")), None);
}

#[test]
fn ranges_from_records_wants_two_numbers() {
    let record = |words: &[&str]| -> Vec<String> { words.iter().map(|w| w.to_string()).collect() };
    assert_eq!(
        ranges_from_records(&vec![record(&["3-9", "3", "9"])]),
        Some(vec![IdRange { start: 3, end: 9 }])
    );
    assert_eq!(ranges_from_records(&vec![record(&["3-9", "3"])]), None);
    assert_eq!(ranges_from_records(&vec![record(&["3-x", "3", "x"])]), None);
}
