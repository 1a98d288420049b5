use advent::{year_2015, year_2025};

fn lines_of(text: &str) -> Vec<String> {
    text.lines().map(|l| l.to_string()).collect()
}

#[test]
fn solutions_of_2025_run_by_name() {
    assert_eq!(year_2025::run_solution("day2a", &lines_of("11-22,95-115")), Some(132));
    assert_eq!(year_2025::run_solution("day2b", &lines_of("11-22,95-115")), Some(243));
    assert_eq!(year_2025::run_solution("day4a", &lines_of("@@@\n@@@\n@@@\n")), Some(4));
    assert_eq!(year_2025::run_solution("day4b", &lines_of("@@@\n@@@\n@@@\n")), Some(9));
    let points = lines_of("0,0,0\n1,0,0\n0,5,0\n3,5,0\n");
    assert_eq!(year_2025::run_solution("day8a", &points), Some(4));
    assert_eq!(year_2025::run_solution("day8b", &points), Some(0));
    assert_eq!(year_2025::run_solution("day8b", &lines_of("2,0,0\n7,0,0\n")), Some(14));
}

#[test]
fn solutions_of_2025_fail_as_none() {
    assert_eq!(year_2025::run_solution("day9a", &lines_of("1,2,3")), None);
    assert_eq!(year_2025::run_solution("", &lines_of("1,2,3")), None);
    assert_eq!(year_2025::run_solution("day8b", &lines_of("1,2,3")), None);
    assert_eq!(year_2025::run_solution("day4a", &lines_of("@@\n@\n")), None);
    assert_eq!(year_2025::run_solution("day2a", &lines_of("1-99999999999999999999999999")), None);
}

#[test]
fn solutions_of_2015_run_by_name() {
    assert_eq!(year_2015::run_solution("day1a", &lines_of("()())")), Some(-1));
    assert_eq!(year_2015::run_solution("day1b", &lines_of("()())")), Some(5));
    assert_eq!(year_2015::run_solution("day6a", &lines_of("turn on 0,0 through 9,9\ntoggle 5,5 through 14,14")), Some(150));
    assert_eq!(year_2015::run_solution("day6b", &lines_of("turn on 0,0 through 9,9\ntoggle 5,5 through 14,14")), Some(300));
}

#[test]
fn solutions_of_2015_fail_as_none() {
    assert_eq!(year_2015::run_solution("day1a", &lines_of("())\n)")), None);
    assert_eq!(year_2015::run_solution("day1a", &Vec::new()), None);
    assert_eq!(year_2015::run_solution("day1b", &lines_of("(((")), None);
    assert_eq!(year_2015::run_solution("day2a", &lines_of(")")), None);
    assert_eq!(year_2015::run_solution("day6a", &lines_of("turn on 0,0 through 1000,1000")), None);
}
