use aoc24::day2::{get_tendency, is_report_safe, parse_input, remove_from_report, solve};

fn sample_input() -> String {
    String::from(
        r#"7 6 4 2 1
               1 2 7 8 9
               9 7 6 2 1
               1 3 2 4 5
               8 6 4 4 1
               1 3 6 7 9"#,
    )
}

#[test]
fn new_report() {
    let report = vec![1, 2, 3];
    let report_without_0 = remove_from_report(&report, 0);
    let report_without_1 = remove_from_report(&report, 1);
    let report_without_2 = remove_from_report(&report, 2);

    assert_eq!(report_without_0, vec![2, 3]);
    assert_eq!(report_without_1, vec![1, 3]);
    assert_eq!(report_without_2, vec![1, 2]);
}

#[test]
fn day2_sample_input_one_star_answer() {
    let solution = solve(sample_input()).expect("expected Ok(Solution), got Err()");
    assert_eq!(solution.one_star_answer, 2);
}

#[test]
fn day2_sample_input_two_star_answer() {
    let solution = solve(sample_input()).expect("expected Ok(Solution), got Err()");
    assert_eq!(solution.two_star_answer, 4);
}

#[test]
fn removing_past_the_end_keeps_the_report() {
    assert_eq!(remove_from_report(&[4, 5], 2), vec![4, 5]);
    assert_eq!(remove_from_report(&[], 0), Vec::<i32>::new());
}

#[test]
fn safety_rules() {
    assert!(is_report_safe(&[7, 6, 4, 2, 1]));
    assert!(!is_report_safe(&[1, 2, 7, 8, 9]));
    assert!(!is_report_safe(&[1, 3, 2, 4, 5]));
    assert!(!is_report_safe(&[5]));
    assert!(!is_report_safe(&[]));
    assert!(is_report_safe(&[3, 3, 3]));
    assert!(!is_report_safe(&[i32::MIN, i32::MAX]));
}

#[test]
fn tendencies() {
    assert_eq!(get_tendency(1, 5), 1);
    assert_eq!(get_tendency(5, 1), -1);
    assert_eq!(get_tendency(2, 2), 0);
}

#[test]
fn parsing_reports() {
    let reports = parse_input(String::from("1 2 3\n-4 +5\n\n7\n")).expect("expected Ok");
    assert_eq!(reports, vec![vec![1, 2, 3], vec![-4, 5], vec![], vec![7]]);
    assert!(parse_input(String::from("1 2 x")).is_err());
    assert!(parse_input(String::from("1 2147483648")).is_err());
    assert!(solve(String::from("1 2\n3 -")).is_err());
}
