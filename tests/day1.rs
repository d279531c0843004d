use aoc24::day1::{calculate_distances, calculate_similiarities, parse_input, solve};

fn sample_input() -> String {
    String::from(
        r#"3   4
4   3
2   5
1   3
3   9
3   3"#,
    )
}

#[test]
fn day1_sample_input_one_star_answer() {
    let solution = solve(sample_input()).expect("expected Ok(Solution), got Err()");
    assert_eq!(solution.one_star_answer, 11);
}

#[test]
fn day1_sample_input_two_star_answer() {
    let solution = solve(sample_input()).expect("expected Ok(Solution), got Err()");
    assert_eq!(solution.two_star_answer, 31);
}

#[test]
fn columns_are_sorted() {
    let columns = parse_input(sample_input()).expect("expected Ok");
    assert_eq!(columns[0], vec![1, 2, 3, 3, 3, 4]);
    assert_eq!(columns[1], vec![3, 3, 3, 4, 5, 9]);
}

#[test]
fn missing_or_bad_columns_fail() {
    assert!(parse_input(String::from("1 2\n3")).is_err());
    assert!(parse_input(String::from("1 2\n3 x")).is_err());
    assert!(solve(String::from("1 2\n\n3 4")).is_err());
    assert!(parse_input(String::from("1 2\r\n3 4\n")).is_ok());
}

#[test]
fn distances_and_similarities() {
    let columns = [vec![-5, 0, 7], vec![-1, 0, 7]];
    assert_eq!(calculate_distances(&columns), Some(4));
    assert_eq!(calculate_similiarities(&columns), Some(7));
    let columns = [vec![2, 2], vec![2, 2, 2]];
    assert_eq!(calculate_similiarities(&columns), Some(12));
}

#[test]
fn answers_beyond_i32_fail() {
    let columns = [vec![i32::MIN], vec![i32::MAX]];
    assert_eq!(calculate_distances(&columns), None);
    let columns = [vec![i32::MAX, i32::MAX], vec![i32::MAX]];
    assert_eq!(calculate_similiarities(&columns), None);
    assert!(solve(String::from("-2147483648 2147483647")).is_err());
}

#[test]
fn default_solution_is_zero() {
    let solution = aoc24::common::Solution::default();
    assert_eq!(solution.one_star_answer, 0);
    assert_eq!(solution.two_star_answer, 0);
}
