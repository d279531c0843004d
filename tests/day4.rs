use aoc24::day4::{solve, WordSearch};

fn sample_input() -> String {
    r#"MMMSXXMASM
MSAMXMSMSA
AMXSXMAAMM
MSAMASMSMX
XMASAMXAMM
XXAMMXXAMA
SMSMSASXSS
SAXAMASAAA
MAMMMXMMMM
MXMXAXMASX"#
        .to_string()
}

#[test]
fn parse_input() {
    let invalid_input = "XMASQ".to_string();
    WordSearch::from(&invalid_input).expect_err("expected Err(), got Ok(WordSearch)");

    let word_search =
        WordSearch::from(&sample_input()).expect("expected Ok(WordSearch), got Err()");

    assert_eq!(word_search.height, 10);
    assert_eq!(word_search.width, 10);
}

#[test]
fn get_at() {
    let word_search =
        WordSearch::from(&sample_input()).expect("expected Ok(WordSearch), got Err()");

    assert_eq!(word_search.get_at(0, 1), Some('M'));
    assert_eq!(word_search.get_at(1, 1), Some('S'));
    assert_eq!(word_search.get_at(0, 2), Some('A'));
    assert_eq!(word_search.get_at(9, 1), Some('A'));
    assert_eq!(word_search.get_at(0, 9), Some('M'));
    assert_eq!(word_search.get_at(4, 9), Some('A'));
}

#[test]
fn day4_sample_input_one_star_answer() {
    let solution = solve(sample_input()).expect("expected Ok(Solution), got Err()");
    assert_eq!(solution.one_star_answer, 18);
}

#[test]
fn day4_sample_input_two_star_answer() {
    let solution = solve(sample_input()).expect("expected Ok(Solution), got Err()");
    assert_eq!(solution.two_star_answer, 9);
}

#[test]
fn get_at_outside_the_grid_is_none() {
    let word_search = WordSearch::from("XM\nAS").ok().unwrap();
    assert_eq!(word_search.get_at(-1, 0), None);
    assert_eq!(word_search.get_at(0, -1), None);
    assert_eq!(word_search.get_at(2, 0), None);
    assert_eq!(word_search.get_at(0, 2), None);
    assert_eq!(word_search.get_at(1, 1), Some('S'));
}

#[test]
fn line_endings_are_not_letters() {
    let word_search = WordSearch::from("XM\r\nAS\r\n").ok().unwrap();
    assert_eq!(word_search.width, 2);
    assert_eq!(word_search.height, 2);
    assert_eq!(word_search.characters, vec![b'X', b'M', b'A', b'S']);
}

#[test]
fn empty_input_is_an_error() {
    assert!(WordSearch::from("").is_err());
    assert!(solve(String::new()).is_err());
    assert!(solve(String::from("XMAS\nXMAZ")).is_err());
}

#[test]
fn xmas_in_both_directions_of_a_row() {
    let solution = solve(String::from("XMAS\nSAMX\nXXXX\nXXXX")).expect("expected Ok(Solution), got Err()");
    assert_eq!(solution.one_star_answer, 2);
    assert_eq!(solution.two_star_answer, 0);
}

#[test]
fn one_cross_of_mas() {
    let solution = solve(String::from("MXS\nXAX\nMXS")).expect("expected Ok(Solution), got Err()");
    assert_eq!(solution.two_star_answer, 1);
    let solution = solve(String::from("MXM\nXAX\nMXS")).expect("expected Ok(Solution), got Err()");
    assert_eq!(solution.two_star_answer, 0);
}
