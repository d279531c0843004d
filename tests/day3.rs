use aoc24::day3::{interpret, scan, solve, tokenize, LexicalAnalyzer};
use aoc24::solutions::solve_day;

fn sample_input() -> String {
    String::from("xmul(2,4)%&mul[3,7]!@^do_not_mul(5,5)+mul(32,64]then(mul(11,8)mul(8,5))")
}

fn sample_input_2() -> String {
    String::from("xmul(2,4)&mul[3,7]!^don't()_mul(5,5)+mul(32,64](mul(11,8)undo()?mul(8,5))")
}

#[test]
fn lexical_analysis_basic() {
    let input = sample_input();
    let mut lexer = LexicalAnalyzer::new();

    for c in input.chars() {
        lexer.put_char(c);
    }
    lexer.finalize();

    assert_eq!(lexer.output, "mul(2,4) mul(5,5) mul(11,8) mul(8,5)");
}

#[test]
fn lexical_analysis_advanced() {
    let input = sample_input_2();
    let mut lexer = LexicalAnalyzer::new();

    for c in input.chars() {
        lexer.put_char(c);
    }
    lexer.finalize();

    assert_eq!(
        lexer.output,
        "mul(2,4) don't() mul(5,5) mul(11,8) do() mul(8,5)"
    );
}

#[test]
fn tokenization() {
    let input_basic = String::from("mul(2,4) mul(5,5) mul(11,8) mul(8,5)");
    let input_advanced = String::from("mul(2,4) don't() mul(5,5) mul(11,8) do() mul(8,5)");

    let tokens_basic = tokenize(&input_basic, false);
    let tokens_adv_wo_toggle = tokenize(&input_advanced, false);
    let tokens_adv_w_toggle = tokenize(&input_advanced, true);

    assert_eq!(vec![(2, 4), (5, 5), (11, 8), (8, 5)], tokens_basic);
    assert_eq!(vec![(2, 4), (5, 5), (11, 8), (8, 5)], tokens_adv_wo_toggle);
    assert_eq!(vec![(2, 4), (8, 5)], tokens_adv_w_toggle);
}

#[test]
fn day3_sample_input_one_star_answer() {
    let solution = solve(sample_input()).expect("expected Ok(Solution), got Err()");
    assert_eq!(solution.one_star_answer, 161);
}

#[test]
fn day3_sample_input_two_star_answer() {
    let solution = solve(sample_input_2()).expect("expected Ok(Solution), got Err()");
    assert_eq!(solution.two_star_answer, 48);
}

#[test]
fn scan_sample_inputs() {
    assert_eq!(scan(&sample_input()), "mul(2,4) mul(5,5) mul(11,8) mul(8,5)");
    assert_eq!(
        scan(&sample_input_2()),
        "mul(2,4) don't() mul(5,5) mul(11,8) do() mul(8,5)"
    );
}

#[test]
fn interpret_without_toggles_sums_all_products() {
    assert_eq!(interpret("mul(2,4) mul(5,5) mul(11,8) mul(8,5)", false), Some(161));
}

#[test]
fn interpret_with_toggles_skips_disabled_products() {
    let stream = "mul(2,4) don't() mul(5,5) mul(11,8) do() mul(8,5)";
    assert_eq!(interpret(stream, true), Some(48));
    assert_eq!(interpret(stream, false), Some(161));
}

#[test]
fn text_without_m_or_d_gives_nothing() {
    let input = "xyz(1,2) 123 ,() don't? ul(3,4)".replace('d', "x");
    assert_eq!(scan(&input), "");
    let solution = solve(input).expect("expected Ok(Solution), got Err()");
    assert_eq!(solution.one_star_answer, 0);
    assert_eq!(solution.two_star_answer, 0);
    assert_eq!(scan(""), "");
}

#[test]
fn scanning_twice_gives_the_same_stream() {
    let input = sample_input_2();
    assert_eq!(scan(&input), scan(&input));
}

#[test]
fn unfinished_mul_at_end_is_dropped() {
    assert_eq!(scan("mul("), "");
    assert_eq!(scan("mul(2,4)mul("), "mul(2,4)");
    assert_eq!(scan("mul(7,8"), "");
    let solution = solve(String::from("mul(")).expect("expected Ok(Solution), got Err()");
    assert_eq!(solution.one_star_answer, 0);
}

#[test]
fn overlapping_starts_are_not_rescanned() {
    assert_eq!(scan("mm"), "");
    assert_eq!(scan("mmul(2,3)"), "");
    assert_eq!(scan("ddo()"), "");
    assert_eq!(scan("ddon't()"), "");
    assert_eq!(scan("mul(2,3)mul(4,5)"), "mul(2,3) mul(4,5)");
    assert_eq!(scan("do()do()don't()"), "do() do() don't()");
}

#[test]
fn completion_order_follows_last_character() {
    assert_eq!(scan("mul(1,2)do()"), "mul(1,2) do()");
    assert_eq!(scan("don't()mul(3,3)"), "don't() mul(3,3)");
}

#[test]
fn unreadable_mul_words_count_as_zero() {
    assert_eq!(tokenize("mul(2) mul(,5) mul(99999999999,2) mul(3,4)", false), vec![(0, 0), (0, 0), (0, 0), (3, 4)]);
    assert_eq!(tokenize("mul(1,2,3) xmul(4,4) don't() mul(5,6)", true), vec![(1, 2)]);
}

#[test]
fn whitespace_of_any_kind_separates_words() {
    assert_eq!(tokenize("mul(1,2)\tmul(3,4)\n\u{3000}mul(5,6)", false), vec![(1, 2), (3, 4), (5, 6)]);
}

#[test]
fn total_beyond_i32_is_an_error() {
    assert_eq!(interpret("mul(2147483647,1)", false), Some(2147483647));
    assert_eq!(interpret("mul(2147483647,1) mul(1,1)", false), None);
    assert_eq!(interpret("mul(65536,65536)", false), None);
    assert!(solve(String::from("mul(65536,65536)")).is_err());
    let solution = solve(String::from("don't()mul(65536,65536)do()mul(3,3)"));
    assert!(solution.is_err());
}

#[test]
fn solving_by_day_number() {
    let solution = solve_day(3, sample_input_2()).expect("expected Ok(Solution), got Err()");
    assert_eq!(solution.one_star_answer, 161);
    assert_eq!(solution.two_star_answer, 48);
    assert!(solve_day(5, String::new()).is_err());
    assert!(solve_day(0, String::new()).is_err());
}
