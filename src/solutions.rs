//! Choosing the solver of a puzzle day.
use vstd::prelude::*;

use crate::common::Solution;
use crate::{day1, day2, day3, day4};

verus! {

/// Both answers of day `day_number` for `input`. Fails for a day that has no
/// solver, and as that day's solver fails.
pub fn solve_day(day_number: i32, input: String) -> (r: Result<Solution, String>)
    ensures
        day_number == 1 ==> day1::solved(input@, r),
        day_number == 2 ==> day2::solved(input@, r),
        day_number == 3 ==> day3::solved(input@, r),
        day_number == 4 ==> day4::solved(input@, r),
        !(1 <= day_number <= 4) ==> r is Err,
{
    match day_number {
        1 => day1::solve(input),
        2 => day2::solve(input),
        3 => day3::solve(input),
        4 => day4::solve(input),
        _ => Err("solution for given day not implemented".to_owned()),
    }
}

} // verus!
