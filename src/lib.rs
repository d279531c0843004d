//! Puzzle solvers over plain text input, with a verified scanner and interpreter
//! for `mul(a,b)`, `do()` and `don't()` instructions.
pub mod common;
pub mod day1;
pub mod day2;
pub mod day3;
pub mod day4;
pub mod solutions;
pub mod text;
