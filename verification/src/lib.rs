//! Verified solvers for a series of small text-puzzle inputs.
//!
//! Each `day*` module parses one fixed textual input format and computes
//! its answers with contracts that pin the results down. The `text`
//! module holds the shared, verified string-splitting and numeral
//! parsing; `seqs` and `nums` the shared sequence and integer helpers;
//! `error` the error kinds the solvers surface.

pub mod day1;
pub mod day2;
pub mod day3;
pub mod day4;
pub mod day5;
pub mod day6;
pub mod day7;
pub mod day8;
pub mod day9;
pub mod day10;
pub mod day11;
pub mod day12;
pub mod day13;
pub mod day14;
pub mod day15;
pub mod error;
pub mod nums;
pub mod seqs;
pub mod text;
