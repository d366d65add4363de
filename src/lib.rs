//! Solvers for a collection of small daily puzzles, with the tile reassembly
//! puzzle (`day20`) as the largest unit.

pub mod grid;
pub mod seqs;
pub mod text;

pub mod day1;
pub mod day2;
pub mod day3;
pub mod day4;
pub mod day5;
pub mod day6;
pub mod day8;
pub mod day9;
pub mod day10;
pub mod day11;
pub mod day12;
pub mod day13;
pub mod day14;
pub mod day15;
pub mod day18;
pub mod day20;
pub mod day22;
pub mod day23;
pub mod day24;
pub mod day25;
