//! Solvers for small grid and number puzzles, each verified against its
//! contract. The guard patrol simulator in `day06` is the largest: it walks
//! a guard over a map until it leaves or cycles, and counts the cells where
//! one added wall would trap it in a cycle.

pub mod day01;
pub mod day02;
pub mod day03;
pub mod day04;
pub mod day05;
pub mod day06;
pub mod day07;
pub mod day08;
pub mod text;
