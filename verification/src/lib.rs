//! Verified solutions to a set of grid, parsing and search puzzles.
//!
//! Every module states what its functions compute as `ensures` clauses over
//! spec functions, and Verus proves the executable code against them. The
//! parsers work on the bytes of the text and return `None` for text they
//! cannot read; sums and products that leave their integer type give
//! `None` too.
//!
//! - `day01`: calibration values from the digits of each line
//! - `day02`: games of coloured dice against a fixed supply
//! - `day03`: part numbers and gear ratios of an engine schematic
//! - `day04`: scratch cards and the copies they win
//! - `day05`: seeds sent through a chain of range mappings
//! - `day06`: ways to beat the record of a boat race
//! - `day07`: hands of cards, ranked with and without jokers
//! - `day08`: walks through a network by a repeating list of turns
//! - `day09`: histories continued by their differences
//! - `day10`: a loop of pipes and the ground it encloses
//! - `day11`: distances between galaxies in an expanding sky
//! - `day13`: patterns and their mirror lines
//! - `day14`: a platform of rolling rocks, tilted and spun
//! - `day15`: a byte hash and boxes of lenses
//! - `day16`: a beam of light among mirrors and splitters
//! - `day17`: the cheapest path across a grid under run-length limits
//! - `day19`: workflows that accept or reject parts
//! - `day22`: falling bricks and the bricks that carry them
//! - `text`, `fold`, `order`: splitting text and reading numbers, sums of
//!   optional values, small sorts

pub mod day01;
pub mod day02;
pub mod day03;
pub mod day04;
pub mod day05;
pub mod day06;
pub mod day07;
pub mod day08;
pub mod day09;
pub mod day10;
pub mod day11;
pub mod day13;
pub mod day14;
pub mod day15;
pub mod day16;
pub mod day17;
pub mod day19;
pub mod day22;
pub mod fold;
pub mod order;
pub mod text;
