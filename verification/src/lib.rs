//! A collection of small, independent puzzle solvers.
//!
//! Each module parses a block of text lines and reduces it to one or two
//! numeric answers.  The most substantial piece is [`day05`], a range
//! remapper that threads integer intervals through a chain of
//! piecewise-linear remapping tables, splitting them at table boundaries.

pub mod day01;
pub mod day02;
pub mod day04;
pub mod day05;
pub mod day06;
pub mod day09;
pub mod day8;
pub mod day9;
pub mod template;
pub mod text;
