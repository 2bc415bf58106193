//! Blank solver scaffold: both answers of an unwritten puzzle are zero.

use vstd::prelude::*;

verus! {

/// The first answer of the unwritten puzzle.
pub fn part1(input: &str) -> (r: u64)
    ensures
        r == 0,
{
    0
}

/// The second answer of the unwritten puzzle.
pub fn part2(input: &str) -> (r: u64)
    ensures
        r == 0,
{
    0
}

} // verus!
