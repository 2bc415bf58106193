//! Sequence extrapolation over a list of already-split lines.  The
//! work is the same as in [`crate::day9`]; only the shape of the input
//! differs.

use vstd::prelude::*;

verus! {

/// The lines as sequences of characters.
pub open spec fn lines_view(lines: Seq<String>) -> Seq<Seq<char>> {
    Seq::new(lines.len(), |i: int| lines[i]@)
}

/// The sum of every line's extrapolated next value.
pub fn part1(lines: &[String]) -> (r: i32)
    requires
        forall|i: int|
            0 <= i < lines@.len() ==> crate::day9::line_solvable(
                #[trigger] lines_view(lines@)[i],
            ),
        lines@.len() < 0x8000_0000,
        i32::MIN <= crate::day9::sum_extraps(lines_view(lines@)) <= i32::MAX,
    ensures
        r == crate::day9::sum_extraps(lines_view(lines@)),
{
    let ghost ls = lines_view(lines@);
    let n = lines.len();
    let mut linevecs: Vec<Vec<char>> = Vec::new();
    let mut i: usize = 0;
    while i < n
        invariant
            n == ls.len(),
            n == lines@.len(),
            ls == lines_view(lines@),
            0 <= i <= n,
            linevecs@.len() == i,
            forall|k: int| 0 <= k < i ==> linevecs.deep_view()[k] == ls[k],
        decreases n - i,
    {
        linevecs.push(crate::text::chars_of(lines[i].as_str()));
        i = i + 1;
    }
    proof {
        assert(linevecs.deep_view() =~~= ls);
    }
    let t = crate::day9::total_extrapolated(&linevecs);
    t as i32
}

/// The sum of every line's extrapolated previous value.
pub fn part2(lines: &[String]) -> (r: i32)
    requires
        forall|i: int|
            0 <= i < lines@.len() ==> crate::day9::line_solvable_rev(
                #[trigger] lines_view(lines@)[i],
            ),
        lines@.len() < 0x8000_0000,
        i32::MIN <= crate::day9::sum_extraps_rev(lines_view(lines@)) <= i32::MAX,
    ensures
        r == crate::day9::sum_extraps_rev(lines_view(lines@)),
{
    let ghost ls = lines_view(lines@);
    let n = lines.len();
    let mut linevecs: Vec<Vec<char>> = Vec::new();
    let mut i: usize = 0;
    while i < n
        invariant
            n == ls.len(),
            n == lines@.len(),
            ls == lines_view(lines@),
            0 <= i <= n,
            linevecs@.len() == i,
            forall|k: int| 0 <= k < i ==> linevecs.deep_view()[k] == ls[k],
        decreases n - i,
    {
        linevecs.push(crate::text::chars_of(lines[i].as_str()));
        i = i + 1;
    }
    proof {
        assert(linevecs.deep_view() =~~= ls);
    }
    let t = crate::day9::total_extrapolated_rev(&linevecs);
    t as i32
}

} // verus!
