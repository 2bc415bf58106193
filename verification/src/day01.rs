//! Calibration lines: each line hides a two-digit number, made of its
//! first and its last digit.

use vstd::prelude::*;

verus! {

/// The first digit position at or after `i`, or -1 without one.
pub open spec fn first_digit(l: Seq<char>, i: int) -> int
    decreases l.len() - i,
{
    if i < 0 || i >= l.len() {
        -1
    } else if crate::text::is_digit(l[i]) {
        i
    } else {
        first_digit(l, i + 1)
    }
}

/// The last digit position at or before `i`, or -1 without one.
pub open spec fn last_digit(l: Seq<char>, i: int) -> int
    decreases i + 1,
{
    if i < 0 || i >= l.len() {
        -1
    } else if crate::text::is_digit(l[i]) {
        i
    } else {
        last_digit(l, i - 1)
    }
}

/// The two-digit number a line hides: ten times its first digit plus
/// its last digit.
pub open spec fn line_value(l: Seq<char>) -> int {
    10 * crate::text::digit_val(l[first_digit(l, 0)]) + crate::text::digit_val(
        l[last_digit(l, l.len() - 1)],
    )
}

/// Every line holds at least one digit.
pub open spec fn lines_have_digits(ls: Seq<Seq<char>>) -> bool {
    forall|i: int| 0 <= i < ls.len() ==> first_digit(#[trigger] ls[i], 0) >= 0
}

/// The summed line values of the first `n` lines.
pub open spec fn sum_values(ls: Seq<Seq<char>>, n: int) -> int
    decreases n,
{
    if n <= 0 {
        0
    } else {
        sum_values(ls, n - 1) + line_value(ls[n - 1])
    }
}

proof fn lemma_first_digit(l: Seq<char>, i: int)
    requires
        0 <= i <= l.len(),
    ensures
        first_digit(l, i) == -1 || (i <= first_digit(l, i) < l.len() && crate::text::is_digit(
            l[first_digit(l, i)],
        )),
    decreases l.len() - i,
{
    if i < l.len() && !crate::text::is_digit(l[i]) {
        lemma_first_digit(l, i + 1);
    }
}

proof fn lemma_last_digit(l: Seq<char>, i: int)
    requires
        i < l.len(),
    ensures
        last_digit(l, i) == -1 || (0 <= last_digit(l, i) <= i && crate::text::is_digit(
            l[last_digit(l, i)],
        )),
    decreases i + 1,
{
    if 0 <= i && !crate::text::is_digit(l[i]) {
        lemma_last_digit(l, i - 1);
    }
}

/// A line with a digit has a last digit too.
proof fn lemma_digits_both_ends(l: Seq<char>)
    requires
        first_digit(l, 0) >= 0,
    ensures
        0 <= last_digit(l, l.len() - 1) < l.len(),
        crate::text::is_digit(l[last_digit(l, l.len() - 1)]),
        0 <= first_digit(l, 0) < l.len(),
        crate::text::is_digit(l[first_digit(l, 0)]),
{
    lemma_first_digit(l, 0);
    let f = first_digit(l, 0);
    lemma_last_digit(l, l.len() - 1);
    if last_digit(l, l.len() - 1) == -1 {
        lemma_last_digit_found(l, l.len() - 1, f);
    }
}

proof fn lemma_last_digit_found(l: Seq<char>, i: int, f: int)
    requires
        0 <= f <= i < l.len(),
        crate::text::is_digit(l[f]),
    ensures
        last_digit(l, i) >= 0,
    decreases i + 1,
{
    if !crate::text::is_digit(l[i]) {
        lemma_last_digit_found(l, i - 1, f);
    }
}

/// The value of one line.
fn value_of_line(l: &Vec<char>) -> (r: u32)
    requires
        first_digit(l@, 0) >= 0,
    ensures
        r == line_value(l@),
{
    proof {
        lemma_digits_both_ends(l@);
    }
    let n = l.len();
    let mut i: usize = 0;
    while i < n && !(48 <= l[i] as u32 && l[i] as u32 <= 57)
        invariant
            n == l@.len(),
            0 <= i <= n,
            first_digit(l@, 0) == first_digit(l@, i as int),
        decreases n - i,
    {
        i = i + 1;
    }
    proof {
        assert(first_digit(l@, i as int) == i);
    }
    let first = (l[i] as u32) - 48;
    let mut j: usize = n - 1;
    while !(48 <= l[j] as u32 && l[j] as u32 <= 57)
        invariant
            n == l@.len(),
            0 <= j < n,
            last_digit(l@, n - 1) == last_digit(l@, j as int),
            last_digit(l@, j as int) >= 0,
        decreases j,
    {
        proof {
            assert(last_digit(l@, j as int) == last_digit(l@, j - 1));
        }
        j = j - 1;
    }
    proof {
        assert(last_digit(l@, j as int) == j);
    }
    let last = (l[j] as u32) - 48;
    10 * first + last
}

/// The sum of every line's hidden two-digit number.
pub fn part1(lines: &[String]) -> (r: u32)
    requires
        lines_have_digits(crate::text::lines_view(lines@)),
        forall|n: int|
            0 <= n <= lines@.len() ==> 0 <= #[trigger] sum_values(
                crate::text::lines_view(lines@),
                n,
            ) <= u32::MAX,
    ensures
        r == sum_values(
            crate::text::lines_view(lines@),
            lines@.len() as int,
        ),
{
    let ghost ls = crate::text::lines_view(lines@);
    let n = lines.len();
    let mut acc: u32 = 0;
    let mut i: usize = 0;
    while i < n
        invariant
            n == ls.len(),
            n == lines@.len(),
            ls == crate::text::lines_view(lines@),
            lines_have_digits(ls),
            forall|k: int| 0 <= k <= n ==> 0 <= #[trigger] sum_values(ls, k) <= u32::MAX,
            0 <= i <= n,
            acc == sum_values(ls, i as int),
        decreases n - i,
    {
        let lv = crate::text::chars_of(lines[i].as_str());
        proof {
            assert(lv@ == ls[i as int]);
            assert(first_digit(ls[i as int], 0) >= 0);
            assert(sum_values(ls, i + 1) == sum_values(ls, i as int) + line_value(ls[i as int]));
            lemma_digits_both_ends(ls[i as int]);
        }
        let v = value_of_line(&lv);
        acc = acc + v;
        i = i + 1;
    }
    acc
}

} // verus!
