//! Sequence extrapolation: repeatedly take differences until the
//! sequence is all zeroes, then extend every level by one step.  The
//! next value of a sequence is its last value plus the next value of
//! its difference sequence.

use vstd::prelude::*;

verus! {

/// The values of a machine-integer sequence, as unbounded integers.
pub open spec fn ints_of(s: Seq<i32>) -> Seq<int> {
    Seq::new(s.len(), |i: int| s[i] as int)
}

/// The difference sequence: one shorter, each value the step between
/// two neighbours.
pub open spec fn derive_spec(s: Seq<int>) -> Seq<int> {
    if s.len() == 0 {
        Seq::empty()
    } else {
        Seq::new((s.len() - 1) as nat, |i: int| s[i + 1] - s[i])
    }
}

/// All values are zero.
pub open spec fn all_zero(s: Seq<int>) -> bool {
    forall|i: int| 0 <= i < s.len() ==> s[i] == 0
}

/// The extrapolated next value: zero for an all-zero sequence, else the
/// last value plus the extrapolation of the difference sequence.
pub open spec fn extrap_spec(s: Seq<int>) -> int
    decreases s.len(),
{
    if s.len() == 0 || all_zero(s) {
        0
    } else {
        s.last() + extrap_spec(derive_spec(s))
    }
}

/// The repeated differences reach an all-zero sequence before running
/// out of values, as the puzzle input promises.
pub open spec fn ok_tower(s: Seq<int>) -> bool
    decreases s.len(),
{
    s.len() > 0 && (all_zero(s) || ok_tower(derive_spec(s)))
}

/// Every value fits a 32-bit signed integer.
pub open spec fn fits_i32(s: Seq<int>) -> bool {
    forall|i: int| 0 <= i < s.len() ==> i32::MIN <= #[trigger] s[i] <= i32::MAX
}

/// Every level of the difference tower fits 32-bit signed integers.
pub open spec fn tower_fits(s: Seq<int>) -> bool
    decreases s.len(),
{
    fits_i32(s) && (s.len() == 0 || all_zero(s) || tower_fits(derive_spec(s)))
}

/// The difference sequence of a sequence of machine integers.
pub fn derive(input: &Vec<i32>) -> (r: Vec<i32>)
    requires
        fits_i32(derive_spec(ints_of(input@))),
    ensures
        ints_of(r@) == derive_spec(ints_of(input@)),
{
    let ghost d = derive_spec(ints_of(input@));
    let mut r: Vec<i32> = Vec::new();
    if input.len() == 0 {
        proof {
            assert(ints_of(r@) =~= d);
        }
        return r;
    }
    let n = input.len();
    let mut i: usize = 0;
    while i + 1 < n
        invariant
            n == input@.len(),
            1 <= n,
            d == derive_spec(ints_of(input@)),
            fits_i32(d),
            d.len() == n - 1,
            0 <= i <= n - 1,
            r@.len() == i,
            forall|k: int| 0 <= k < i ==> ints_of(r@)[k] == d[k],
        decreases n - i,
    {
        proof {
            assert(d[i as int] == input@[i + 1] - input@[i as int]);
        }
        let a = input[i];
        let b = input[i + 1];
        let v = b - a;
        r.push(v);
        i = i + 1;
    }
    proof {
        assert(ints_of(r@) =~= d);
    }
    r
}

/// The running sums of a sequence, seeded with `c`: one longer than the
/// input, beginning at `c`, each later value the previous plus one
/// input value.
pub open spec fn integrate_spec(s: Seq<int>, c: int, i: int) -> int
    decreases i,
{
    if i <= 0 {
        c
    } else {
        integrate_spec(s, c, i - 1) + s[i - 1]
    }
}

/// Running sums of a sequence, seeded with `c`.
pub fn integrate(input: &Vec<i32>, c: i32) -> (r: Vec<i32>)
    requires
        forall|i: int|
            0 <= i <= input@.len() ==> i32::MIN <= #[trigger] integrate_spec(
                ints_of(input@),
                c as int,
                i,
            ) <= i32::MAX,
    ensures
        r@.len() == input@.len() + 1,
        forall|i: int|
            0 <= i < r@.len() ==> ints_of(r@)[i] == integrate_spec(ints_of(input@), c as int, i),
{
    let ghost s = ints_of(input@);
    let mut r: Vec<i32> = Vec::new();
    r.push(c);
    let n = input.len();
    let mut i: usize = 0;
    let mut acc = c;
    while i < n
        invariant
            n == input@.len(),
            s == ints_of(input@),
            forall|k: int| 0 <= k <= n ==> i32::MIN <= #[trigger] integrate_spec(s, c as int, k) <= i32::MAX,
            0 <= i <= n,
            r@.len() == i + 1,
            acc as int == integrate_spec(s, c as int, i as int),
            forall|k: int| 0 <= k < r@.len() ==> ints_of(r@)[k] == integrate_spec(s, c as int, k),
        decreases n - i,
    {
        proof {
            assert(integrate_spec(s, c as int, i + 1) == integrate_spec(s, c as int, i as int)
                + s[i as int]);
        }
        acc = acc + input[i];
        r.push(acc);
        i = i + 1;
    }
    r
}

/// Extend the difference tower of `input` one step: the value that
/// would come next.
pub fn extrapolate(input: &Vec<i32>) -> (r: i32)
    requires
        ok_tower(ints_of(input@)),
        tower_fits(ints_of(input@)),
        input@.len() < 0x8000_0000,
        i32::MIN <= extrap_spec(ints_of(input@)) <= i32::MAX,
    ensures
        r == extrap_spec(ints_of(input@)),
{
    let ghost s0 = ints_of(input@);
    let mut cur: Vec<i32> = Vec::new();
    let n0 = input.len();
    let mut ci: usize = 0;
    while ci < n0
        invariant
            n0 == input@.len(),
            0 <= ci <= n0,
            cur@ == input@.take(ci as int),
        decreases n0 - ci,
    {
        cur.push(input[ci]);
        proof {
            assert(cur@ =~= input@.take((ci + 1) as int));
        }
        ci = ci + 1;
    }
    proof {
        assert(cur@ =~= input@);
        assert(ints_of(cur@) == s0);
    }
    let mut acc: i64 = 0;
    loop
        invariant
            ok_tower(ints_of(cur@)),
            tower_fits(ints_of(cur@)),
            1 <= cur@.len() <= s0.len() < 0x8000_0000,
            extrap_spec(s0) == acc + extrap_spec(ints_of(cur@)),
            -((s0.len() - cur@.len()) * 0x8000_0000) <= acc <= (s0.len() - cur@.len())
                * 0x8000_0000,
        ensures
            extrap_spec(s0) == acc,
        decreases cur@.len(),
    {
        let m = cur.len();
        let mut z: usize = 0;
        while z < m && cur[z] == 0
            invariant
                m == cur@.len(),
                0 <= z <= m,
                forall|k: int| 0 <= k < z ==> ints_of(cur@)[k] == 0,
            decreases m - z,
        {
            z = z + 1;
        }
        if z == m {
            proof {
                assert(all_zero(ints_of(cur@)));
                assert(extrap_spec(ints_of(cur@)) == 0);
            }
            break;
        }
        proof {
            assert(ints_of(cur@)[z as int] != 0);
            assert(!all_zero(ints_of(cur@)));
            assert(ok_tower(derive_spec(ints_of(cur@))));
            assert(tower_fits(derive_spec(ints_of(cur@))));
            assert(derive_spec(ints_of(cur@)).len() == cur@.len() - 1);
            assert(extrap_spec(ints_of(cur@)) == ints_of(cur@).last() + extrap_spec(
                derive_spec(ints_of(cur@)),
            ));
        }
        let last = cur[m - 1];
        acc = acc + (last as i64);
        cur = derive(&cur);
    }
    proof {
        assert(extrap_spec(s0) == acc);
    }
    acc as i32
}

/// The numbers on one line; `None` when the line holds anything else.
pub open spec fn parse_i32_tokens(toks: Seq<Seq<char>>) -> Option<Seq<i32>>
    decreases toks.len(),
{
    if toks.len() == 0 {
        Some(Seq::empty())
    } else {
        match parse_i32_tokens(toks.drop_last()) {
            Option::Some(vs) => {
                if crate::text::is_int_token(toks.last()) && i32::MIN <= crate::text::int_of(
                    toks.last(),
                ) <= i32::MAX {
                    Some(vs.push(crate::text::int_of(toks.last()) as i32))
                } else {
                    None
                }
            },
            Option::None => None,
        }
    }
}

/// One line read as a sequence of numbers.
pub open spec fn line_nums(l: Seq<char>) -> Option<Seq<i32>> {
    parse_i32_tokens(crate::text::tokens_of(l))
}

/// Can every line be read, with a difference tower that reaches zero
/// and stays within 32-bit integers, and an extrapolated value in
/// range?
pub open spec fn line_solvable(l: Seq<char>) -> bool {
    &&& line_nums(l) is Some
    &&& ok_tower(ints_of(line_nums(l).unwrap()))
    &&& tower_fits(ints_of(line_nums(l).unwrap()))
    &&& line_nums(l).unwrap().len() < 0x8000_0000
    &&& i32::MIN <= extrap_spec(ints_of(line_nums(l).unwrap())) <= i32::MAX
}

/// As `line_solvable`, of the line read back to front.
pub open spec fn line_solvable_rev(l: Seq<char>) -> bool {
    &&& line_nums(l) is Some
    &&& ok_tower(ints_of(line_nums(l).unwrap().reverse()))
    &&& tower_fits(ints_of(line_nums(l).unwrap().reverse()))
    &&& line_nums(l).unwrap().len() < 0x8000_0000
    &&& i32::MIN <= extrap_spec(ints_of(line_nums(l).unwrap().reverse())) <= i32::MAX
}

/// The sum of the extrapolated next values, one per line.
pub open spec fn sum_extraps(ls: Seq<Seq<char>>) -> int
    decreases ls.len(),
{
    if ls.len() == 0 {
        0
    } else {
        sum_extraps(ls.drop_last()) + extrap_spec(ints_of(line_nums(ls.last()).unwrap()))
    }
}

/// The sum of the extrapolated previous values, one per line.
pub open spec fn sum_extraps_rev(ls: Seq<Seq<char>>) -> int
    decreases ls.len(),
{
    if ls.len() == 0 {
        0
    } else {
        sum_extraps_rev(ls.drop_last()) + extrap_spec(
            ints_of(line_nums(ls.last()).unwrap().reverse()),
        )
    }
}

/// Read one line of numbers.
fn parse_line(l: &Vec<char>) -> (r: Vec<i32>)
    requires
        line_nums(l@) is Some,
    ensures
        r@ == line_nums(l@).unwrap(),
{
    let ghost toks_s = crate::text::tokens_of(l@);
    let toks = crate::text::split_ws(l.as_slice());
    assert(toks.deep_view() == toks_s);
    proof {
        lemma_parse_i32_tokens(toks_s);
    }
    let mut r: Vec<i32> = Vec::new();
    let mut i: usize = 0;
    let n = toks.len();
    while i < n
        invariant
            n == toks_s.len(),
            toks.deep_view() == toks_s,
            toks@.len() == n,
            parse_i32_tokens(toks_s) is Some,
            parse_i32_tokens(toks_s).unwrap().len() == n,
            forall|k: int|
                0 <= k < n ==> crate::text::is_int_token(#[trigger] toks_s[k]) && i32::MIN
                    <= crate::text::int_of(toks_s[k]) <= i32::MAX && parse_i32_tokens(
                    toks_s,
                ).unwrap()[k] == crate::text::int_of(toks_s[k]),
            0 <= i <= n,
            r@ == parse_i32_tokens(toks_s).unwrap().take(i as int),
        decreases n - i,
    {
        proof {
            assert(toks@[i as int]@ == toks_s[i as int]);
        }
        match crate::text::parse_i32(toks[i].as_slice()) {
            Option::Some(v) => {
                r.push(v);
                proof {
                    assert(r@ =~= parse_i32_tokens(toks_s).unwrap().take((i + 1) as int));
                }
            },
            Option::None => {
                proof {
                    assert(false);
                }
            },
        }
        i = i + 1;
    }
    proof {
        assert(r@ =~= parse_i32_tokens(toks_s).unwrap());
    }
    r
}

/// Each token of a fully read line is a number in range.
proof fn lemma_parse_i32_tokens(toks: Seq<Seq<char>>)
    ensures
        parse_i32_tokens(toks) is Some ==> parse_i32_tokens(toks).unwrap().len() == toks.len()
            && forall|i: int|
            0 <= i < toks.len() ==> crate::text::is_int_token(#[trigger] toks[i]) && i32::MIN
                <= crate::text::int_of(toks[i]) <= i32::MAX && parse_i32_tokens(
                toks,
            ).unwrap()[i] == crate::text::int_of(toks[i]),
    decreases toks.len(),
{
    if toks.len() > 0 {
        lemma_parse_i32_tokens(toks.drop_last());
        assert(forall|i: int| 0 <= i < toks.len() - 1 ==> toks.drop_last()[i] == toks[i]);
        if parse_i32_tokens(toks) is Some {
            assert(parse_i32_tokens(toks.drop_last()) is Some);
            assert(crate::text::is_int_token(toks.last()) && i32::MIN <= crate::text::int_of(
                toks.last(),
            ) <= i32::MAX);
            let vs = parse_i32_tokens(toks.drop_last()).unwrap();
            assert(parse_i32_tokens(toks).unwrap() == vs.push(
                crate::text::int_of(toks.last()) as i32,
            ));
            assert forall|i: int| 0 <= i < toks.len() implies crate::text::is_int_token(
                #[trigger] toks[i],
            ) && i32::MIN <= crate::text::int_of(toks[i]) <= i32::MAX && parse_i32_tokens(
                toks,
            ).unwrap()[i] == crate::text::int_of(toks[i]) by {
                if i < toks.len() - 1 {
                    assert(toks.drop_last()[i] == toks[i]);
                    assert(parse_i32_tokens(toks).unwrap()[i] == vs[i]);
                } else {
                    assert(toks[i] == toks.last());
                }
            }
        }
    }
}

/// Sum the extrapolated next value of every given line.
pub(crate) fn total_extrapolated(linevecs: &Vec<Vec<char>>) -> (r: i64)
    requires
        forall|i: int| 0 <= i < linevecs@.len() ==> line_solvable(#[trigger] linevecs.deep_view()[i]),
        linevecs@.len() < 0x8000_0000,
    ensures
        r == sum_extraps(linevecs.deep_view()),
{
    let ghost ls = linevecs.deep_view();
    let n = linevecs.len();
    let mut acc: i64 = 0;
    let mut i: usize = 0;
    while i < n
        invariant
            n == ls.len(),
            ls == linevecs.deep_view(),
            n < 0x8000_0000,
            forall|k: int| 0 <= k < n ==> line_solvable(#[trigger] ls[k]),
            0 <= i <= n,
            acc == sum_extraps(ls.take(i as int)),
            -(i * 0x8000_0000) <= acc <= i * 0x8000_0000,
        decreases n - i,
    {
        proof {
            assert(linevecs@[i as int]@ == ls[i as int]);
            assert(line_solvable(ls[i as int]));
        }
        let nums = parse_line(&linevecs[i]);
        let v = extrapolate(&nums);
        acc = acc + (v as i64);
        proof {
            assert(ls.take((i + 1) as int).drop_last() =~= ls.take(i as int));
            assert(ls.take((i + 1) as int).last() == ls[i as int]);
        }
        i = i + 1;
    }
    proof {
        assert(ls.take(n as int) =~= ls);
    }
    acc
}

/// Sum the extrapolated previous value of every given line: the same
/// extension, applied to each line read back to front.
pub(crate) fn total_extrapolated_rev(linevecs: &Vec<Vec<char>>) -> (r: i64)
    requires
        forall|i: int|
            0 <= i < linevecs@.len() ==> line_solvable_rev(#[trigger] linevecs.deep_view()[i]),
        linevecs@.len() < 0x8000_0000,
    ensures
        r == sum_extraps_rev(linevecs.deep_view()),
{
    let ghost ls = linevecs.deep_view();
    let n = linevecs.len();
    let mut acc: i64 = 0;
    let mut i: usize = 0;
    while i < n
        invariant
            n == ls.len(),
            ls == linevecs.deep_view(),
            n < 0x8000_0000,
            forall|k: int| 0 <= k < n ==> line_solvable_rev(#[trigger] ls[k]),
            0 <= i <= n,
            acc == sum_extraps_rev(ls.take(i as int)),
            -(i * 0x8000_0000) <= acc <= i * 0x8000_0000,
        decreases n - i,
    {
        proof {
            assert(linevecs@[i as int]@ == ls[i as int]);
            assert(line_solvable_rev(ls[i as int]));
        }
        let nums = parse_line(&linevecs[i]);
        let ghost fwd = line_nums(ls[i as int]).unwrap();
        let mut rev: Vec<i32> = Vec::new();
        let m = nums.len();
        let mut j: usize = 0;
        while j < m
            invariant
                m == nums@.len(),
                nums@ == fwd,
                0 <= j <= m,
                rev@.len() == j,
                forall|k: int| 0 <= k < j ==> rev@[k] == fwd[m - 1 - k],
            decreases m - j,
        {
            rev.push(nums[m - 1 - j]);
            j = j + 1;
        }
        proof {
            assert(rev@ =~= fwd.reverse());
            assert(ints_of(rev@) == ints_of(fwd.reverse()));
        }
        let v = extrapolate(&rev);
        acc = acc + (v as i64);
        proof {
            assert(ls.take((i + 1) as int).drop_last() =~= ls.take(i as int));
            assert(ls.take((i + 1) as int).last() == ls[i as int]);
        }
        i = i + 1;
    }
    proof {
        assert(ls.take(n as int) =~= ls);
    }
    acc
}

/// The sum of every line's extrapolated next value.
pub fn part1(input: &str) -> (r: i32)
    requires
        forall|i: int|
            0 <= i < crate::text::lines_of(input@).len() ==> line_solvable(
                #[trigger] crate::text::lines_of(input@)[i],
            ),
        crate::text::lines_of(input@).len() < 0x8000_0000,
        i32::MIN <= sum_extraps(crate::text::lines_of(input@)) <= i32::MAX,
    ensures
        r == sum_extraps(crate::text::lines_of(input@)),
{
    let linevecs = crate::text::str_lines(input);
    let t = total_extrapolated(&linevecs);
    t as i32
}

/// The sum of every line's extrapolated previous value.
pub fn part2(input: &str) -> (r: i32)
    requires
        forall|i: int|
            0 <= i < crate::text::lines_of(input@).len() ==> line_solvable_rev(
                #[trigger] crate::text::lines_of(input@)[i],
            ),
        crate::text::lines_of(input@).len() < 0x8000_0000,
        i32::MIN <= sum_extraps_rev(crate::text::lines_of(input@)) <= i32::MAX,
    ensures
        r == sum_extraps_rev(crate::text::lines_of(input@)),
{
    let linevecs = crate::text::str_lines(input);
    let t = total_extrapolated_rev(&linevecs);
    t as i32
}

} // verus!
