//! Toy boat races: holding the button for `x` time units in a race of
//! duration `t` covers `x * (t - x)` distance.  Count the hold times
//! that beat the record.

use vstd::prelude::*;

verus! {

/// Does holding for `x` beat the record `d` in a race of duration `t`?
pub open spec fn wins(t: int, d: int, x: int) -> bool {
    x * (t - x) > d
}

/// How many hold times in `[0, n)` beat the record.
pub open spec fn ways_below(t: int, d: int, n: int) -> int
    decreases n,
{
    if n <= 0 {
        0
    } else {
        ways_below(t, d, n - 1) + if wins(t, d, n - 1) {
            1int
        } else {
            0int
        }
    }
}

/// How many hold times of the whole race beat the record.
pub open spec fn ways(t: int, d: int) -> int {
    ways_below(t, d, t + 1)
}

proof fn lemma_ways_bounds(t: int, d: int, n: int)
    ensures
        0 <= ways_below(t, d, n) <= (if n >= 0 {
            n
        } else {
            0
        }),
    decreases n,
{
    if n > 0 {
        lemma_ways_bounds(t, d, n - 1);
    }
}

/// Count the hold times that beat the record, by trying each one.
pub fn get_improvement_possibilities(duration: u64, record: u64) -> (r: u64)
    requires
        duration < u64::MAX,
    ensures
        r == ways(duration as int, record as int),
{
    let mut c: u64 = 0;
    let mut x: u64 = 0;
    while x <= duration
        invariant
            duration < u64::MAX,
            0 <= x <= duration + 1,
            c == ways_below(duration as int, record as int, x as int),
            c <= x,
        decreases duration + 1 - x,
    {
        proof {
            lemma_ways_bounds(duration as int, record as int, x as int);
            assert((x as int) * ((duration - x) as int) < 0x1_0000_0000_0000_0000_0000_0000_0000_0000)
                by (nonlinear_arith)
                requires
                    0 <= x as int <= 0xFFFF_FFFF_FFFF_FFFF && 0 <= (duration - x) as int
                        <= 0xFFFF_FFFF_FFFF_FFFF,
            ;
        }
        let covered: u128 = (x as u128) * ((duration - x) as u128);
        if covered > record as u128 {
            c = c + 1;
        }
        x = x + 1;
    }
    c
}

/// The tokens of the two input lines, past each label.
pub open spec fn time_toks(ls: Seq<Seq<char>>) -> Seq<Seq<char>> {
    crate::text::tokens_of(ls[0]).skip(1)
}

pub open spec fn dist_toks(ls: Seq<Seq<char>>) -> Seq<Seq<char>> {
    crate::text::tokens_of(ls[1]).skip(1)
}

/// How many races the two lines pair up.
pub open spec fn race_count(ls: Seq<Seq<char>>) -> int {
    crate::day05::min_i(time_toks(ls).len() as int, dist_toks(ls).len() as int)
}

/// Both lines present, and each paired token a number; durations leave
/// room for the exhaustive scan.
pub open spec fn races_ok(ls: Seq<Seq<char>>) -> bool {
    &&& ls.len() >= 2
    &&& crate::text::tokens_of(ls[0]).len() >= 1
    &&& crate::text::tokens_of(ls[1]).len() >= 1
    &&& forall|i: int|
        0 <= i < race_count(ls) ==> crate::text::is_digits(#[trigger] time_toks(ls)[i])
            && crate::text::nat_of(time_toks(ls)[i]) < u64::MAX && crate::text::is_digits(
            #[trigger] dist_toks(ls)[i],
        ) && crate::text::nat_of(dist_toks(ls)[i]) <= u64::MAX
}

/// The duration and record of race `i`.
pub open spec fn race_time(ls: Seq<Seq<char>>, i: int) -> int {
    crate::text::nat_of(time_toks(ls)[i])
}

pub open spec fn race_dist(ls: Seq<Seq<char>>, i: int) -> int {
    crate::text::nat_of(dist_toks(ls)[i])
}

/// The product of the winning counts of the first `k` races.
pub open spec fn prod_ways(ls: Seq<Seq<char>>, k: int) -> int
    decreases k,
{
    if k <= 0 {
        1
    } else {
        prod_ways(ls, k - 1) * ways(race_time(ls, k - 1), race_dist(ls, k - 1))
    }
}

/// The product over all races of the number of record-beating hold
/// times.
pub fn part1(lines: &[String]) -> (r: u64)
    requires
        races_ok(crate::text::lines_view(lines@)),
        forall|k: int|
            0 <= k <= race_count(crate::text::lines_view(lines@))
                ==> 0 <= #[trigger] prod_ways(crate::text::lines_view(lines@), k)
                <= u64::MAX,
    ensures
        r == prod_ways(
            crate::text::lines_view(lines@),
            race_count(crate::text::lines_view(lines@)),
        ),
{
    let ghost ls = crate::text::lines_view(lines@);
    let l0 = crate::text::chars_of(lines[0].as_str());
    let l1 = crate::text::chars_of(lines[1].as_str());
    let t_toks = crate::text::split_ws(l0.as_slice());
    let d_toks = crate::text::split_ws(l1.as_slice());
    proof {
        assert(l0@ == ls[0]);
        assert(l1@ == ls[1]);
        assert(t_toks.deep_view() == crate::text::tokens_of(ls[0]));
        assert(d_toks.deep_view() == crate::text::tokens_of(ls[1]));
    }
    let tn = t_toks.len();
    let dn = d_toks.len();
    let n = if tn - 1 <= dn - 1 {
        tn - 1
    } else {
        dn - 1
    };
    proof {
        assert(n == race_count(ls));
    }
    let mut m: u64 = 1;
    let mut i: usize = 0;
    while i < n
        invariant
            n == race_count(ls),
            t_toks.deep_view() == crate::text::tokens_of(ls[0]),
            d_toks.deep_view() == crate::text::tokens_of(ls[1]),
            t_toks@.len() >= n + 1,
            d_toks@.len() >= n + 1,
            races_ok(ls),
            forall|k: int| 0 <= k <= n ==> 0 <= #[trigger] prod_ways(ls, k) <= u64::MAX,
            0 <= i <= n,
            m == prod_ways(ls, i as int),
        decreases n - i,
    {
        proof {
            assert(t_toks@[i + 1]@ == crate::text::tokens_of(ls[0])[i + 1]);
            assert(time_toks(ls)[i as int] == crate::text::tokens_of(ls[0])[i + 1]);
            assert(d_toks@[i + 1]@ == crate::text::tokens_of(ls[1])[i + 1]);
            assert(dist_toks(ls)[i as int] == crate::text::tokens_of(ls[1])[i + 1]);
        }
        let t = match crate::text::parse_u64(t_toks[i + 1].as_slice()) {
            Option::Some(v) => v,
            Option::None => {
                proof {
                    assert(false);
                }
                0
            },
        };
        let d = match crate::text::parse_u64(d_toks[i + 1].as_slice()) {
            Option::Some(v) => v,
            Option::None => {
                proof {
                    assert(false);
                }
                0
            },
        };
        let w = get_improvement_possibilities(t, d);
        proof {
            assert(w == ways(race_time(ls, i as int), race_dist(ls, i as int)));
            assert((m as int) * (w as int) < 0x1_0000_0000_0000_0000_0000_0000_0000_0000)
                by (nonlinear_arith)
                requires
                    0 <= m as int <= 0xFFFF_FFFF_FFFF_FFFF && 0 <= w as int
                        <= 0xFFFF_FFFF_FFFF_FFFF,
            ;
            assert(prod_ways(ls, i + 1) == prod_ways(ls, i as int) * ways(
                race_time(ls, i as int),
                race_dist(ls, i as int),
            ));
        }
        let next: u128 = (m as u128) * (w as u128);
        proof {
            assert(next == prod_ways(ls, i + 1));
        }
        m = next as u64;
        i = i + 1;
    }
    m
}

/// All the digit tokens of a line from position `i` on, glued into one
/// digit string.
pub open spec fn glued(toks: Seq<Seq<char>>, i: int) -> Seq<char>
    decreases toks.len() - i,
    when 0 <= i
{
    if i >= toks.len() {
        Seq::empty()
    } else {
        toks[i] + glued(toks, i + 1)
    }
}

/// The two lines read as one race each, ignoring the gaps between the
/// digit groups.
pub open spec fn big_race_ok(ls: Seq<Seq<char>>) -> bool {
    &&& ls.len() >= 2
    &&& crate::text::tokens_of(ls[0]).len() >= 1
    &&& crate::text::tokens_of(ls[1]).len() >= 1
    &&& crate::text::is_digits(glued(crate::text::tokens_of(ls[0]), 1))
    &&& crate::text::nat_of(glued(crate::text::tokens_of(ls[0]), 1)) < u64::MAX
    &&& crate::text::is_digits(glued(crate::text::tokens_of(ls[1]), 1))
    &&& crate::text::nat_of(glued(crate::text::tokens_of(ls[1]), 1)) <= u64::MAX
}

/// Glue the digit tokens of a line into one number string.
fn glue_tokens(toks: &Vec<Vec<char>>) -> (r: Vec<char>)
    ensures
        r@ == glued(toks.deep_view(), 1),
{
    let ghost ts = toks.deep_view();
    let n = toks.len();
    let mut r: Vec<char> = Vec::new();
    let mut i = n;
    while i > 1
        invariant
            n == ts.len(),
            ts == toks.deep_view(),
            1 <= i <= n || (n == 0 && i == n),
            r@ == glued(ts, i as int),
        decreases i,
    {
        let t = &toks[i - 1];
        let mut piece: Vec<char> = Vec::new();
        let m = t.len();
        let mut j: usize = 0;
        while j < m
            invariant
                m == t@.len(),
                0 <= j <= m,
                piece@ == t@.take(j as int),
            decreases m - j,
        {
            piece.push(t[j]);
            proof {
                assert(piece@ =~= t@.take((j + 1) as int));
            }
            j = j + 1;
        }
        proof {
            assert(piece@ =~= t@);
        }
        let mut rest = r;
        r = piece;
        let mut k: usize = 0;
        let rl = rest.len();
        while k < rl
            invariant
                rl == rest@.len(),
                0 <= k <= rl,
                r@ == t@ + rest@.take(k as int),
                t@ == ts[(i - 1) as int],
            decreases rl - k,
        {
            r.push(rest[k]);
            proof {
                assert(r@ =~= t@ + rest@.take((k + 1) as int));
            }
            k = k + 1;
        }
        proof {
            assert(rest@.take(rl as int) =~= rest@);
            assert(r@ =~= ts[(i - 1) as int] + glued(ts, i as int));
            assert(r@ =~= glued(ts, (i - 1) as int));
        }
        i = i - 1;
    }
    proof {
        if n == 0 {
            assert(glued(ts, 1) =~= Seq::<char>::empty());
        }
    }
    r
}

/// The number of record-beating hold times of the single glued race.
pub fn part2(lines: &[String]) -> (r: u64)
    requires
        big_race_ok(crate::text::lines_view(lines@)),
    ensures
        r == ways(
            crate::text::nat_of(
                glued(crate::text::tokens_of(crate::text::lines_view(lines@)[0]), 1),
            ),
            crate::text::nat_of(
                glued(crate::text::tokens_of(crate::text::lines_view(lines@)[1]), 1),
            ),
        ),
{
    let ghost ls = crate::text::lines_view(lines@);
    let l0 = crate::text::chars_of(lines[0].as_str());
    let l1 = crate::text::chars_of(lines[1].as_str());
    let t_toks = crate::text::split_ws(l0.as_slice());
    let d_toks = crate::text::split_ws(l1.as_slice());
    proof {
        assert(l0@ == ls[0]);
        assert(l1@ == ls[1]);
        assert(t_toks.deep_view() == crate::text::tokens_of(ls[0]));
        assert(d_toks.deep_view() == crate::text::tokens_of(ls[1]));
    }
    let t_glued = glue_tokens(&t_toks);
    let d_glued = glue_tokens(&d_toks);
    let t = match crate::text::parse_u64(t_glued.as_slice()) {
        Option::Some(v) => v,
        Option::None => {
            proof {
                assert(false);
            }
            0
        },
    };
    let d = match crate::text::parse_u64(d_glued.as_slice()) {
        Option::Some(v) => v,
        Option::None => {
            proof {
                assert(false);
            }
            0
        },
    };
    get_improvement_possibilities(t, d)
}

} // verus!
