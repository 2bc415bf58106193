//! Cube games: each line lists a game of several draws of blue, red
//! and green cubes.  A game is possible when no draw exceeds the bag's
//! counts; a game's power is the product of the fewest cubes per
//! colour that make every draw possible.

use vstd::prelude::*;

verus! {

/// One drawn amount: its count and its colour, blue, red or green
/// numbered in that order.
pub open spec fn cube_spec(p: Seq<char>) -> Option<(int, int)> {
    let toks = crate::text::tokens_of(p);
    if toks.len() != 2 || !crate::text::is_digits(toks[0]) || crate::text::nat_of(toks[0])
        > u64::MAX {
        None
    } else if toks[1] == seq!['b', 'l', 'u', 'e'] {
        Some((crate::text::nat_of(toks[0]), 0))
    } else if toks[1] == seq!['r', 'e', 'd'] {
        Some((crate::text::nat_of(toks[0]), 1))
    } else if toks[1] == seq!['g', 'r', 'e', 'e', 'n'] {
        Some((crate::text::nat_of(toks[0]), 2))
    } else {
        None
    }
}

/// The blue, red and green totals of the first `n` drawn amounts.
pub open spec fn cubes_sums(cs: Seq<Seq<char>>, n: int) -> Option<(int, int, int)>
    decreases n,
{
    if n <= 0 {
        Some((0, 0, 0))
    } else {
        match cubes_sums(cs, n - 1) {
            Option::Some(t) => {
                match cube_spec(cs[n - 1]) {
                    Option::Some(c) => Some(
                        (
                            t.0 + if c.1 == 0 {
                                c.0
                            } else {
                                0
                            },
                            t.1 + if c.1 == 1 {
                                c.0
                            } else {
                                0
                            },
                            t.2 + if c.1 == 2 {
                                c.0
                            } else {
                                0
                            },
                        ),
                    ),
                    Option::None => None,
                }
            },
            Option::None => None,
        }
    }
}

/// The blue, red and green totals of one draw.
pub open spec fn set_spec(piece: Seq<char>) -> Option<(int, int, int)> {
    let cs = crate::text::split_on_spec(piece, seq![',', ' ']);
    cubes_sums(cs, cs.len() as int)
}

/// The draws of a game, in order.
pub open spec fn sets_spec(pieces: Seq<Seq<char>>, n: int) -> Option<Seq<(int, int, int)>>
    decreases n,
{
    if n <= 0 {
        Some(Seq::empty())
    } else {
        match sets_spec(pieces, n - 1) {
            Option::Some(ss) => {
                match set_spec(pieces[n - 1]) {
                    Option::Some(s) => Some(ss.push(s)),
                    Option::None => None,
                }
            },
            Option::None => None,
        }
    }
}

/// The game of one line: its number and its draws.
pub open spec fn game_spec(l: Seq<char>) -> Option<(int, Seq<(int, int, int)>)> {
    let halves = crate::text::split_on_spec(l, seq![':', ' ']);
    if halves.len() < 2 {
        None
    } else if !(halves[0].len() > 5 && halves[0].take(5) == seq!['G', 'a', 'm', 'e', ' ']
        && crate::text::is_digits(halves[0].skip(5)) && crate::text::nat_of(halves[0].skip(5))
        <= u64::MAX) {
        None
    } else {
        let pieces = crate::text::split_on_spec(halves[1], seq![';', ' ']);
        match sets_spec(pieces, pieces.len() as int) {
            Option::Some(ss) => Some((crate::text::nat_of(halves[0].skip(5)), ss)),
            Option::None => None,
        }
    }
}

/// Does every draw of the game fit the bag of 12 red, 13 green and 14
/// blue cubes?
pub open spec fn game_possible(sets: Seq<(int, int, int)>) -> bool {
    forall|i: int|
        0 <= i < sets.len() ==> (#[trigger] sets[i]).0 <= 14 && sets[i].1 <= 12 && sets[i].2 <= 13
}

/// The summed numbers of the possible games among the first `n` lines.
pub open spec fn sum_possible(ls: Seq<Seq<char>>, n: int) -> int
    decreases n,
{
    if n <= 0 {
        0
    } else {
        sum_possible(ls, n - 1) + if game_possible(game_spec(ls[n - 1]).unwrap().1) {
            game_spec(ls[n - 1]).unwrap().0
        } else {
            0
        }
    }
}

/// The largest blue, red and green counts over the first `n` draws.
pub open spec fn maxes(sets: Seq<(int, int, int)>, n: int) -> (int, int, int)
    decreases n,
{
    if n <= 0 {
        (0, 0, 0)
    } else {
        let t = maxes(sets, n - 1);
        (
            crate::day05::max_i(t.0, sets[n - 1].0),
            crate::day05::max_i(t.1, sets[n - 1].1),
            crate::day05::max_i(t.2, sets[n - 1].2),
        )
    }
}

/// The power of a game: the product of the fewest workable counts.
pub open spec fn game_power(sets: Seq<(int, int, int)>) -> int {
    let t = maxes(sets, sets.len() as int);
    t.0 * t.1 * t.2
}

/// The summed powers of the first `n` lines' games.
pub open spec fn sum_powers(ls: Seq<Seq<char>>, n: int) -> int
    decreases n,
{
    if n <= 0 {
        0
    } else {
        sum_powers(ls, n - 1) + game_power(game_spec(ls[n - 1]).unwrap().1)
    }
}

/// Every line a game whose totals fit the machine word.
pub open spec fn games_ok(ls: Seq<Seq<char>>) -> bool {
    forall|i: int|
        0 <= i < ls.len() ==> game_spec(#[trigger] ls[i]) is Some && (forall|j: int|
            0 <= j < game_spec(ls[i]).unwrap().1.len() ==> 0 <= (
            #[trigger] game_spec(ls[i]).unwrap().1[j]).0 <= u64::MAX && 0 <= game_spec(
                ls[i],
            ).unwrap().1[j].1 <= u64::MAX && 0 <= game_spec(ls[i]).unwrap().1[j].2 <= u64::MAX)
}

/// Read one draw.
fn parse_set(piece: &Vec<char>) -> (r: (u64, u64, u64))
    requires
        set_spec(piece@) is Some,
        0 <= set_spec(piece@).unwrap().0 <= u64::MAX,
        0 <= set_spec(piece@).unwrap().1 <= u64::MAX,
        0 <= set_spec(piece@).unwrap().2 <= u64::MAX,
    ensures
        r.0 == set_spec(piece@).unwrap().0,
        r.1 == set_spec(piece@).unwrap().1,
        r.2 == set_spec(piece@).unwrap().2,
{
    let comma: Vec<char> = vec![',', ' '];
    proof {
        assert(comma@ =~= seq![',', ' ']);
    }
    let cs = crate::text::split_on(piece.as_slice(), comma.as_slice());
    let ghost css = crate::text::split_on_spec(piece@, seq![',', ' ']);
    proof {
        assert(cs.deep_view() == css);
        lemma_cubes_prefix(css, css.len() as int);
    }
    let n = cs.len();
    let mut blue: u128 = 0;
    let mut red: u128 = 0;
    let mut green: u128 = 0;
    let mut i: usize = 0;
    while i < n
        invariant
            n == css.len(),
            cs.deep_view() == css,
            cs@.len() == n,
            cubes_sums(css, n as int) is Some,
            forall|k: int| 0 <= k <= n ==> cubes_sums(css, k) is Some,
            0 <= i <= n,
            blue == cubes_sums(css, i as int).unwrap().0,
            red == cubes_sums(css, i as int).unwrap().1,
            green == cubes_sums(css, i as int).unwrap().2,
            blue <= i * 0xFFFF_FFFF_FFFF_FFFF,
            red <= i * 0xFFFF_FFFF_FFFF_FFFF,
            green <= i * 0xFFFF_FFFF_FFFF_FFFF,
        decreases n - i,
    {
        proof {
            assert(cs@[i as int]@ == css[i as int]);
            assert(cubes_sums(css, (i + 1) as int) is Some);
            assert(cube_spec(css[i as int]) is Some);
        }
        let toks = crate::text::split_ws(cs[i].as_slice());
        proof {
            assert(toks.deep_view() == crate::text::tokens_of(css[i as int]));
            assert(toks@[0]@ == toks.deep_view()[0]);
            assert(toks@[1]@ == toks.deep_view()[1]);
            crate::text::lemma_nat_of_nonneg(crate::text::tokens_of(css[i as int])[0]);
        }
        let v = match crate::text::parse_u64(toks[0].as_slice()) {
            Option::Some(v) => v,
            Option::None => {
                proof {
                    assert(false);
                }
                0
            },
        };
        let w = &toks[1];
        let is_blue = w.len() == 4 && w[0] == 'b' && w[1] == 'l' && w[2] == 'u' && w[3] == 'e';
        let is_red = w.len() == 3 && w[0] == 'r' && w[1] == 'e' && w[2] == 'd';
        let is_green = w.len() == 5 && w[0] == 'g' && w[1] == 'r' && w[2] == 'e' && w[3] == 'e'
            && w[4] == 'n';
        proof {
            let ws = crate::text::tokens_of(css[i as int])[1];
            if is_blue {
                assert(ws =~= seq!['b', 'l', 'u', 'e']);
            } else {
                assert(ws != seq!['b', 'l', 'u', 'e']) by {
                    if ws == seq!['b', 'l', 'u', 'e'] {
                        assert(ws.len() == 4 && ws[0] == 'b' && ws[1] == 'l' && ws[2] == 'u'
                            && ws[3] == 'e');
                    }
                }
            }
            if is_red {
                assert(ws =~= seq!['r', 'e', 'd']);
            } else {
                assert(ws != seq!['r', 'e', 'd']) by {
                    if ws == seq!['r', 'e', 'd'] {
                        assert(ws.len() == 3 && ws[0] == 'r' && ws[1] == 'e' && ws[2] == 'd');
                    }
                }
            }
            if is_green {
                assert(ws =~= seq!['g', 'r', 'e', 'e', 'n']);
            } else {
                assert(ws != seq!['g', 'r', 'e', 'e', 'n']) by {
                    if ws == seq!['g', 'r', 'e', 'e', 'n'] {
                        assert(ws.len() == 5 && ws[0] == 'g' && ws[1] == 'r' && ws[2] == 'e'
                            && ws[3] == 'e' && ws[4] == 'n');
                    }
                }
            }
        }
        if is_blue {
            blue = blue + (v as u128);
        } else if is_red {
            red = red + (v as u128);
        } else {
            proof {
                assert(is_green);
            }
            green = green + (v as u128);
        }
        i = i + 1;
    }
    proof {
        assert(cubes_sums(css, n as int).unwrap() == set_spec(piece@).unwrap());
    }
    ((blue as u64), (red as u64), (green as u64))
}

/// A draw list that parses whole parses in every prefix.
proof fn lemma_cubes_prefix(cs: Seq<Seq<char>>, n: int)
    requires
        cubes_sums(cs, n) is Some,
    ensures
        forall|k: int| 0 <= k <= n ==> cubes_sums(cs, k) is Some,
    decreases n,
{
    if n > 0 {
        assert(cubes_sums(cs, n - 1) is Some) by {
            if cubes_sums(cs, n - 1) is None {
                assert(cubes_sums(cs, n) is None);
            }
        }
        lemma_cubes_prefix(cs, n - 1);
    }
}

/// A set list that parses whole parses in every prefix.
proof fn lemma_sets_prefix(ps: Seq<Seq<char>>, n: int)
    requires
        sets_spec(ps, n) is Some,
    ensures
        forall|k: int| 0 <= k <= n ==> sets_spec(ps, k) is Some,
    decreases n,
{
    if n > 0 {
        assert(sets_spec(ps, n - 1) is Some) by {
            if sets_spec(ps, n - 1) is None {
                assert(sets_spec(ps, n) is None);
            }
        }
        lemma_sets_prefix(ps, n - 1);
    }
}

/// Read one game line: its number and its draws.
pub fn parse_games(l: &Vec<char>) -> (r: (u64, Vec<(u64, u64, u64)>))
    requires
        game_spec(l@) is Some,
        forall|j: int|
            0 <= j < game_spec(l@).unwrap().1.len() ==> 0 <= (
            #[trigger] game_spec(l@).unwrap().1[j]).0 <= u64::MAX && 0 <= game_spec(
                l@,
            ).unwrap().1[j].1 <= u64::MAX && 0 <= game_spec(l@).unwrap().1[j].2 <= u64::MAX,
    ensures
        r.0 == game_spec(l@).unwrap().0,
        r.1@.len() == game_spec(l@).unwrap().1.len(),
        forall|j: int|
            0 <= j < r.1@.len() ==> (#[trigger] r.1@[j]).0 == game_spec(l@).unwrap().1[j].0
                && r.1@[j].1 == game_spec(l@).unwrap().1[j].1 && r.1@[j].2 == game_spec(
                l@,
            ).unwrap().1[j].2,
{
    let colon: Vec<char> = vec![':', ' '];
    let semi: Vec<char> = vec![';', ' '];
    proof {
        assert(colon@ =~= seq![':', ' ']);
        assert(semi@ =~= seq![';', ' ']);
    }
    let halves = crate::text::split_on(l.as_slice(), colon.as_slice());
    let ghost hs = crate::text::split_on_spec(l@, seq![':', ' ']);
    proof {
        assert(halves.deep_view() == hs);
        assert(halves@[0]@ == hs[0]);
        assert(halves@[1]@ == hs[1]);
        crate::text::lemma_nat_of_nonneg(hs[0].skip(5));
    }
    let head = &halves[0];
    let digits = vstd::slice::slice_subrange(head.as_slice(), 5, head.len());
    proof {
        assert(digits@ =~= hs[0].skip(5));
    }
    let id = match crate::text::parse_u64(digits) {
        Option::Some(v) => v,
        Option::None => {
            proof {
                assert(false);
            }
            0
        },
    };
    let pieces = crate::text::split_on(halves[1].as_slice(), semi.as_slice());
    let ghost ps = crate::text::split_on_spec(hs[1], seq![';', ' ']);
    proof {
        assert(pieces.deep_view() == ps);
        lemma_sets_prefix(ps, ps.len() as int);
    }
    let ghost ss = game_spec(l@).unwrap().1;
    let n = pieces.len();
    let mut sets: Vec<(u64, u64, u64)> = Vec::new();
    let mut i: usize = 0;
    proof {
        assert(ss == sets_spec(ps, ps.len() as int).unwrap());
        lemma_sets_len(ps, ps.len() as int);
    }
    while i < n
        invariant
            n == ps.len(),
            pieces.deep_view() == ps,
            pieces@.len() == n,
            sets_spec(ps, n as int) is Some,
            forall|k: int| 0 <= k <= n ==> sets_spec(ps, k) is Some,
            ss == sets_spec(ps, n as int).unwrap(),
            ss.len() == n,
            forall|j: int|
                0 <= j < n ==> 0 <= (#[trigger] ss[j]).0 <= u64::MAX && 0 <= ss[j].1 <= u64::MAX
                    && 0 <= ss[j].2 <= u64::MAX,
            0 <= i <= n,
            sets@.len() == i,
            forall|j: int|
                0 <= j < i ==> (#[trigger] sets@[j]).0 == ss[j].0 && sets@[j].1 == ss[j].1
                    && sets@[j].2 == ss[j].2,
        decreases n - i,
    {
        proof {
            assert(pieces@[i as int]@ == ps[i as int]);
            assert(sets_spec(ps, (i + 1) as int) is Some);
            assert(set_spec(ps[i as int]) is Some);
            lemma_sets_at(ps, n as int, i as int);
        }
        let s = parse_set(&pieces[i]);
        sets.push(s);
        i = i + 1;
    }
    (id, sets)
}

/// Each draw of a fully parsed list is its piece's totals.
proof fn lemma_sets_at(ps: Seq<Seq<char>>, n: int, i: int)
    requires
        sets_spec(ps, n) is Some,
        0 <= i < n,
    ensures
        set_spec(ps[i]) is Some,
        sets_spec(ps, n).unwrap()[i] == set_spec(ps[i]).unwrap(),
    decreases n,
{
    if i == n - 1 {
        assert(sets_spec(ps, n - 1) is Some) by {
            if sets_spec(ps, n - 1) is None {
                assert(sets_spec(ps, n) is None);
            }
        }
        lemma_sets_len(ps, n - 1);
    } else {
        assert(sets_spec(ps, n - 1) is Some) by {
            if sets_spec(ps, n - 1) is None {
                assert(sets_spec(ps, n) is None);
            }
        }
        lemma_sets_at(ps, n - 1, i);
        lemma_sets_len(ps, n - 1);
    }
}

proof fn lemma_sets_len(ps: Seq<Seq<char>>, n: int)
    requires
        sets_spec(ps, n) is Some,
    ensures
        sets_spec(ps, n).unwrap().len() == (if n >= 0 {
            n
        } else {
            0
        }),
    decreases n,
{
    if n > 0 {
        assert(sets_spec(ps, n - 1) is Some) by {
            if sets_spec(ps, n - 1) is None {
                assert(sets_spec(ps, n) is None);
            }
        }
        lemma_sets_len(ps, n - 1);
    }
}

/// The summed numbers of the games whose draws all fit the bag.
pub fn part1(lines: &[String]) -> (r: u64)
    requires
        games_ok(crate::text::lines_view(lines@)),
        forall|n: int|
            0 <= n <= lines@.len() ==> 0 <= #[trigger] sum_possible(
                crate::text::lines_view(lines@),
                n,
            ) <= u64::MAX,
    ensures
        r == sum_possible(crate::text::lines_view(lines@), lines@.len() as int),
{
    let ghost ls = crate::text::lines_view(lines@);
    let n = lines.len();
    let mut acc: u64 = 0;
    let mut i: usize = 0;
    while i < n
        invariant
            n == ls.len(),
            n == lines@.len(),
            ls == crate::text::lines_view(lines@),
            games_ok(ls),
            forall|k: int| 0 <= k <= n ==> 0 <= #[trigger] sum_possible(ls, k) <= u64::MAX,
            0 <= i <= n,
            acc == sum_possible(ls, i as int),
        decreases n - i,
    {
        let lv = crate::text::chars_of(lines[i].as_str());
        proof {
            assert(lv@ == ls[i as int]);
            assert(game_spec(ls[i as int]) is Some);
        }
        let (id, sets) = parse_games(&lv);
        let ghost ss = game_spec(ls[i as int]).unwrap().1;
        let m = sets.len();
        let mut ok = true;
        let mut j: usize = 0;
        while j < m
            invariant
                m == sets@.len(),
                m == ss.len(),
                forall|t: int|
                    0 <= t < m ==> (#[trigger] sets@[t]).0 == ss[t].0 && sets@[t].1 == ss[t].1
                        && sets@[t].2 == ss[t].2,
                0 <= j <= m,
                ok <==> (forall|t: int|
                    0 <= t < j ==> (#[trigger] ss[t]).0 <= 14 && ss[t].1 <= 12 && ss[t].2 <= 13),
            decreases m - j,
        {
            let s = sets[j];
            if !(s.0 <= 14 && s.1 <= 12 && s.2 <= 13) {
                ok = false;
            }
            j = j + 1;
        }
        proof {
            assert(ok <==> game_possible(ss));
            assert(sum_possible(ls, i + 1) == sum_possible(ls, i as int) + (
            if game_possible(ss) {
                game_spec(ls[i as int]).unwrap().0
            } else {
                0
            }));
            crate::text::lemma_nat_of_nonneg(
                crate::text::split_on_spec(ls[i as int], seq![':', ' '])[0].skip(5),
            );
        }
        if ok {
            acc = acc + id;
        }
        i = i + 1;
    }
    acc
}

/// The summed powers of all games: for each, the product of the
/// largest blue, red and green draw counts.
pub fn part2(lines: &[String]) -> (r: u64)
    requires
        games_ok(crate::text::lines_view(lines@)),
        forall|i: int|
            0 <= i < lines@.len() ==> 0 <= #[trigger] game_power(
                game_spec(crate::text::lines_view(lines@)[i]).unwrap().1,
            ) <= u64::MAX,
        forall|n: int|
            0 <= n <= lines@.len() ==> 0 <= #[trigger] sum_powers(
                crate::text::lines_view(lines@),
                n,
            ) <= u64::MAX,
    ensures
        r == sum_powers(crate::text::lines_view(lines@), lines@.len() as int),
{
    let ghost ls = crate::text::lines_view(lines@);
    let n = lines.len();
    let mut acc: u64 = 0;
    let mut i: usize = 0;
    while i < n
        invariant
            n == ls.len(),
            n == lines@.len(),
            ls == crate::text::lines_view(lines@),
            games_ok(ls),
            forall|t: int|
                0 <= t < n ==> 0 <= #[trigger] game_power(game_spec(ls[t]).unwrap().1) <= u64::MAX,
            forall|k: int| 0 <= k <= n ==> 0 <= #[trigger] sum_powers(ls, k) <= u64::MAX,
            0 <= i <= n,
            acc == sum_powers(ls, i as int),
        decreases n - i,
    {
        let lv = crate::text::chars_of(lines[i].as_str());
        proof {
            assert(lv@ == ls[i as int]);
            assert(game_spec(ls[i as int]) is Some);
        }
        let (id, sets) = parse_games(&lv);
        let ghost ss = game_spec(ls[i as int]).unwrap().1;
        let m = sets.len();
        let mut blue: u64 = 0;
        let mut red: u64 = 0;
        let mut green: u64 = 0;
        let mut j: usize = 0;
        while j < m
            invariant
                m == sets@.len(),
                m == ss.len(),
                forall|t: int|
                    0 <= t < m ==> (#[trigger] sets@[t]).0 == ss[t].0 && sets@[t].1 == ss[t].1
                        && sets@[t].2 == ss[t].2,
                forall|t: int|
                    0 <= t < m ==> 0 <= (#[trigger] ss[t]).0 <= u64::MAX && 0 <= ss[t].1
                        <= u64::MAX && 0 <= ss[t].2 <= u64::MAX,
                0 <= j <= m,
                blue == maxes(ss, j as int).0,
                red == maxes(ss, j as int).1,
                green == maxes(ss, j as int).2,
            decreases m - j,
        {
            let s = sets[j];
            if s.0 > blue {
                blue = s.0;
            }
            if s.1 > red {
                red = s.1;
            }
            if s.2 > green {
                green = s.2;
            }
            j = j + 1;
        }
        proof {
            assert((blue as int, red as int, green as int) == maxes(ss, ss.len() as int));
            assert((blue as int) * (red as int) < 0x1_0000_0000_0000_0000_0000_0000_0000_0000)
                by (nonlinear_arith)
                requires
                    0 <= blue as int <= 0xFFFF_FFFF_FFFF_FFFF && 0 <= red as int
                        <= 0xFFFF_FFFF_FFFF_FFFF,
            ;
        }
        let br: u128 = (blue as u128) * (red as u128);
        let ghost pw = game_power(ss);
        proof {
            assert(pw == (blue as int) * (red as int) * (green as int));
            assert(0 <= pw <= u64::MAX);
            assert(sum_powers(ls, i + 1) == sum_powers(ls, i as int) + pw);
        }
        proof {
            assert((br as int) * (green as int)
                < 0x1_0000_0000_0000_0000_0000_0000_0000_0000) by {
                if green == 0 {
                    assert((br as int) * (green as int) == 0) by (nonlinear_arith)
                        requires
                            green as int == 0,
                    ;
                } else {
                    if br > 0xFFFF_FFFF_FFFF_FFFFu128 {
                        assert((br as int) * (green as int) >= br as int) by (nonlinear_arith)
                            requires
                                green as int >= 1 && br as int >= 0,
                        ;
                        assert(pw > u64::MAX);
                        assert(false);
                    }
                    assert((br as int) * (green as int)
                        < 0x1_0000_0000_0000_0000_0000_0000_0000_0000) by (nonlinear_arith)
                        requires
                            0 <= br as int <= 0xFFFF_FFFF_FFFF_FFFF && 0 <= green as int
                                <= 0xFFFF_FFFF_FFFF_FFFF,
                    ;
                }
            }
        }
        let power: u128 = br * (green as u128);
        proof {
            assert(power == pw);
        }
        acc = acc + (power as u64);
        i = i + 1;
    }
    acc
}

} // verus!
