//! Scratch cards: each card lists winning numbers and picked numbers.
//! The matches of a card are the distinct picked numbers that also
//! appear among the winning ones.

use vstd::prelude::*;

verus! {

/// How many distinct values of the first `n` picked numbers appear
/// among the winning numbers.
pub open spec fn match_count_below(w: Seq<u64>, p: Seq<u64>, n: int) -> int
    decreases n,
{
    if n <= 0 {
        0
    } else {
        match_count_below(w, p, n - 1) + if w.contains(p[n - 1]) && !p.take(n - 1).contains(
            p[n - 1],
        ) {
            1int
        } else {
            0int
        }
    }
}

/// How many distinct picked numbers appear among the winning numbers.
pub open spec fn match_count(w: Seq<u64>, p: Seq<u64>) -> int {
    match_count_below(w, p, p.len() as int)
}

proof fn lemma_match_count_bounds(w: Seq<u64>, p: Seq<u64>, n: int)
    ensures
        0 <= match_count_below(w, p, n) <= (if n >= 0 {
            n
        } else {
            0
        }),
    decreases n,
{
    if n > 0 {
        lemma_match_count_bounds(w, p, n - 1);
    }
}

/// Count the distinct picked numbers that are also winning numbers.
pub fn count_matches(winning: &Vec<u64>, picked: &Vec<u64>) -> (r: u64)
    requires
        picked@.len() <= u64::MAX,
    ensures
        r == match_count(winning@, picked@),
{
    let n = picked.len();
    let mut c: u64 = 0;
    let mut i: usize = 0;
    while i < n
        invariant
            n == picked@.len(),
            n <= u64::MAX,
            0 <= i <= n,
            c == match_count_below(winning@, picked@, i as int),
            c <= i,
        decreases n - i,
    {
        proof {
            lemma_match_count_bounds(winning@, picked@, i as int);
        }
        let v = picked[i];
        let mut in_w = false;
        let wn = winning.len();
        let mut j: usize = 0;
        while j < wn
            invariant
                wn == winning@.len(),
                0 <= j <= wn,
                in_w <==> exists|k: int| 0 <= k < j && winning@[k] == v,
            decreases wn - j,
        {
            if winning[j] == v {
                in_w = true;
            }
            j = j + 1;
        }
        proof {
            assert(in_w <==> winning@.contains(v));
        }
        let mut seen = false;
        let mut k: usize = 0;
        while k < i
            invariant
                0 <= k <= i <= n,
                n == picked@.len(),
                seen <==> exists|t: int| 0 <= t < k && picked@[t] == v,
            decreases i - k,
        {
            if picked[k] == v {
                seen = true;
            }
            k = k + 1;
        }
        proof {
            assert(seen <==> picked@.take(i as int).contains(v)) by {
                if seen {
                    let t = choose|t: int| 0 <= t < i && picked@[t] == v;
                    assert(picked@.take(i as int)[t] == v);
                }
                if picked@.take(i as int).contains(v) {
                    let t = choose|t: int|
                        0 <= t < i && picked@.take(i as int)[t] == v;
                    assert(picked@[t] == v);
                }
            }
        }
        if in_w && !seen {
            c = c + 1;
        }
        i = i + 1;
    }
    c
}

/// Two raised to the power `e`.
pub open spec fn pow2(e: int) -> int
    decreases e,
{
    if e <= 0 {
        1
    } else {
        2 * pow2(e - 1)
    }
}

/// The points a card scores: nothing without a match, else a doubling
/// for every match beyond the first.
pub open spec fn score_of(m: int) -> int {
    if m == 0 {
        0
    } else {
        pow2(m - 1)
    }
}

proof fn lemma_pow2_pos(e: int)
    ensures
        pow2(e) > 0,
    decreases e,
{
    if e > 0 {
        lemma_pow2_pos(e - 1);
    }
}

proof fn lemma_pow2_mono(a: int, b: int)
    requires
        a <= b,
    ensures
        pow2(a) <= pow2(b),
    decreases b - a,
{
    if a < b {
        lemma_pow2_mono(a, b - 1);
        lemma_pow2_pos(b - 1);
    }
}

proof fn lemma_pow2_bounds(e: int)
    requires
        e <= 63,
    ensures
        0 < pow2(e) <= 0x8000_0000_0000_0000,
{
    lemma_pow2_pos(e);
    lemma_pow2_mono(e, 63);
    assert(pow2(63) == 0x8000_0000_0000_0000) by {
        reveal_with_fuel(pow2, 64);
    }
}

/// The points a card with `m` matches scores.
pub fn score(m: u64) -> (r: u64)
    requires
        m <= 64,
    ensures
        r == score_of(m as int),
{
    if m == 0 {
        return 0;
    }
    let mut r: u64 = 1;
    let mut e: u64 = 0;
    while e < m - 1
        invariant
            1 <= m <= 64,
            0 <= e <= m - 1,
            r == pow2(e as int),
        decreases m - e,
    {
        proof {
            lemma_pow2_bounds((e + 1) as int);
        }
        r = r * 2;
        e = e + 1;
    }
    r
}

/// The winning and picked numbers of one card line; `None` when the
/// line is malformed.
pub open spec fn card_spec(l: Seq<char>) -> Option<(Seq<u64>, Seq<u64>)> {
    let halves = crate::text::split_on_spec(l, seq![':', ' ']);
    if halves.len() < 2 {
        None
    } else {
        let nums = crate::text::split_on_spec(halves[1], seq![' ', '|', ' ']);
        if nums.len() != 2 {
            None
        } else {
            match crate::day05::parse_u64_tokens(crate::text::tokens_of(nums[0])) {
                Option::Some(w) => {
                    match crate::day05::parse_u64_tokens(crate::text::tokens_of(nums[1])) {
                        Option::Some(p) => Some((w, p)),
                        Option::None => None,
                    }
                },
                Option::None => None,
            }
        }
    }
}

/// The matches of the card on line `l`.
pub open spec fn line_matches(l: Seq<char>) -> int {
    match_count(card_spec(l).unwrap().0, card_spec(l).unwrap().1)
}

/// The summed score of the first `n` cards.
pub open spec fn total_score(ls: Seq<Seq<char>>, n: int) -> int
    decreases n,
{
    if n <= 0 {
        0
    } else {
        total_score(ls, n - 1) + score_of(line_matches(ls[n - 1]))
    }
}

/// Every line a card, with few enough matches for its score and picks
/// that fit the counting.
pub open spec fn cards_ok(ls: Seq<Seq<char>>) -> bool {
    forall|i: int|
        0 <= i < ls.len() ==> card_spec(#[trigger] ls[i]) is Some && line_matches(ls[i]) <= 64
            && card_spec(ls[i]).unwrap().1.len() <= u64::MAX
}

/// Read one card line.
fn parse_card(l: &Vec<char>) -> (r: (Vec<u64>, Vec<u64>))
    requires
        card_spec(l@) is Some,
    ensures
        r.0@ == card_spec(l@).unwrap().0,
        r.1@ == card_spec(l@).unwrap().1,
{
    let colon: Vec<char> = vec![':', ' '];
    let bar: Vec<char> = vec![' ', '|', ' '];
    proof {
        assert(colon@ =~= seq![':', ' ']);
        assert(bar@ =~= seq![' ', '|', ' ']);
    }
    let halves = crate::text::split_on(l.as_slice(), colon.as_slice());
    proof {
        assert(halves.deep_view() == crate::text::split_on_spec(l@, seq![':', ' ']));
        assert(halves.deep_view().len() >= 2);
        assert(halves@[1]@ == halves.deep_view()[1]);
    }
    let nums = crate::text::split_on(halves[1].as_slice(), bar.as_slice());
    proof {
        assert(nums.deep_view() == crate::text::split_on_spec(
            crate::text::split_on_spec(l@, seq![':', ' '])[1],
            seq![' ', '|', ' '],
        ));
        assert(nums.deep_view().len() == 2);
        assert(nums@[0]@ == nums.deep_view()[0]);
        assert(nums@[1]@ == nums.deep_view()[1]);
    }
    let w = crate::day05::parse_number_list(&nums[0]);
    let p = crate::day05::parse_number_list(&nums[1]);
    (w, p)
}

/// The summed score of all cards.
pub fn part1(lines: &[String]) -> (r: u64)
    requires
        cards_ok(crate::text::lines_view(lines@)),
        forall|n: int|
            0 <= n <= lines@.len() ==> 0 <= #[trigger] total_score(
                crate::text::lines_view(lines@),
                n,
            ) <= u64::MAX,
    ensures
        r == total_score(
            crate::text::lines_view(lines@),
            lines@.len() as int,
        ),
{
    let ghost ls = crate::text::lines_view(lines@);
    let n = lines.len();
    let mut acc: u64 = 0;
    let mut i: usize = 0;
    while i < n
        invariant
            n == ls.len(),
            n == lines@.len(),
            ls == crate::text::lines_view(lines@),
            cards_ok(ls),
            forall|k: int| 0 <= k <= n ==> 0 <= #[trigger] total_score(ls, k) <= u64::MAX,
            0 <= i <= n,
            acc == total_score(ls, i as int),
        decreases n - i,
    {
        let lv = crate::text::chars_of(lines[i].as_str());
        proof {
            assert(lv@ == ls[i as int]);
            assert(card_spec(ls[i as int]) is Some);
        }
        let (w, p) = parse_card(&lv);
        let m = count_matches(&w, &p);
        proof {
            assert(m == line_matches(ls[i as int]));
            lemma_match_count_bounds(
                card_spec(ls[i as int]).unwrap().0,
                card_spec(ls[i as int]).unwrap().1,
                card_spec(ls[i as int]).unwrap().1.len() as int,
            );
        }
        let s = score(m);
        proof {
            assert(total_score(ls, i + 1) == total_score(ls, i as int) + score_of(
                line_matches(ls[i as int]),
            ));
            lemma_pow2_bounds(63);
        }
        acc = acc + s;
        i = i + 1;
    }
    acc
}

/// The card pile after the first `k` cards handed out their copies:
/// card `i` adds one copy of itself per copy held to each of the next
/// `matches(i)` cards.
pub open spec fn counts_after(ls: Seq<Seq<char>>, k: int) -> Seq<int>
    decreases k,
{
    if k <= 0 {
        Seq::new(ls.len(), |j: int| 1)
    } else {
        let prev = counts_after(ls, k - 1);
        Seq::new(
            ls.len(),
            |j: int|
                if k - 1 < j <= k - 1 + line_matches(ls[k - 1]) {
                    prev[j] + prev[k - 1]
                } else {
                    prev[j]
                },
        )
    }
}

/// The sum of the first `n` card counts of the final pile.
pub open spec fn sum_counts(c: Seq<int>, n: int) -> int
    decreases n,
{
    if n <= 0 {
        0
    } else {
        sum_counts(c, n - 1) + c[n - 1]
    }
}

/// Every card's copies reach only existing cards, and the pile never
/// outgrows the machine word.
pub open spec fn pile_ok(ls: Seq<Seq<char>>) -> bool {
    &&& forall|i: int| 0 <= i < ls.len() ==> i + line_matches(#[trigger] ls[i]) < ls.len()
    &&& forall|k: int, j: int|
        0 <= k <= ls.len() && 0 <= j < ls.len() ==> 0 <= #[trigger] counts_after(ls, k)[j]
            <= u64::MAX
    &&& forall|n: int|
        0 <= n <= ls.len() ==> 0 <= #[trigger] sum_counts(counts_after(ls, ls.len() as int), n)
            <= u64::MAX
}

/// How many cards the pile holds once every card has handed out its
/// copies.
pub fn part2(lines: &[String]) -> (r: u64)
    requires
        cards_ok(crate::text::lines_view(lines@)),
        pile_ok(crate::text::lines_view(lines@)),
    ensures
        r == sum_counts(
            counts_after(
                crate::text::lines_view(lines@),
                lines@.len() as int,
            ),
            lines@.len() as int,
        ),
{
    let ghost ls = crate::text::lines_view(lines@);
    let n = lines.len();
    let mut counts: Vec<u64> = Vec::new();
    let mut i: usize = 0;
    while i < n
        invariant
            n == ls.len(),
            0 <= i <= n,
            counts@.len() == i,
            forall|j: int| 0 <= j < i ==> counts@[j] == 1,
        decreases n - i,
    {
        counts.push(1);
        i = i + 1;
    }
    proof {
        assert forall|j: int| 0 <= j < n implies counts@[j] as int == counts_after(
            ls,
            0,
        )[j] by {}
    }
    let mut k: usize = 0;
    while k < n
        invariant
            n == ls.len(),
            n == lines@.len(),
            ls == crate::text::lines_view(lines@),
            cards_ok(ls),
            pile_ok(ls),
            0 <= k <= n,
            counts@.len() == n,
            forall|j: int| 0 <= j < n ==> counts@[j] as int == counts_after(ls, k as int)[j],
        decreases n - k,
    {
        let lv = crate::text::chars_of(lines[k].as_str());
        proof {
            assert(lv@ == ls[k as int]);
            assert(card_spec(ls[k as int]) is Some);
        }
        let (w, p) = parse_card(&lv);
        let m = count_matches(&w, &p);
        proof {
            assert(m == line_matches(ls[k as int]));
            assert(k + line_matches(ls[k as int]) < n);
        }
        let ghost before = counts@;
        let base = counts[k];
        let mu = m as usize;
        proof {
            assert(mu == m);
        }
        let mut j: usize = 0;
        while j < mu
            invariant
                mu == m,
                n == ls.len(),
                counts@.len() == n,
                m == line_matches(ls[k as int]),
                k + m < n,
                0 <= j <= m,
                base == before[k as int],
                forall|t: int|
                    0 <= t < n && !(k < t <= k + j) ==> counts@[t] == before[t],
                forall|t: int|
                    k < t <= k + j ==> counts@[t] as int == before[t] + before[k as int],
                forall|t: int|
                    0 <= t < n ==> before[t] as int == counts_after(ls, k as int)[t],
                pile_ok(ls),
            decreases m - j,
        {
            let idx = k + j + 1;
            proof {
                assert(counts@[idx as int] == before[idx as int]);
                assert(counts_after(ls, (k + 1) as int)[idx as int] == counts_after(
                    ls,
                    k as int,
                )[idx as int] + counts_after(ls, k as int)[k as int]);
                assert(0 <= counts_after(ls, (k + 1) as int)[idx as int] <= u64::MAX);
            }
            let add = counts[idx] + base;
            counts.set(idx, add);
            j = j + 1;
        }
        proof {
            assert forall|t: int| 0 <= t < n implies counts@[t] as int == counts_after(
                ls,
                (k + 1) as int,
            )[t] by {
                if k < t <= k + m {
                    assert(counts@[t] as int == before[t] + before[k as int]);
                } else {
                    assert(counts@[t] == before[t]);
                }
            }
        }
        k = k + 1;
    }
    let mut acc: u64 = 0;
    let mut t: usize = 0;
    proof {
        assert(counts_after(ls, n as int) == counts_after(ls, ls.len() as int));
    }
    while t < n
        invariant
            n == ls.len(),
            pile_ok(ls),
            counts@.len() == n,
            forall|j: int| 0 <= j < n ==> counts@[j] as int == counts_after(ls, n as int)[j],
            0 <= t <= n,
            acc == sum_counts(counts_after(ls, n as int), t as int),
        decreases n - t,
    {
        proof {
            assert(sum_counts(counts_after(ls, n as int), t + 1) == sum_counts(
                counts_after(ls, n as int),
                t as int,
            ) + counts_after(ls, n as int)[t as int]);
            assert(0 <= sum_counts(counts_after(ls, n as int), t + 1) <= u64::MAX);
        }
        acc = acc + counts[t];
        t = t + 1;
    }
    acc
}

} // verus!
