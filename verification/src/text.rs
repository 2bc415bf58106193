//! Shared text scanning: splitting lines, whitespace tokenisation,
//! substring search, and decimal number parsing, each with a
//! specification-level counterpart that the executable code is proved
//! to agree with.

use vstd::prelude::*;

verus! {

/// Blank characters that separate tokens.
pub open spec fn is_space(c: char) -> bool {
    c == ' ' || c == '\t'
}

/// Decimal digit.
pub open spec fn is_digit(c: char) -> bool {
    48 <= c as u32 <= 57
}

/// Numeric value of a decimal digit.
pub open spec fn digit_val(c: char) -> int {
    c as u32 - 48
}

/// Value of a string of decimal digits, most significant first.
pub open spec fn nat_of(s: Seq<char>) -> int
    decreases s.len(),
{
    if s.len() == 0 {
        0
    } else {
        nat_of(s.drop_last()) * 10 + digit_val(s.last())
    }
}

/// A non-empty, all-digit token.
pub open spec fn is_digits(s: Seq<char>) -> bool {
    s.len() > 0 && forall|i: int| 0 <= i < s.len() ==> is_digit(s[i])
}

/// A signed decimal token: digits, or a minus sign followed by digits.
pub open spec fn is_int_token(s: Seq<char>) -> bool {
    if s.len() > 0 && s[0] == '-' {
        is_digits(s.skip(1))
    } else {
        is_digits(s)
    }
}

/// Value of a signed decimal token.
pub open spec fn int_of(s: Seq<char>) -> int {
    if s.len() > 0 && s[0] == '-' {
        -nat_of(s.skip(1))
    } else {
        nat_of(s)
    }
}

/// First position at or after `i` holding a space, or the length.
pub open spec fn token_end(s: Seq<char>, i: int) -> int
    decreases s.len() - i,
{
    if i < 0 || i >= s.len() || is_space(s[i]) {
        i
    } else {
        token_end(s, i + 1)
    }
}

pub proof fn lemma_token_end(s: Seq<char>, i: int)
    requires
        0 <= i <= s.len(),
    ensures
        i <= token_end(s, i) <= s.len(),
        forall|k: int| i <= k < token_end(s, i) ==> !is_space(s[k]),
        token_end(s, i) < s.len() ==> is_space(s[token_end(s, i)]),
        i < s.len() && !is_space(s[i]) ==> token_end(s, i) > i,
    decreases s.len() - i,
{
    if i < s.len() && !is_space(s[i]) {
        lemma_token_end(s, i + 1);
    }
}

/// The whitespace-separated tokens of `s`, scanning from position `i`.
pub open spec fn tokens_from(s: Seq<char>, i: int) -> Seq<Seq<char>>
    decreases s.len() - i,
    when 0 <= i
{
    if i >= s.len() {
        seq![]
    } else if is_space(s[i]) {
        tokens_from(s, i + 1)
    } else {
        proof {
            lemma_token_end(s, i);
        }
        seq![s.subrange(i, token_end(s, i))] + tokens_from(s, token_end(s, i))
    }
}

/// The whitespace-separated tokens of `s`.
pub open spec fn tokens_of(s: Seq<char>) -> Seq<Seq<char>> {
    tokens_from(s, 0)
}

/// Does the pattern `pat` occur in `s` at position `i`?
pub open spec fn matches_at(s: Seq<char>, pat: Seq<char>, i: int) -> bool {
    0 <= i && i + pat.len() <= s.len() && s.subrange(i, i + pat.len()) == pat
}

/// Leftmost occurrence of `pat` in `s` at or after position `i`.
pub open spec fn find_from(s: Seq<char>, pat: Seq<char>, i: int) -> Option<int>
    decreases s.len() - i,
    when 0 <= i && 1 <= pat.len()
{
    if i + pat.len() > s.len() {
        None
    } else if matches_at(s, pat, i) {
        Some(i)
    } else {
        find_from(s, pat, i + 1)
    }
}

pub proof fn lemma_find_from(s: Seq<char>, pat: Seq<char>, i: int)
    requires
        0 <= i,
        1 <= pat.len(),
    ensures
        find_from(s, pat, i) matches Some(m) ==> i <= m && m + pat.len() <= s.len()
            && matches_at(s, pat, m),
    decreases s.len() - i,
{
    if i + pat.len() <= s.len() && !matches_at(s, pat, i) {
        lemma_find_from(s, pat, i + 1);
    }
}

/// The pieces of `s` from position `i` on, split at each occurrence of `sep`.
pub open spec fn split_on_from(s: Seq<char>, sep: Seq<char>, i: int) -> Seq<Seq<char>>
    decreases s.len() - i,
    when 0 <= i <= s.len() && sep.len() >= 1
{
    match find_from(s, sep, i) {
        Option::None => seq![s.subrange(i, s.len() as int)],
        Option::Some(m) => {
            proof {
                lemma_find_from(s, sep, i);
            }
            seq![s.subrange(i, m)] + split_on_from(s, sep, m + sep.len())
        },
    }
}

/// The pieces of `s`, split at each occurrence of `sep`.
pub open spec fn split_on_spec(s: Seq<char>, sep: Seq<char>) -> Seq<Seq<char>> {
    split_on_from(s, sep, 0)
}

/// First position at or after `i` holding a newline, or the length.
pub open spec fn nl_end(s: Seq<char>, i: int) -> int
    decreases s.len() - i,
{
    if i < 0 || i >= s.len() || s[i] == '\n' {
        i
    } else {
        nl_end(s, i + 1)
    }
}

pub proof fn lemma_nl_end(s: Seq<char>, i: int)
    requires
        0 <= i <= s.len(),
    ensures
        i <= nl_end(s, i) <= s.len(),
        forall|k: int| i <= k < nl_end(s, i) ==> s[k] != '\n',
        nl_end(s, i) < s.len() ==> s[nl_end(s, i)] == '\n',
    decreases s.len() - i,
{
    if i < s.len() && s[i] != '\n' {
        lemma_nl_end(s, i + 1);
    }
}

/// Drop one trailing carriage return, as `str::lines` does.
pub open spec fn strip_cr(p: Seq<char>) -> Seq<char> {
    if p.len() > 0 && p.last() == '\r' {
        p.drop_last()
    } else {
        p
    }
}

/// The lines of `s` from position `i` on: pieces between newlines, each
/// with one trailing carriage return removed, a trailing final newline
/// producing no extra empty line.
pub open spec fn lines_from(s: Seq<char>, i: int) -> Seq<Seq<char>>
    decreases s.len() - i,
    when 0 <= i
{
    if i >= s.len() {
        seq![]
    } else {
        proof {
            lemma_nl_end(s, i);
        }
        let j = nl_end(s, i);
        let piece = strip_cr(s.subrange(i, j));
        if j >= s.len() {
            seq![piece]
        } else {
            seq![piece] + lines_from(s, j + 1)
        }
    }
}

/// The lines of `s`.
pub open spec fn lines_of(s: Seq<char>) -> Seq<Seq<char>> {
    lines_from(s, 0)
}

/// A string of digits names a number that is not negative.
pub proof fn lemma_nat_of_nonneg(s: Seq<char>)
    requires
        forall|i: int| 0 <= i < s.len() ==> is_digit(#[trigger] s[i]),
    ensures
        nat_of(s) >= 0,
    decreases s.len(),
{
    if s.len() > 0 {
        assert(forall|i: int| 0 <= i < s.drop_last().len() ==> s.drop_last()[i] == s[i]);
        lemma_nat_of_nonneg(s.drop_last());
        assert(is_digit(s.last()));
    }
}

/// For an all-digit suffix, extending a digit string leftward to the
/// full string can only increase its value.
pub proof fn lemma_nat_of_prefix(s: Seq<char>, k: int)
    requires
        0 <= k <= s.len(),
        forall|j: int| k <= j < s.len() ==> is_digit(s[j]),
        nat_of(s.subrange(0, k)) >= 0,
    ensures
        nat_of(s) >= nat_of(s.subrange(0, k)),
    decreases s.len() - k,
{
    if k < s.len() {
        let t = s.drop_last();
        assert(t.subrange(0, k) =~= s.subrange(0, k));
        lemma_nat_of_prefix(t, k);
        assert(is_digit(s.last()));
        assert(nat_of(s) == nat_of(t) * 10 + digit_val(s.last()));
        assert(nat_of(t) * 10 >= nat_of(t)) by {
            assert(nat_of(t) >= 0);
        }
    } else {
        assert(s.subrange(0, k) =~= s);
    }
}

/// The characters of a string slice, one by one.
pub fn chars_of(s: &str) -> (r: Vec<char>)
    ensures
        r@ == s@,
{
    let n = s.unicode_len();
    let mut r: Vec<char> = Vec::new();
    let mut i: usize = 0;
    while i < n
        invariant
            n == s@.len(),
            0 <= i <= n,
            r@ == s@.subrange(0, i as int),
        decreases n - i,
    {
        r.push(s.get_char(i));
        i = i + 1;
        assert(r@ =~= s@.subrange(0, i as int));
    }
    proof {
        assert(r@ =~= s@);
    }
    r
}

/// The whitespace-separated tokens of `s`.
pub fn split_ws(s: &[char]) -> (r: Vec<Vec<char>>)
    ensures
        r.deep_view() == tokens_of(s@),
{
    let n = s.len();
    let mut r: Vec<Vec<char>> = Vec::new();
    let mut i: usize = 0;
    while i < n
        invariant
            n == s@.len(),
            0 <= i <= n,
            tokens_of(s@) == r.deep_view() + tokens_from(s@, i as int),
        decreases n - i,
    {
        let c = s[i];
        if c == ' ' || c == '\t' {
            i = i + 1;
        } else {
            let start = i;
            let mut j = i;
            while j < n && !(s[j] == ' ' || s[j] == '\t')
                invariant
                    n == s@.len(),
                    i <= j <= n,
                    token_end(s@, i as int) == token_end(s@, j as int),
                decreases n - j,
            {
                j = j + 1;
            }
            assert(token_end(s@, i as int) == j);
            let tok: Vec<char> = vstd::slice::slice_to_vec(vstd::slice::slice_subrange(s, start, j));
            let ghost old_dv = r.deep_view();
            r.push(tok);
            proof {
                assert(r.deep_view() =~~= old_dv + seq![s@.subrange(start as int, j as int)]);
                assert(tokens_from(s@, i as int) =~~= seq![s@.subrange(i as int, j as int)]
                    + tokens_from(s@, j as int));
                assert(tokens_of(s@) =~~= r.deep_view() + tokens_from(s@, j as int));
            }
            i = j;
        }
    }
    proof {
        assert(tokens_of(s@) =~~= r.deep_view());
    }
    r
}

/// Parse an unsigned decimal number; `None` on a malformed token or one
/// past the `u64` range.
pub fn parse_u64(t: &[char]) -> (r: Option<u64>)
    ensures
        match r {
            Option::Some(v) => is_digits(t@) && nat_of(t@) <= u64::MAX && v == nat_of(t@),
            Option::None => !is_digits(t@) || nat_of(t@) > u64::MAX,
        },
{
    let n = t.len();
    if n == 0 {
        return None;
    }
    let mut acc: u64 = 0;
    let mut i: usize = 0;
    while i < n
        invariant
            n == t@.len(),
            0 <= i <= n,
            forall|k: int| 0 <= k < i ==> is_digit(t@[k]),
            acc == nat_of(t@.subrange(0, i as int)),
        decreases n - i,
    {
        let u = t[i] as u32;
        if u < 48 || u > 57 {
            return None;
        }
        let d = (u - 48) as u64;
        let next: u128 = (acc as u128) * 10 + (d as u128);
        proof {
            assert(t@.subrange(0, (i + 1) as int).drop_last() =~= t@.subrange(0, i as int));
            assert(t@.subrange(0, (i + 1) as int).last() == t@[i as int]);
        }
        if next > u64::MAX as u128 {
            proof {
                if is_digits(t@) {
                    lemma_nat_of_prefix(t@, (i + 1) as int);
                }
            }
            return None;
        }
        acc = next as u64;
        i = i + 1;
    }
    proof {
        assert(t@.subrange(0, n as int) =~= t@);
    }
    Some(acc)
}

/// Parse a signed decimal number; `None` on a malformed token or one
/// past the `i32` range.
pub fn parse_i32(t: &[char]) -> (r: Option<i32>)
    ensures
        match r {
            Option::Some(v) => is_int_token(t@) && i32::MIN <= int_of(t@) <= i32::MAX
                && v == int_of(t@),
            Option::None => !is_int_token(t@) || int_of(t@) < i32::MIN || int_of(t@) > i32::MAX,
        },
{
    let n = t.len();
    if n > 0 && t[0] == '-' {
        let digits = vstd::slice::slice_subrange(t, 1, n);
        assert(digits@ =~= t@.skip(1));
        match parse_u64(digits) {
            Option::Some(v) => {
                if v > 0x8000_0000u64 {
                    None
                } else {
                    Some((-(v as i64)) as i32)
                }
            },
            Option::None => None,
        }
    } else {
        match parse_u64(t) {
            Option::Some(v) => {
                if v > 0x7FFF_FFFFu64 {
                    None
                } else {
                    Some(v as i32)
                }
            },
            Option::None => None,
        }
    }
}

/// Leftmost occurrence of `pat` in `s` at or after position `from`.
pub fn find_from_sub(s: &[char], pat: &[char], from: usize) -> (r: Option<usize>)
    requires
        pat@.len() >= 1,
        from <= s@.len(),
    ensures
        match r {
            Option::Some(m) => from <= m && find_from(s@, pat@, from as int) == Some(m as int),
            Option::None => find_from(s@, pat@, from as int) is None,
        },
{
    let n = s.len();
    let p = pat.len();
    if p > n {
        return None;
    }
    let mut i = from;
    while i <= n - p
        invariant
            n == s@.len(),
            p == pat@.len(),
            1 <= p <= n,
            from <= i <= n,
            find_from(s@, pat@, from as int) == find_from(s@, pat@, i as int),
        decreases n - i,
    {
        let mut j: usize = 0;
        let mut matched = true;
        while j < p
            invariant
                n == s@.len(),
                p == pat@.len(),
                i + p <= n,
                0 <= j <= p,
                matched <==> (forall|k: int| 0 <= k < j ==> s@[i + k] == pat@[k]),
            decreases p - j,
        {
            if s[i + j] != pat[j] {
                matched = false;
                j = p;
            } else {
                j = j + 1;
            }
        }
        if matched {
            proof {
                assert(s@.subrange(i as int, i + p) =~= pat@);
            }
            return Some(i);
        }
        proof {
            assert(s@.subrange(i as int, i + p).len() == pat@.len());
            assert(!matches_at(s@, pat@, i as int)) by {
                let k = choose|k: int| 0 <= k < p && s@[i + k] != pat@[k];
                assert(s@.subrange(i as int, i + p)[k] == s@[i + k]);
            }
        }
        i = i + 1;
    }
    None
}


/// The pieces of `s`, split at each occurrence of `sep`.
pub fn split_on(s: &[char], sep: &[char]) -> (r: Vec<Vec<char>>)
    requires
        sep@.len() >= 1,
    ensures
        r.deep_view() == split_on_spec(s@, sep@),
{
    let n = s.len();
    let mut r: Vec<Vec<char>> = Vec::new();
    let mut i: usize = 0;
    loop
        invariant
            n == s@.len(),
            sep@.len() >= 1,
            0 <= i <= n,
            split_on_spec(s@, sep@) == r.deep_view() + split_on_from(s@, sep@, i as int),
        decreases n - i,
    {
        match find_from_sub(s, sep, i) {
            Option::None => {
                let piece: Vec<char> = vstd::slice::slice_to_vec(
                    vstd::slice::slice_subrange(s, i, n),
                );
                let ghost old_dv = r.deep_view();
                r.push(piece);
                proof {
                    assert(r.deep_view() =~~= old_dv + seq![s@.subrange(i as int, n as int)]);
                    assert(split_on_spec(s@, sep@) =~~= r.deep_view());
                }
                return r;
            },
            Option::Some(m) => {
                proof {
                    lemma_find_from(s@, sep@, i as int);
                }
                let piece: Vec<char> = vstd::slice::slice_to_vec(
                    vstd::slice::slice_subrange(s, i, m),
                );
                let ghost old_dv = r.deep_view();
                r.push(piece);
                proof {
                    assert(r.deep_view() =~~= old_dv + seq![s@.subrange(i as int, m as int)]);
                    assert(split_on_spec(s@, sep@) =~~= r.deep_view() + split_on_from(
                        s@,
                        sep@,
                        m + sep@.len(),
                    ));
                }
                i = m + sep.len();
            },
        }
    }
}

/// The lines of `s`, as `str::lines` would give them.
pub fn split_lines(s: &[char]) -> (r: Vec<Vec<char>>)
    ensures
        r.deep_view() == lines_of(s@),
{
    let n = s.len();
    let mut r: Vec<Vec<char>> = Vec::new();
    let mut i: usize = 0;
    while i < n
        invariant
            n == s@.len(),
            0 <= i <= n,
            lines_of(s@) == r.deep_view() + lines_from(s@, i as int),
        decreases n - i,
    {
        let mut j = i;
        while j < n && s[j] != '\n'
            invariant
                n == s@.len(),
                i <= j <= n,
                nl_end(s@, i as int) == nl_end(s@, j as int),
            decreases n - j,
        {
            j = j + 1;
        }
        assert(nl_end(s@, i as int) == j);
        let mut piece: Vec<char> = vstd::slice::slice_to_vec(
            vstd::slice::slice_subrange(s, i, j),
        );
        if piece.len() > 0 && piece[piece.len() - 1] == '\r' {
            piece.pop();
        }
        assert(piece@ == strip_cr(s@.subrange(i as int, j as int)));
        let ghost old_dv = r.deep_view();
        r.push(piece);
        proof {
            assert(r.deep_view() =~~= old_dv + seq![strip_cr(s@.subrange(i as int, j as int))]);
            if j < n {
                assert(lines_of(s@) =~~= r.deep_view() + lines_from(s@, j + 1));
            } else {
                assert(lines_of(s@) =~~= r.deep_view() + lines_from(s@, n as int));
            }
        }
        if j < n {
            i = j + 1;
        } else {
            i = n;
        }
    }
    proof {
        assert(lines_of(s@) =~~= r.deep_view());
    }
    r
}

/// The lines of a string slice, as vectors of characters.
pub fn str_lines(s: &str) -> (r: Vec<Vec<char>>)
    ensures
        r.deep_view() == lines_of(s@),
{
    let cs = chars_of(s);
    split_lines(cs.as_slice())
}


/// The lines of a list of strings, as sequences of characters.
pub open spec fn lines_view(lines: Seq<String>) -> Seq<Seq<char>> {
    Seq::new(lines.len(), |i: int| lines[i]@)
}

} // verus!
