//! Verified text utilities: whitespace tokenization, space-joining,
//! decimal rendering, substring search and whitespace trimming.
//!
//! Texts are modelled as their character sequences. Tokens are the maximal
//! runs of non-whitespace characters, whitespace being the four ASCII
//! separators.

use vstd::prelude::*;

verus! {

/// The whitespace characters that separate tokens.
pub open spec fn is_space_char(c: char) -> bool {
    c == ' ' || c == '\t' || c == '\n' || c == '\r'
}

/// Whether `c` separates tokens.
pub fn is_space(c: char) -> (r: bool)
    ensures
        r == is_space_char(c),
{
    c == ' ' || c == '\t' || c == '\n' || c == '\r'
}

/// The longest non-whitespace prefix of `s`.
pub open spec fn first_token(s: Seq<char>) -> Seq<char>
    decreases s.len(),
{
    if s.len() == 0 || is_space_char(s[0]) {
        Seq::empty()
    } else {
        seq![s[0]] + first_token(s.drop_first())
    }
}

/// The whitespace-delimited tokens of `s`, in order.
pub open spec fn tokens_of(s: Seq<char>) -> Seq<Seq<char>>
    decreases s.len(),
    via tokens_of_decreases
{
    if s.len() == 0 {
        Seq::empty()
    } else if is_space_char(s[0]) {
        tokens_of(s.drop_first())
    } else {
        let t = first_token(s);
        seq![t] + tokens_of(s.skip(t.len() as int))
    }
}

#[via_fn]
proof fn tokens_of_decreases(s: Seq<char>) {
    if s.len() > 0 && !is_space_char(s[0]) {
        lemma_first_token_len(s);
    }
}

/// A non-empty text starting with a non-space character has a first token
/// of at least one and at most all of its characters.
pub proof fn lemma_first_token_len(s: Seq<char>)
    requires
        s.len() > 0,
        !is_space_char(s[0]),
    ensures
        1 <= first_token(s).len() <= s.len(),
{
    lemma_first_token_le(s);
}

/// The first token never outruns the text.
proof fn lemma_first_token_le(s: Seq<char>)
    ensures
        first_token(s).len() <= s.len(),
    decreases s.len(),
{
    if s.len() > 0 && !is_space_char(s[0]) {
        lemma_first_token_le(s.drop_first());
    }
}

/// When the first `j` characters are non-whitespace and position `j` ends
/// the run, the first token is exactly that prefix.
pub proof fn lemma_first_token_is_prefix(s: Seq<char>, j: int)
    requires
        0 <= j <= s.len(),
        forall|i: int| 0 <= i < j ==> !is_space_char(#[trigger] s[i]),
        j == s.len() || is_space_char(s[j]),
    ensures
        first_token(s) == s.take(j),
    decreases j,
{
    if j == 0 {
        assert(first_token(s) =~= s.take(0));
    } else {
        let d = s.drop_first();
        assert(forall|i: int| 0 <= i < j - 1 ==> !is_space_char(#[trigger] d[i]));
        lemma_first_token_is_prefix(d, j - 1);
        assert(first_token(s) =~= s.take(j));
    }
}

/// Tokenize a text into its whitespace-delimited tokens.
pub fn tokenize(s: &str) -> (r: Vec<String>)
    ensures
        r.deep_view() == tokens_of(s@),
{
    let n = s.unicode_len();
    let mut r: Vec<String> = Vec::new();
    let mut i: usize = 0;
    proof {
        assert(s@.skip(0) =~= s@);
        assert(r.deep_view() =~= Seq::<Seq<char>>::empty());
        assert(Seq::<Seq<char>>::empty() + tokens_of(s@) =~= tokens_of(s@));
    }
    while i < n
        invariant
            0 <= i <= n,
            n == s@.len(),
            tokens_of(s@) == r.deep_view() + tokens_of(s@.skip(i as int)),
        decreases n - i,
    {
        let c = s.get_char(i);
        if is_space(c) {
            proof {
                assert(s@.skip(i as int).drop_first() =~= s@.skip(i + 1));
            }
            i = i + 1;
        } else {
            let start = i;
            let mut j = i + 1;
            while j < n && !is_space(s.get_char(j))
                invariant
                    start < j <= n,
                    n == s@.len(),
                    forall|q: int| start <= q < j ==> !is_space_char(#[trigger] s@[q]),
                decreases n - j,
            {
                j = j + 1;
            }
            let tok = s.substring_char(start, j).to_owned();
            proof {
                let rest = s@.skip(start as int);
                assert(forall|q: int|
                    0 <= q < j - start ==> rest[q] == s@[q + start] && !is_space_char(
                        #[trigger] rest[q],
                    ));
                assert(j == n || is_space_char(rest[j - start]));
                lemma_first_token_is_prefix(rest, j - start);
                assert(rest.take(j - start) =~= s@.subrange(start as int, j as int));
                assert(tokens_of(rest) == seq![tok@] + tokens_of(rest.skip(j - start)));
                assert(rest.skip(j - start) =~= s@.skip(j as int));
            }
            let ghost dv0 = r.deep_view();
            r.push(tok);
            proof {
                assert(r.deep_view() =~= dv0.push(tok@));
                assert(dv0.push(tok@) + tokens_of(s@.skip(j as int)) =~= dv0 + (seq![tok@]
                    + tokens_of(s@.skip(j as int))));
            }
            i = j;
        }
    }
    proof {
        assert(s@.skip(n as int) =~= Seq::<char>::empty());
        assert(r.deep_view() + Seq::<Seq<char>>::empty() =~= r.deep_view());
    }
    r
}

/// The texts joined by single spaces.
pub open spec fn join_sp(ts: Seq<Seq<char>>) -> Seq<char>
    decreases ts.len(),
{
    if ts.len() == 0 {
        Seq::empty()
    } else if ts.len() == 1 {
        ts[0]
    } else {
        ts[0] + seq![' '] + join_sp(ts.drop_first())
    }
}

/// Joining one more text appends a space and the text.
pub proof fn lemma_join_push(ts: Seq<Seq<char>>, t: Seq<char>)
    ensures
        ts.len() == 0 ==> join_sp(ts.push(t)) == t,
        ts.len() > 0 ==> join_sp(ts.push(t)) == join_sp(ts) + seq![' '] + t,
    decreases ts.len(),
{
    if ts.len() == 0 {
        assert(join_sp(ts.push(t)) == ts.push(t)[0]);
        assert(ts.push(t)[0] == t);
    } else {
        lemma_join_push(ts.drop_first(), t);
        assert(ts.push(t).drop_first() =~= ts.drop_first().push(t));
        if ts.len() == 1 {
            assert(join_sp(ts.push(t)) == ts[0] + seq![' '] + t);
            assert(join_sp(ts) == ts[0]);
        } else {
            assert(join_sp(ts.push(t)) == ts[0] + seq![' '] + join_sp(ts.drop_first().push(t)));
            assert(join_sp(ts.push(t)) =~= join_sp(ts) + seq![' '] + t);
        }
    }
}

/// Join the tokens in positions `[from, to)` with single spaces.
pub fn join_tokens(tokens: &Vec<String>, from: usize, to: usize) -> (r: String)
    requires
        from <= to <= tokens@.len(),
    ensures
        r@ == join_sp(tokens.deep_view().subrange(from as int, to as int)),
{
    let mut out = String::new();
    let mut k = from;
    while k < to
        invariant
            from <= k <= to <= tokens@.len(),
            out@ == join_sp(tokens.deep_view().subrange(from as int, k as int)),
        decreases to - k,
    {
        proof {
            let part = tokens.deep_view().subrange(from as int, k as int);
            lemma_join_push(part, tokens.deep_view()[k as int]);
            assert(part.push(tokens.deep_view()[k as int]) =~= tokens.deep_view().subrange(
                from as int,
                k + 1,
            ));
        }
        if k > from {
            out.append(" ");
            proof {
                reveal_strlit(" ");
                assert(" "@ =~= seq![' ']);
            }
        }
        out.append(tokens[k].as_str());
        k = k + 1;
    }
    out
}

/// The decimal digit characters.
pub open spec fn digit_char(d: int) -> char {
    if d == 0 {
        '0'
    } else if d == 1 {
        '1'
    } else if d == 2 {
        '2'
    } else if d == 3 {
        '3'
    } else if d == 4 {
        '4'
    } else if d == 5 {
        '5'
    } else if d == 6 {
        '6'
    } else if d == 7 {
        '7'
    } else if d == 8 {
        '8'
    } else {
        '9'
    }
}

/// The decimal rendering of `n`, most significant digit first.
pub open spec fn dec_digits(n: int) -> Seq<char>
    decreases n,
{
    if n < 10 {
        seq![digit_char(n)]
    } else {
        dec_digits(n / 10) + seq![digit_char(n % 10)]
    }
}

/// One decimal digit as a string.
pub(crate) fn digit_str(d: u64) -> (r: String)
    requires
        d < 10,
    ensures
        r@ =~= seq![digit_char(d as int)],
{
    proof {
        reveal_strlit("0");
        reveal_strlit("1");
        reveal_strlit("2");
        reveal_strlit("3");
        reveal_strlit("4");
        reveal_strlit("5");
        reveal_strlit("6");
        reveal_strlit("7");
        reveal_strlit("8");
        reveal_strlit("9");
    }
    let s = if d == 0 {
        "0"
    } else if d == 1 {
        "1"
    } else if d == 2 {
        "2"
    } else if d == 3 {
        "3"
    } else if d == 4 {
        "4"
    } else if d == 5 {
        "5"
    } else if d == 6 {
        "6"
    } else if d == 7 {
        "7"
    } else if d == 8 {
        "8"
    } else {
        "9"
    };
    s.to_owned()
}

/// Render `n` in decimal.
pub fn u64_to_dec(n: u64) -> (r: String)
    ensures
        r@ == dec_digits(n as int),
    decreases n,
{
    if n < 10 {
        digit_str(n)
    } else {
        let mut s = u64_to_dec(n / 10);
        let tail = digit_str(n % 10);
        s.append(tail.as_str());
        s
    }
}

/// The first position at or after `i` where the non-empty pattern `p`
/// occurs in `s`, or `-1`; an empty pattern is never found.
pub open spec fn find_from(s: Seq<char>, p: Seq<char>, i: int) -> int
    decreases s.len() - i,
{
    if i < 0 || p.len() == 0 || i + p.len() > s.len() {
        -1
    } else if s.subrange(i, i + p.len()) == p {
        i
    } else {
        find_from(s, p, i + 1)
    }
}

/// What `find_from` finds is an occurrence, and the first one.
pub proof fn lemma_find_from(s: Seq<char>, p: Seq<char>, i: int)
    requires
        0 <= i,
    ensures
        find_from(s, p, i) >= 0 ==> i <= find_from(s, p, i) && find_from(s, p, i) + p.len()
            <= s.len() && s.subrange(find_from(s, p, i), find_from(s, p, i) + p.len() as int) == p,
        p.len() > 0 && find_from(s, p, i) < 0 ==> forall|q: int|
            i <= q && q + p.len() <= s.len() ==> #[trigger] s.subrange(q, q + p.len() as int) != p,
    decreases s.len() - i,
{
    if p.len() > 0 && i + p.len() <= s.len() && s.subrange(i, i + p.len() as int) != p {
        lemma_find_from(s, p, i + 1);
    }
}

/// Find the first occurrence of `pat` in `hay`.
pub fn find_pattern(hay: &Vec<char>, pat: &Vec<char>) -> (r: Option<usize>)
    ensures
        match r {
            Some(q) => find_from(hay@, pat@, 0) == q,
            None => find_from(hay@, pat@, 0) < 0,
        },
{
    let n = hay.len();
    let m = pat.len();
    if m > n || m == 0 {
        return None;
    }
    let mut i: usize = 0;
    while i <= n - m
        invariant
            0 <= i <= n - m + 1,
            1 <= m <= n,
            n == hay@.len(),
            m == pat@.len(),
            find_from(hay@, pat@, 0) == find_from(hay@, pat@, i as int),
        decreases n - i,
    {
        if match_at(hay, pat, i) {
            return Some(i);
        }
        i = i + 1;
    }
    proof {
        assert(find_from(hay@, pat@, i as int) < 0);
    }
    None
}

/// Whether `pat` occurs in `hay` at position `i`.
fn match_at(hay: &Vec<char>, pat: &Vec<char>, i: usize) -> (r: bool)
    requires
        i + pat@.len() <= hay@.len(),
    ensures
        r == (hay@.subrange(i as int, i + pat@.len()) == pat@),
{
    let n = hay.len();
    let m = pat.len();
    let mut j: usize = 0;
    while j < m
        invariant
            0 <= j <= m,
            i + m <= n,
            n == hay@.len(),
            m == pat@.len(),
            forall|q: int| 0 <= q < j ==> hay@[i + q] == pat@[q],
        decreases m - j,
    {
        if hay[i + j] != pat[j] {
            proof {
                assert(hay@.subrange(i as int, i + pat@.len())[j as int] == hay@[i + j]);
            }
            return false;
        }
        j = j + 1;
    }
    proof {
        assert(hay@.subrange(i as int, i + pat@.len()) =~= pat@);
    }
    true
}

/// The sequence with leading whitespace removed.
pub open spec fn drop_leading_ws(s: Seq<char>) -> Seq<char>
    decreases s.len(),
{
    if s.len() > 0 && is_space_char(s[0]) {
        drop_leading_ws(s.drop_first())
    } else {
        s
    }
}

/// The sequence with trailing whitespace removed.
pub open spec fn drop_trailing_ws(s: Seq<char>) -> Seq<char>
    decreases s.len(),
{
    if s.len() > 0 && is_space_char(s[s.len() - 1]) {
        drop_trailing_ws(s.take(s.len() - 1))
    } else {
        s
    }
}

/// The sequence trimmed of whitespace at both ends.
pub open spec fn ws_trimmed(s: Seq<char>) -> Seq<char> {
    drop_trailing_ws(drop_leading_ws(s))
}

/// The bounds of the whitespace-trimmed middle of `v`.
pub fn trim_bounds(v: &Vec<char>) -> (r: (usize, usize))
    ensures
        r.0 <= r.1 <= v@.len(),
        v@.subrange(r.0 as int, r.1 as int) == ws_trimmed(v@),
{
    let n = v.len();
    let mut a: usize = 0;
    proof {
        assert(v@.skip(0) =~= v@);
    }
    while a < n && is_space(v[a])
        invariant
            0 <= a <= n,
            n == v@.len(),
            drop_leading_ws(v@) == drop_leading_ws(v@.skip(a as int)),
        decreases n - a,
    {
        proof {
            assert(v@.skip(a as int).drop_first() =~= v@.skip(a + 1));
        }
        a = a + 1;
    }
    proof {
        if a < n {
            assert(drop_leading_ws(v@.skip(a as int)) == v@.skip(a as int));
        } else {
            assert(v@.skip(a as int) =~= Seq::<char>::empty());
        }
    }
    let mut b: usize = n;
    proof {
        assert(v@.skip(a as int).take(n - a) =~= v@.skip(a as int));
    }
    while b > a && is_space(v[b - 1])
        invariant
            a <= b <= n,
            n == v@.len(),
            drop_leading_ws(v@) == v@.skip(a as int),
            drop_trailing_ws(v@.skip(a as int)) == drop_trailing_ws(
                v@.skip(a as int).take(b - a),
            ),
        decreases b,
    {
        proof {
            let cur = v@.skip(a as int).take(b - a);
            assert(cur[cur.len() - 1] == v@[b - 1]);
            assert(cur.take(cur.len() - 1) =~= v@.skip(a as int).take(b - 1 - a));
        }
        b = b - 1;
    }
    proof {
        let cur = v@.skip(a as int).take(b - a);
        if b > a {
            assert(cur[cur.len() - 1] == v@[b - 1]);
            assert(drop_trailing_ws(cur) == cur);
        } else {
            assert(cur =~= Seq::<char>::empty());
        }
        assert(v@.subrange(a as int, b as int) =~= v@.skip(a as int).take(b - a));
    }
    (a, b)
}

/// Whether two texts have the same characters.
pub fn str_eq(a: &str, b: &str) -> (r: bool)
    ensures
        r == (a@ == b@),
{
    let n = a.unicode_len();
    let m = b.unicode_len();
    if n != m {
        return false;
    }
    let mut i: usize = 0;
    while i < n
        invariant
            0 <= i <= n,
            n == a@.len(),
            n == b@.len(),
            forall|q: int| 0 <= q < i ==> a@[q] == b@[q],
        decreases n - i,
    {
        if a.get_char(i) != b.get_char(i) {
            return false;
        }
        i = i + 1;
    }
    proof {
        assert(a@ =~= b@);
    }
    true
}

/// The characters of a text, as a vector.
pub fn to_chars(s: &str) -> (r: Vec<char>)
    ensures
        r@ == s@,
{
    let n = s.unicode_len();
    let mut r: Vec<char> = Vec::new();
    let mut i: usize = 0;
    while i < n
        invariant
            0 <= i <= n,
            n == s@.len(),
            r@ == s@.take(i as int),
        decreases n - i,
    {
        let c = s.get_char(i);
        r.push(c);
        proof {
            assert(r@ =~= s@.take(i + 1));
        }
        i = i + 1;
    }
    proof {
        assert(s@.take(n as int) =~= s@);
    }
    r
}

} // verus!
