//! Character-level helpers shared by the solvers.
use vstd::prelude::*;

verus! {

/// Relies on `String::push`: the character is appended at the end.
#[verifier::external_body]
pub(crate) fn push_char(s: &mut String, c: char)
    ensures
        final(s)@ == old(s)@.push(c),
{
    s.push(c)
}

/// The characters of `s`, in order.
pub fn chars_of(s: &str) -> (r: Vec<char>)
    ensures
        r@ == s@,
{
    let mut r: Vec<char> = Vec::new();
    for c in it: s.chars()
        invariant
            it.seq() == s@,
            r@ == it.seq().take(it.index() as int),
    {
        r.push(c);
    }
    r
}

/// Index of the first `c` in `s` at or after `i`, or the length of `s`.
pub open spec fn next_index(s: Seq<char>, c: char, i: int) -> int
    decreases s.len() - i,
{
    if i >= s.len() {
        s.len() as int
    } else if s[i] == c {
        i
    } else {
        next_index(s, c, i + 1)
    }
}

/// Index of the first `c` in `w` at or after `from`, or the length of `w`.
pub fn find_char(w: &Vec<char>, c: char, from: usize) -> (r: usize)
    requires
        from <= w@.len(),
    ensures
        r == next_index(w@, c, from as int),
        from <= r <= w@.len(),
{
    let mut i = from;
    while i < w.len() && w[i] != c
        invariant
            from <= i <= w@.len(),
            next_index(w@, c, i as int) == next_index(w@, c, from as int),
        decreases w@.len() - i,
    {
        i += 1;
    }
    i
}

/// Unicode's `White_Space` property, as `char::is_whitespace` decides it.
pub open spec fn is_white_space(c: char) -> bool {
    ('\t' <= c <= '\r') || c == ' ' || c == '\u{85}' || c == '\u{A0}' || c == '\u{1680}'
        || ('\u{2000}' <= c <= '\u{200A}') || c == '\u{2028}' || c == '\u{2029}'
        || c == '\u{202F}' || c == '\u{205F}' || c == '\u{3000}'
}

pub fn is_whitespace(c: char) -> (r: bool)
    ensures
        r == is_white_space(c),
{
    ('\t' <= c && c <= '\r') || c == ' ' || c == '\u{85}' || c == '\u{A0}' || c == '\u{1680}'
        || ('\u{2000}' <= c && c <= '\u{200A}') || c == '\u{2028}' || c == '\u{2029}'
        || c == '\u{202F}' || c == '\u{205F}' || c == '\u{3000}'
}

/// Reading `s` left to right: the words completed so far and the word in
/// progress.
pub open spec fn split_state(s: Seq<char>) -> (Seq<Seq<char>>, Seq<char>)
    decreases s.len(),
{
    if s.len() == 0 {
        (Seq::empty(), Seq::empty())
    } else {
        let (ws, cur) = split_state(s.drop_last());
        let c = s.last();
        if !is_white_space(c) {
            (ws, cur.push(c))
        } else if cur.len() > 0 {
            (ws.push(cur), Seq::empty())
        } else {
            (ws, cur)
        }
    }
}

/// The maximal runs of non-whitespace characters of `s`, in order.
pub open spec fn words(s: Seq<char>) -> Seq<Seq<char>> {
    let (ws, cur) = split_state(s);
    if cur.len() > 0 {
        ws.push(cur)
    } else {
        ws
    }
}

pub open spec fn views_of(v: Seq<Vec<char>>) -> Seq<Seq<char>> {
    v.map_values(|w: Vec<char>| w@)
}

/// Splits `s` into its whitespace-separated words.
pub fn split_words(s: &Vec<char>) -> (r: Vec<Vec<char>>)
    ensures
        views_of(r@) == words(s@),
{
    let mut r: Vec<Vec<char>> = Vec::new();
    let mut cur: Vec<char> = Vec::new();
    let mut i: usize = 0;
    while i < s.len()
        invariant
            i <= s@.len(),
            split_state(s@.take(i as int)) == (views_of(r@), cur@),
        decreases s@.len() - i,
    {
        let c = s[i];
        proof {
            assert(s@.take(i + 1).drop_last() == s@.take(i as int));
        }
        if !is_whitespace(c) {
            cur.push(c);
        } else if cur.len() > 0 {
            let ghost old_r = r@;
            r.push(cur);
            cur = Vec::new();
            proof {
                assert(views_of(r@) =~= views_of(old_r).push(r@.last()@));
            }
        }
        i += 1;
    }
    proof {
        assert(s@.take(i as int) == s@);
    }
    if cur.len() > 0 {
        let ghost old_r = r@;
        r.push(cur);
        proof {
            assert(views_of(r@) =~= views_of(old_r).push(r@.last()@));
        }
    }
    r
}

pub open spec fn is_digit(c: char) -> bool {
    '0' <= c <= '9'
}

pub fn is_ascii_digit(c: char) -> (r: bool)
    ensures
        r == is_digit(c),
{
    '0' <= c && c <= '9'
}

/// The number that the ASCII digits `d` write in decimal.
pub open spec fn decimal(d: Seq<char>) -> int
    decreases d.len(),
{
    if d.len() == 0 {
        0
    } else {
        decimal(d.drop_last()) * 10 + (d.last() as int - '0' as int)
    }
}

pub proof fn lemma_decimal_grows(d: Seq<char>, c: char)
    requires
        is_digit(c),
        forall|k: int| 0 <= k < d.len() ==> is_digit(#[trigger] d[k]),
    ensures
        decimal(d) >= 0,
        decimal(d.push(c)) >= decimal(d),
    decreases d.len(),
{
    assert(d.push(c).drop_last() == d);
    if d.len() > 0 {
        lemma_decimal_grows(d.drop_last(), d.last());
    }
}

/// `cur` without one trailing `\r`.
pub open spec fn strip_cr(cur: Seq<char>) -> Seq<char> {
    if cur.len() > 0 && cur.last() == '\r' {
        cur.drop_last()
    } else {
        cur
    }
}

/// Reading `s` left to right: the lines completed so far and the line in
/// progress.
pub open spec fn line_state(s: Seq<char>) -> (Seq<Seq<char>>, Seq<char>)
    decreases s.len(),
{
    if s.len() == 0 {
        (Seq::empty(), Seq::empty())
    } else {
        let (ls, cur) = line_state(s.drop_last());
        if s.last() == '\n' {
            (ls.push(strip_cr(cur)), Seq::empty())
        } else {
            (ls, cur.push(s.last()))
        }
    }
}

/// The lines of `s`, as `str::lines` gives them: split at `\n`, a `\r` just
/// before it dropped, and no empty line after a final `\n`.
pub open spec fn lines(s: Seq<char>) -> Seq<Seq<char>> {
    let (ls, cur) = line_state(s);
    if cur.len() > 0 {
        ls.push(cur)
    } else {
        ls
    }
}

/// Splits `s` into its lines.
pub fn split_lines(s: &Vec<char>) -> (r: Vec<Vec<char>>)
    ensures
        views_of(r@) == lines(s@),
{
    let mut r: Vec<Vec<char>> = Vec::new();
    let mut cur: Vec<char> = Vec::new();
    let mut i: usize = 0;
    while i < s.len()
        invariant
            i <= s@.len(),
            line_state(s@.take(i as int)) == (views_of(r@), cur@),
        decreases s@.len() - i,
    {
        let c = s[i];
        proof {
            assert(s@.take(i + 1).drop_last() == s@.take(i as int));
        }
        if c == '\n' {
            if cur.len() > 0 && cur[cur.len() - 1] == '\r' {
                cur.pop();
            }
            let ghost old_r = r@;
            r.push(cur);
            cur = Vec::new();
            proof {
                assert(views_of(r@) =~= views_of(old_r).push(r@.last()@));
            }
        } else {
            cur.push(c);
        }
        i += 1;
    }
    proof {
        assert(s@.take(i as int) == s@);
    }
    if cur.len() > 0 {
        let ghost old_r = r@;
        r.push(cur);
        proof {
            assert(views_of(r@) =~= views_of(old_r).push(r@.last()@));
        }
    }
    r
}

pub open spec fn all_digits(d: Seq<char>) -> bool {
    forall|k: int| 0 <= k < d.len() ==> is_digit(#[trigger] d[k])
}

/// The length of the sign that `w` starts with: one or none.
pub open spec fn sign_len(w: Seq<char>) -> int {
    if w.len() > 0 && (w[0] == '-' || w[0] == '+') {
        1
    } else {
        0
    }
}

/// The `i32` that `w` writes, as `str::parse::<i32>` reads it: an optional
/// `+` or `-`, then at least one ASCII digit, the value within range.
pub open spec fn parse_i32_spec(w: Seq<char>) -> Option<i32> {
    let neg = w.len() > 0 && w[0] == '-';
    let body = w.subrange(sign_len(w), w.len() as int);
    let v = if neg {
        -decimal(body)
    } else {
        decimal(body)
    };
    if body.len() > 0 && all_digits(body) && i32::MIN <= v <= i32::MAX {
        Some(v as i32)
    } else {
        None
    }
}

/// Reads an `i32` written in decimal, with an optional sign.
pub fn parse_i32(w: &Vec<char>) -> (r: Option<i32>)
    ensures
        r == parse_i32_spec(w@),
{
    let n = w.len();
    let neg = n > 0 && w[0] == '-';
    let start: usize = if n > 0 && (w[0] == '-' || w[0] == '+') {
        1
    } else {
        0
    };
    let ghost body = w@.subrange(start as int, n as int);
    if start == n {
        return None;
    }
    let mut value: u64 = 0;
    let mut i = start;
    while i < n
        invariant
            start <= i <= n == w@.len(),
            body == w@.subrange(start as int, n as int),
            start == sign_len(w@),
            neg == (w@.len() > 0 && w@[0] == '-'),
            value == decimal(body.take(i - start)),
            value <= 2147483648,
            all_digits(body.take(i - start)),
        decreases n - i,
    {
        let c = w[i];
        let ghost pre = body.take(i - start);
        proof {
            assert(body.take(i + 1 - start) == pre.push(c));
            assert(pre.push(c).drop_last() == pre);
        }
        if !is_ascii_digit(c) {
            proof {
                assert(!is_digit(body[i - start]));
                assert(!all_digits(body));
            }
            return None;
        }
        proof {
            lemma_decimal_grows(pre, c);
        }
        value = value * 10 + (c as u64 - '0' as u64);
        i += 1;
        if value > 2147483648 {
            proof {
                assert(value == decimal(body.take(i - start)));
                lemma_decimal_prefix(body, i - start);
                assert(all_digits(body) ==> decimal(body) > 2147483648);
            }
            return None;
        }
    }
    proof {
        assert(body.take(i - start) == body);
    }
    if neg {
        Some((0 - value as i64) as i32)
    } else if value <= 2147483647 {
        Some(value as i32)
    } else {
        None
    }
}

proof fn lemma_decimal_prefix(d: Seq<char>, k: int)
    requires
        0 <= k <= d.len(),
    ensures
        all_digits(d) ==> decimal(d.take(k)) <= decimal(d),
    decreases d.len(),
{
    if all_digits(d) {
        if k < d.len() {
            assert(d.drop_last().take(k) == d.take(k));
            assert(all_digits(d.drop_last()));
            lemma_decimal_prefix(d.drop_last(), k);
            lemma_decimal_grows(d.drop_last(), d.last());
            assert(d.drop_last().push(d.last()) == d);
        } else {
            assert(d.take(k) == d);
        }
    }
}

} // verus!
