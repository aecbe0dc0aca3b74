//! Character classes and scanning over a sequence of characters.
use vstd::prelude::*;

verus! {

/// Horizontal white space: a space or a tab.
pub open spec fn is_blank(c: char) -> bool {
    c == ' ' || c == '\t'
}

/// Space, tab, carriage return or line feed.
pub open spec fn is_line_space(c: char) -> bool {
    c == ' ' || c == '\t' || c == '\n' || c == '\r'
}

/// The characters with the Unicode `White_Space` property.
pub open spec fn is_white(c: char) -> bool {
    ('\t' <= c && c <= '\r') || c == ' ' || c == '\u{85}' || c == '\u{a0}' || c == '\u{1680}'
        || ('\u{2000}' <= c && c <= '\u{200a}') || c == '\u{2028}' || c == '\u{2029}'
        || c == '\u{202f}' || c == '\u{205f}' || c == '\u{3000}'
}

pub open spec fn is_digit(c: char) -> bool {
    '0' <= c && c <= '9'
}

pub open spec fn is_sign(c: char) -> bool {
    c == '+' || c == '-'
}

pub open spec fn blank_class() -> spec_fn(char) -> bool {
    |c: char| is_blank(c)
}

pub open spec fn line_space_class() -> spec_fn(char) -> bool {
    |c: char| is_line_space(c)
}

pub open spec fn white_class() -> spec_fn(char) -> bool {
    |c: char| is_white(c)
}

pub open spec fn non_white_class() -> spec_fn(char) -> bool {
    |c: char| !is_white(c)
}

pub open spec fn digit_class() -> spec_fn(char) -> bool {
    |c: char| is_digit(c)
}

/// End of the longest run of characters of class `f` that starts at `p`.
pub open spec fn span_end(s: Seq<char>, p: int, f: spec_fn(char) -> bool) -> int
    decreases s.len() - p,
{
    if 0 <= p < s.len() && f(s[p]) {
        span_end(s, p + 1, f)
    } else {
        p
    }
}

/// First position at or after `p` that holds `c`, or the length if none does.
pub open spec fn find_char(s: Seq<char>, p: int, c: char) -> int
    decreases s.len() - p,
{
    if 0 <= p < s.len() && s[p] != c {
        find_char(s, p + 1, c)
    } else {
        p
    }
}

/// Start of the white space that ends at `e`.
pub open spec fn white_tail_start(s: Seq<char>, e: int) -> int
    decreases e,
{
    if 0 < e <= s.len() && is_white(s[e - 1]) {
        white_tail_start(s, e - 1)
    } else {
        e
    }
}

/// `t` without leading and trailing white space.
pub open spec fn trim(t: Seq<char>) -> Seq<char> {
    let a = span_end(t, 0, white_class());
    let b = white_tail_start(t, t.len() as int);
    if a < b {
        t.subrange(a, b)
    } else {
        Seq::empty()
    }
}

/// The maximal runs of non-white characters of `t` from `p` on, in order.
pub open spec fn tokens_from(t: Seq<char>, p: int) -> Seq<Seq<char>>
    decreases t.len() - p,
{
    let a = span_end(t, p, white_class());
    let b = span_end(t, a, non_white_class());
    if 0 <= p && p < a + 1 && a < b && b <= t.len() {
        seq![t.subrange(a, b)].add(tokens_from(t, b))
    } else {
        Seq::empty()
    }
}

pub open spec fn tokens(t: Seq<char>) -> Seq<Seq<char>> {
    tokens_from(t, 0)
}

pub proof fn lemma_span_end_bounds(s: Seq<char>, p: int, f: spec_fn(char) -> bool)
    requires
        0 <= p <= s.len(),
    ensures
        p <= span_end(s, p, f) <= s.len(),
        forall|i: int| p <= i < span_end(s, p, f) ==> f(s[i]),
        span_end(s, p, f) < s.len() ==> !f(s[span_end(s, p, f)]),
    decreases s.len() - p,
{
    if p < s.len() && f(s[p]) {
        lemma_span_end_bounds(s, p + 1, f);
    }
}

pub proof fn lemma_find_char_bounds(s: Seq<char>, p: int, c: char)
    requires
        0 <= p <= s.len(),
    ensures
        p <= find_char(s, p, c) <= s.len(),
        forall|i: int| p <= i < find_char(s, p, c) ==> s[i] != c,
        find_char(s, p, c) < s.len() ==> s[find_char(s, p, c)] == c,
    decreases s.len() - p,
{
    if p < s.len() && s[p] != c {
        lemma_find_char_bounds(s, p + 1, c);
    }
}

/// Two sequences of one length whose characters agree on class `f` from `p`
/// on have the same runs of that class.
pub proof fn lemma_span_end_same_class(u: Seq<char>, t: Seq<char>, p: int, f: spec_fn(char) -> bool)
    requires
        u.len() == t.len(),
        0 <= p <= t.len(),
        forall|i: int| p <= i < t.len() ==> f(u[i]) == f(t[i]),
    ensures
        span_end(u, p, f) == span_end(t, p, f),
    decreases t.len() - p,
{
    if p < t.len() && f(t[p]) {
        lemma_span_end_same_class(u, t, p + 1, f);
    }
}

/// A run in a window of `s` is the run in `s`, cut at the window's end.
pub proof fn lemma_span_end_window(s: Seq<char>, lo: int, hi: int, q: int, f: spec_fn(char) -> bool)
    requires
        0 <= lo <= q <= hi <= s.len(),
    ensures
        span_end(s.subrange(lo, hi), q - lo, f) + lo == if span_end(s, q, f) < hi {
            span_end(s, q, f)
        } else {
            hi
        },
    decreases hi - q,
{
    lemma_span_end_bounds(s, q, f);
    if q < hi && f(s[q]) {
        lemma_span_end_window(s, lo, hi, q + 1, f);
    }
}

pub fn is_blank_char(c: char) -> (r: bool)
    ensures
        r == is_blank(c),
{
    c == ' ' || c == '\t'
}

pub fn is_white_char(c: char) -> (r: bool)
    ensures
        r == is_white(c),
{
    ('\t' <= c && c <= '\r') || c == ' ' || c == '\u{85}' || c == '\u{a0}' || c == '\u{1680}'
        || ('\u{2000}' <= c && c <= '\u{200a}') || c == '\u{2028}' || c == '\u{2029}'
        || c == '\u{202f}' || c == '\u{205f}' || c == '\u{3000}'
}

pub fn is_digit_char(c: char) -> (r: bool)
    ensures
        r == is_digit(c),
{
    '0' <= c && c <= '9'
}

/// Skips spaces and tabs.
pub fn skip_blank(s: &Vec<char>, p: usize) -> (q: usize)
    requires
        p <= s@.len(),
    ensures
        q == span_end(s@, p as int, blank_class()),
{
    let mut i = p;
    while i < s.len() && is_blank_char(s[i])
        invariant
            p <= i <= s@.len(),
            span_end(s@, p as int, blank_class()) == span_end(s@, i as int, blank_class()),
        decreases s@.len() - i,
    {
        i = i + 1;
    }
    i
}

/// Skips spaces, tabs, carriage returns and line feeds.
pub fn skip_line_space(s: &Vec<char>, p: usize) -> (q: usize)
    requires
        p <= s@.len(),
    ensures
        q == span_end(s@, p as int, line_space_class()),
{
    let mut i = p;
    while i < s.len() && (s[i] == ' ' || s[i] == '\t' || s[i] == '\n' || s[i] == '\r')
        invariant
            p <= i <= s@.len(),
            span_end(s@, p as int, line_space_class()) == span_end(
                s@,
                i as int,
                line_space_class(),
            ),
        decreases s@.len() - i,
    {
        i = i + 1;
    }
    i
}

/// Skips white space.
pub fn skip_white(s: &Vec<char>, p: usize) -> (q: usize)
    requires
        p <= s@.len(),
    ensures
        q == span_end(s@, p as int, white_class()),
{
    let mut i = p;
    while i < s.len() && is_white_char(s[i])
        invariant
            p <= i <= s@.len(),
            span_end(s@, p as int, white_class()) == span_end(s@, i as int, white_class()),
        decreases s@.len() - i,
    {
        i = i + 1;
    }
    i
}

/// Skips everything but white space.
pub fn skip_non_white(s: &Vec<char>, p: usize) -> (q: usize)
    requires
        p <= s@.len(),
    ensures
        q == span_end(s@, p as int, non_white_class()),
{
    let mut i = p;
    while i < s.len() && !is_white_char(s[i])
        invariant
            p <= i <= s@.len(),
            span_end(s@, p as int, non_white_class()) == span_end(
                s@,
                i as int,
                non_white_class(),
            ),
        decreases s@.len() - i,
    {
        i = i + 1;
    }
    i
}

/// Skips decimal digits.
pub fn skip_digits(s: &Vec<char>, p: usize) -> (q: usize)
    requires
        p <= s@.len(),
    ensures
        q == span_end(s@, p as int, digit_class()),
{
    let mut i = p;
    while i < s.len() && is_digit_char(s[i])
        invariant
            p <= i <= s@.len(),
            span_end(s@, p as int, digit_class()) == span_end(s@, i as int, digit_class()),
        decreases s@.len() - i,
    {
        i = i + 1;
    }
    i
}

/// Position of the first `c` at or after `p`, or the length if there is none.
pub fn find(s: &Vec<char>, p: usize, c: char) -> (q: usize)
    requires
        p <= s@.len(),
    ensures
        q == find_char(s@, p as int, c),
{
    let mut i = p;
    while i < s.len() && s[i] != c
        invariant
            p <= i <= s@.len(),
            find_char(s@, p as int, c) == find_char(s@, i as int, c),
        decreases s@.len() - i,
    {
        i = i + 1;
    }
    i
}

/// Copies the characters between `a` and `b`.
pub fn copy_range(s: &Vec<char>, a: usize, b: usize) -> (r: Vec<char>)
    requires
        a <= b <= s@.len(),
    ensures
        r@ == s@.subrange(a as int, b as int),
{
    let mut r: Vec<char> = Vec::new();
    let mut i = a;
    while i < b
        invariant
            a <= i <= b <= s@.len(),
            r@ == s@.subrange(a as int, i as int),
        decreases b - i,
    {
        r.push(s[i]);
        i = i + 1;
    }
    r
}

/// Relies on `str::chars`, collected: the characters of `s` in order.
#[verifier::external_body]
pub(crate) fn chars_of(s: &str) -> (r: Vec<char>)
    ensures
        r@ == s@,
{
    s.chars().collect()
}

/// Relies on `String`'s `FromIterator<&char>`: the string of the characters of `c`.
#[verifier::external_body]
pub(crate) fn text_of(c: &[char]) -> (r: String)
    ensures
        r@ == c@,
{
    c.iter().collect()
}

} // verus!
