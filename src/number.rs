//! Numeric literals: the Fortran `D`-exponent dialect and standard syntax.
use vstd::prelude::*;
use crate::scan::{is_digit, 
    blank_class, copy_range, digit_class, is_sign, is_white, lemma_span_end_bounds,
    lemma_span_end_same_class, lemma_span_end_window, non_white_class, skip_blank, skip_digits,
    skip_non_white, span_end, text_of,
};

verus! {

pub open spec fn opt_int(r: Option<usize>) -> Option<int> {
    match r {
        Some(n) => Some(n as int),
        None => None,
    }
}

/// Position after an optional sign at `p`.
pub open spec fn sign_end(s: Seq<char>, p: int) -> int {
    if 0 <= p < s.len() && is_sign(s[p]) {
        p + 1
    } else {
        p
    }
}

/// End of the `D`-exponent literal that starts at `p`:
/// `[+-]? digits ('.' digits)? 'D' [+-]? digits`.
pub open spec fn sci_d_end(s: Seq<char>, p: int) -> Option<int> {
    let a = sign_end(s, p);
    let b = span_end(s, a, digit_class());
    let c = if b < s.len() && s[b] == '.' && span_end(s, b + 1, digit_class()) > b + 1 {
        span_end(s, b + 1, digit_class())
    } else {
        b
    };
    let d = sign_end(s, c + 1);
    let e = span_end(s, d, digit_class());
    if a < b && c < s.len() && s[c] == 'D' && d < e {
        Some(e)
    } else {
        None
    }
}

/// The literal with its exponent marker `D` written as `E`.
pub open spec fn d_to_e(t: Seq<char>) -> Seq<char> {
    t.map_values(|c: char| if c == 'D' { 'E' } else { c })
}

/// The first `w.len()` characters of `t` from `a` on spell `w`, each in
/// the case of `w` or of `u`.
pub open spec fn spells_at(t: Seq<char>, a: int, w: Seq<char>, u: Seq<char>) -> bool {
    &&& w.len() == u.len()
    &&& 0 <= a
    &&& a + w.len() <= t.len()
    &&& forall|i: int| 0 <= i < w.len() ==> t[a + i] == w[i] || t[a + i] == u[i]
}

/// Length of the standard float literal at the start of `t`, the way nom's
/// float recognizer reads it: `[+-]? (digits ('.' digits?)? | '.' digits)`
/// with an optional exponent `[eE] [+-]? digits` (an `e` without digits
/// rejects the whole literal), or else `nan`, `infinity` or `inf` in any case.
pub open spec fn standard_float_len(t: Seq<char>) -> Option<int> {
    let a = sign_end(t, 0);
    let b = span_end(t, a, digit_class());
    let f = span_end(t, a + 1, digit_class());
    let m: Option<int> = if a < b {
        if b < t.len() && t[b] == '.' {
            Some(span_end(t, b + 1, digit_class()))
        } else {
            Some(b)
        }
    } else if a < t.len() && t[a] == '.' && f > a + 1 {
        Some(f)
    } else {
        None
    };
    match m {
        Some(m) => {
            if m < t.len() && (t[m] == 'e' || t[m] == 'E') {
                let d = sign_end(t, m + 1);
                let e = span_end(t, d, digit_class());
                if d < e {
                    Some(e)
                } else {
                    None
                }
            } else {
                Some(m)
            }
        },
        None => {
            if spells_at(t, 0, seq!['n', 'a', 'n'], seq!['N', 'A', 'N']) {
                Some(3)
            } else if spells_at(
                t,
                0,
                seq!['i', 'n', 'f', 'i', 'n', 'i', 't', 'y'],
                seq!['I', 'N', 'F', 'I', 'N', 'I', 'T', 'Y'],
            ) {
                Some(8)
            } else if spells_at(t, 0, seq!['i', 'n', 'f'], seq!['I', 'N', 'F']) {
                Some(3)
            } else {
                None
            }
        },
    }
}

/// The number at `p` and the position after it: a `D`-exponent literal,
/// rewritten to standard syntax, or else a standard literal. A number holds
/// no white space, so the standard reader sees the token at `p` only.
pub open spec fn number_at(s: Seq<char>, p: int) -> Option<(int, Seq<char>)> {
    match sci_d_end(s, p) {
        Some(e) => Some((e, d_to_e(s.subrange(p, e)))),
        None => {
            let w = s.subrange(p, span_end(s, p, non_white_class()));
            match standard_float_len(w) {
                Some(n) => Some((p + n, w.subrange(0, n))),
                None => None,
            }
        },
    }
}

/// A number with the spaces and tabs around it.
pub open spec fn spaced_number_at(s: Seq<char>, p: int) -> Option<(int, Seq<char>)> {
    match number_at(s, span_end(s, p, blank_class())) {
        Some((e, v)) => Some((span_end(s, e, blank_class()), v)),
        None => None,
    }
}

/// Whether `t`, all of it, is a float literal that `str::parse` accepts:
/// `[+-]? ('inf' | 'infinity' | 'nan' | number)`, letters in any case, where
/// a number is `(digits | digits '.' digits? | '.' digits) ([eE] [+-]? digits)?`.
pub open spec fn is_float_text(t: Seq<char>) -> bool {
    let a = sign_end(t, 0);
    let b = span_end(t, a, digit_class());
    let c = if b < t.len() && t[b] == '.' {
        span_end(t, b + 1, digit_class())
    } else {
        b
    };
    let d = sign_end(t, c + 1);
    let e = span_end(t, d, digit_class());
    ||| (t.len() == a + 3 && spells_at(t, a, seq!['i', 'n', 'f'], seq!['I', 'N', 'F']))
    ||| (t.len() == a + 8 && spells_at(
        t,
        a,
        seq!['i', 'n', 'f', 'i', 'n', 'i', 't', 'y'],
        seq!['I', 'N', 'F', 'I', 'N', 'I', 'T', 'Y'],
    ))
    ||| (t.len() == a + 3 && spells_at(t, a, seq!['n', 'a', 'n'], seq!['N', 'A', 'N']))
    ||| (c > a + 1 || (c == a + 1 && b == a + 1)) && (c == t.len() || (
    (t[c] == 'e' || t[c] == 'E') && d < e && e == t.len()))
}

/// The literal text of zero.
pub open spec fn zero_text() -> Seq<char> {
    seq!['0', '.', '0']
}

/// A token read as a number where a bad token counts as zero.
pub open spec fn float_or_zero(t: Seq<char>) -> Seq<char> {
    if is_float_text(t) {
        t
    } else {
        zero_text()
    }
}

/// A token read as a `D`-exponent literal from its start, or zero.
pub open spec fn sci_d_or_zero(t: Seq<char>) -> Seq<char> {
    match sci_d_end(t, 0) {
        Some(e) => d_to_e(t.subrange(0, e)),
        None => zero_text(),
    }
}

fn sign_after(s: &Vec<char>, p: usize) -> (q: usize)
    requires
        p <= s@.len(),
    ensures
        q == sign_end(s@, p as int),
{
    if p < s.len() && (s[p] == '+' || s[p] == '-') {
        p + 1
    } else {
        p
    }
}

/// End of the `D`-exponent literal at `p`, if one starts there.
pub fn read_sci_d(s: &Vec<char>, p: usize) -> (r: Option<usize>)
    requires
        p <= s@.len(),
    ensures
        opt_int(r) == sci_d_end(s@, p as int),
        r matches Some(e) ==> p < e <= s@.len(),
{
    let a = sign_after(s, p);
    let b = skip_digits(s, a);
    proof {
        lemma_span_end_bounds(s@, a as int, digit_class());
    }
    let mut c = b;
    if b < s.len() && s[b] == '.' {
        let f = skip_digits(s, b + 1);
        if f > b + 1 {
            c = f;
        }
    }
    if a < b && c < s.len() && s[c] == 'D' {
        let d = sign_after(s, c + 1);
        let e = skip_digits(s, d);
        proof {
            lemma_span_end_bounds(s@, d as int, digit_class());
        }
        if d < e {
            return Some(e);
        }
    }
    None
}

/// The characters between `a` and `b` with `D` written as `E`.
pub fn d_to_e_text(s: &Vec<char>, a: usize, b: usize) -> (r: String)
    requires
        a <= b <= s@.len(),
    ensures
        r@ == d_to_e(s@.subrange(a as int, b as int)),
{
    let mut v: Vec<char> = Vec::new();
    let mut i = a;
    while i < b
        invariant
            a <= i <= b <= s@.len(),
            v@ == d_to_e(s@.subrange(a as int, i as int)),
        decreases b - i,
    {
        let c = s[i];
        v.push(if c == 'D' { 'E' } else { c });
        proof {
            assert(s@.subrange(a as int, i + 1) == s@.subrange(a as int, i as int).push(c));
        }
        i = i + 1;
        assert(v@ =~= d_to_e(s@.subrange(a as int, i as int)));
    }
    text_of(v.as_slice())
}

/// Relies on nom's `recognize_float_or_exceptions`, the recognizer behind
/// `nom::number::complete::double`: how many characters of `t` it takes.
#[verifier::external_body]
fn standard_float_prefix(t: &[char]) -> (r: Option<usize>)
    ensures
        opt_int(r) == standard_float_len(t@),
{
    let text: String = t.iter().collect();
    match nom::number::complete::recognize_float_or_exceptions::<&str, nom::error::Error<&str>>(
        text.as_str(),
    ) {
        Ok((_, m)) => Some(m.chars().count()),
        Err(_) => None,
    }
}


pub proof fn lemma_standard_float_len_bounds(t: Seq<char>)
    ensures
        standard_float_len(t) matches Some(n) ==> 0 < n <= t.len(),
{
    let a = sign_end(t, 0);
    lemma_span_end_bounds(t, a, digit_class());
    let b = span_end(t, a, digit_class());
    if a < t.len() {
        lemma_span_end_bounds(t, a + 1, digit_class());
    }
    if b < t.len() {
        lemma_span_end_bounds(t, b + 1, digit_class());
        let m = span_end(t, b + 1, digit_class());
        if m < t.len() {
            lemma_span_end_bounds(t, sign_end(t, m + 1), digit_class());
        }
    }
    if b < t.len() {
        lemma_span_end_bounds(t, sign_end(t, b + 1), digit_class());
    }
    let f = span_end(t, a + 1, digit_class());
    if a < t.len() && f < t.len() {
        lemma_span_end_bounds(t, sign_end(t, f + 1), digit_class());
    }
}

/// A whole `D`-exponent literal reads as the same text with `E` in place of
/// `D`, and that text is a standard literal: nom's reader takes all of it and
/// `str::parse` accepts it.
pub proof fn lemma_d_literal_reads_as_standard(t: Seq<char>)
    requires
        sci_d_end(t, 0) == Some(t.len() as int),
    ensures
        number_at(t, 0) == Some((t.len() as int, d_to_e(t))),
        standard_float_len(d_to_e(t)) == Some(t.len() as int),
        is_float_text(d_to_e(t)),
{
    let u = d_to_e(t);
    assert(t.subrange(0, t.len() as int) =~= t);
    assert(u.len() == t.len());
    assert forall|i: int| 0 <= i < t.len() implies digit_class()(u[i]) == digit_class()(t[i])
        && is_sign(u[i]) == is_sign(t[i]) && (u[i] == '.') == (t[i] == '.') && (t[i] == 'D'
        ==> u[i] == 'E') by {}
    let a = sign_end(t, 0);
    assert(sign_end(u, 0) == a);
    lemma_span_end_bounds(t, a, digit_class());
    lemma_span_end_same_class(u, t, a, digit_class());
    let b = span_end(t, a, digit_class());
    if b < t.len() {
        lemma_span_end_bounds(t, b + 1, digit_class());
        lemma_span_end_same_class(u, t, b + 1, digit_class());
    }
    let c = if b < t.len() && t[b] == '.' && span_end(t, b + 1, digit_class()) > b + 1 {
        span_end(t, b + 1, digit_class())
    } else {
        b
    };
    assert(c < t.len() && t[c] == 'D');
    let d = sign_end(t, c + 1);
    assert(sign_end(u, c + 1) == d);
    lemma_span_end_bounds(t, d, digit_class());
    lemma_span_end_same_class(u, t, d, digit_class());
}

/// A whole `D`-exponent literal followed by text that does not start with a
/// digit is read exactly: the reader takes the literal, gives it with `E` in
/// place of `D`, and leaves the text after it unread; that `E` form is a
/// standard literal that nom's reader takes whole and `str::parse` accepts.
pub proof fn lemma_d_literal_with_rest(t: Seq<char>, rest: Seq<char>)
    requires
        sci_d_end(t, 0) == Some(t.len() as int),
        rest.len() == 0 || !is_digit(rest[0]),
    ensures
        sci_d_end(t + rest, 0) == Some(t.len() as int),
        number_at(t + rest, 0) == Some((t.len() as int, d_to_e(t))),
        standard_float_len(d_to_e(t)) == Some(t.len() as int),
        is_float_text(d_to_e(t)),
{
    lemma_d_literal_reads_as_standard(t);
    let s = t + rest;
    let hi = t.len() as int;
    assert(s.subrange(0, hi) =~= t);
    let a = sign_end(t, 0);
    assert(sign_end(s, 0) == a);
    lemma_span_end_bounds(t, a, digit_class());
    lemma_span_end_window(s, 0, hi, a, digit_class());
    lemma_span_end_bounds(s, a, digit_class());
    let b = span_end(t, a, digit_class());
    if b + 1 <= hi {
        lemma_span_end_bounds(t, b + 1, digit_class());
        lemma_span_end_window(s, 0, hi, b + 1, digit_class());
        lemma_span_end_bounds(s, b + 1, digit_class());
    }
    let c = if b < t.len() && t[b] == '.' && span_end(t, b + 1, digit_class()) > b + 1 {
        span_end(t, b + 1, digit_class())
    } else {
        b
    };
    let d = sign_end(t, c + 1);
    assert(sign_end(s, c + 1) == d);
    lemma_span_end_bounds(t, d, digit_class());
    lemma_span_end_window(s, 0, hi, d, digit_class());
    lemma_span_end_bounds(s, d, digit_class());
    if span_end(s, d, digit_class()) > hi {
        assert(digit_class()(s[hi]));
        assert(s[hi] == rest[0]);
    }
    assert(s.subrange(0, hi) =~= t);
}

pub proof fn lemma_sci_d_end_bounds(s: Seq<char>, p: int)
    requires
        0 <= p <= s.len(),
    ensures
        sci_d_end(s, p) matches Some(e) ==> p < e <= s.len(),
{
    let a = sign_end(s, p);
    lemma_span_end_bounds(s, a, digit_class());
    let b = span_end(s, a, digit_class());
    if b < s.len() {
        lemma_span_end_bounds(s, b + 1, digit_class());
    }
    let c = if b < s.len() && s[b] == '.' && span_end(s, b + 1, digit_class()) > b + 1 {
        span_end(s, b + 1, digit_class())
    } else {
        b
    };
    if c < s.len() {
        lemma_span_end_bounds(s, sign_end(s, c + 1), digit_class());
    }
}

pub proof fn lemma_number_at_bounds(s: Seq<char>, p: int)
    requires
        0 <= p <= s.len(),
    ensures
        number_at(s, p) matches Some((e, _)) ==> p < e <= s.len(),
{
    lemma_sci_d_end_bounds(s, p);
    lemma_span_end_bounds(s, p, non_white_class());
    lemma_standard_float_len_bounds(s.subrange(p, span_end(s, p, non_white_class())));
}

/// A whole `D`-exponent literal has no white space in it.
proof fn lemma_d_literal_not_white(t: Seq<char>)
    requires
        sci_d_end(t, 0) == Some(t.len() as int),
    ensures
        forall|i: int| 0 <= i < t.len() ==> !is_white(t[i]),
{
    let a = sign_end(t, 0);
    lemma_span_end_bounds(t, a, digit_class());
    let b = span_end(t, a, digit_class());
    if b < t.len() {
        lemma_span_end_bounds(t, b + 1, digit_class());
    }
    let c = if b < t.len() && t[b] == '.' && span_end(t, b + 1, digit_class()) > b + 1 {
        span_end(t, b + 1, digit_class())
    } else {
        b
    };
    let d = sign_end(t, c + 1);
    lemma_span_end_bounds(t, d, digit_class());
    assert forall|i: int| 0 <= i < t.len() implies !is_white(t[i]) by {
        if i < a {
        } else if i < b {
            assert(digit_class()(t[i]));
        } else if i < c {
            if i > b {
                assert(digit_class()(t[i]));
            }
        } else if i < d {
        } else {
            assert(digit_class()(t[i]));
        }
    }
}

/// The `D`-exponent literal at `p`, cut out of `s`, is a whole literal.
proof fn lemma_sci_d_cut(s: Seq<char>, p: int)
    requires
        0 <= p <= s.len(),
        sci_d_end(s, p) is Some,
    ensures
        sci_d_end(s.subrange(p, sci_d_end(s, p)->0), 0) == Some(sci_d_end(s, p)->0 - p),
{
    lemma_sci_d_end_bounds(s, p);
    let e = sci_d_end(s, p)->0;
    let t = s.subrange(p, e);
    let a = sign_end(s, p);
    lemma_span_end_bounds(s, a, digit_class());
    lemma_span_end_window(s, p, e, a, digit_class());
    let b = span_end(s, a, digit_class());
    if b < s.len() {
        lemma_span_end_bounds(s, b + 1, digit_class());
    }
    if b + 1 <= e {
        lemma_span_end_window(s, p, e, b + 1, digit_class());
    }
    let c = if b < s.len() && s[b] == '.' && span_end(s, b + 1, digit_class()) > b + 1 {
        span_end(s, b + 1, digit_class())
    } else {
        b
    };
    let d = sign_end(s, c + 1);
    lemma_span_end_bounds(s, d, digit_class());
    lemma_span_end_window(s, p, e, d, digit_class());
    assert(sign_end(t, 0) == a - p);
    assert(sign_end(t, c + 1 - p) == d - p);
}

/// The `E` form of a whole `D`-exponent literal reads back whole.
proof fn lemma_d_text_rereads(lit: Seq<char>)
    requires
        sci_d_end(lit, 0) == Some(lit.len() as int),
    ensures
        number_at(d_to_e(lit), 0) == Some((lit.len() as int, d_to_e(lit))),
{
    let x = d_to_e(lit);
    lemma_d_literal_reads_as_standard(lit);
    lemma_d_literal_not_white(lit);
    let a = sign_end(lit, 0);
    assert(sign_end(x, 0) == a);
    assert forall|i: int| 0 <= i < lit.len() implies digit_class()(x[i]) == digit_class()(lit[i])
        && !is_white(x[i]) && (x[i] == '.') == (lit[i] == '.') && x[i] != 'D' by {}
    lemma_span_end_same_class(x, lit, a, digit_class());
    let b = span_end(lit, a, digit_class());
    lemma_span_end_bounds(lit, a, digit_class());
    if b < lit.len() {
        lemma_span_end_same_class(x, lit, b + 1, digit_class());
        lemma_span_end_bounds(lit, b + 1, digit_class());
    }
    assert(sci_d_end(x, 0) is None);
    lemma_span_end_bounds(x, 0, non_white_class());
    assert(x.subrange(0, x.len() as int) =~= x);
}

/// Cutting a standard literal out of its text leaves it readable whole.
proof fn lemma_standard_float_cut(w: Seq<char>, n: int)
    requires
        standard_float_len(w) == Some(n),
    ensures
        standard_float_len(w.subrange(0, n)) == Some(n),
{
    lemma_standard_float_len_bounds(w);
    let x = w.subrange(0, n);
    let a = sign_end(w, 0);
    assert(sign_end(x, 0) == a);
    lemma_span_end_bounds(w, a, digit_class());
    lemma_span_end_window(w, 0, n, a, digit_class());
    let b = span_end(w, a, digit_class());
    if a + 1 <= n {
        lemma_span_end_window(w, 0, n, a + 1, digit_class());
    }
    if a + 1 <= w.len() {
        lemma_span_end_bounds(w, a + 1, digit_class());
    }
    if a < b {
        if b < w.len() && w[b] == '.' {
            lemma_span_end_bounds(w, b + 1, digit_class());
            lemma_span_end_window(w, 0, n, b + 1, digit_class());
            let m = span_end(w, b + 1, digit_class());
            if m < w.len() && (w[m] == 'e' || w[m] == 'E') {
                let d = sign_end(w, m + 1);
                lemma_span_end_bounds(w, d, digit_class());
                lemma_span_end_window(w, 0, n, d, digit_class());
                assert(sign_end(x, m + 1) == d);
            }
        } else {
            if b < w.len() && (w[b] == 'e' || w[b] == 'E') {
                let d = sign_end(w, b + 1);
                lemma_span_end_bounds(w, d, digit_class());
                lemma_span_end_window(w, 0, n, d, digit_class());
                assert(sign_end(x, b + 1) == d);
            }
        }
    } else if a < w.len() && w[a] == '.' && span_end(w, a + 1, digit_class()) > a + 1 {
        let m = span_end(w, a + 1, digit_class());
        if m < w.len() && (w[m] == 'e' || w[m] == 'E') {
            let d = sign_end(w, m + 1);
            lemma_span_end_bounds(w, d, digit_class());
            lemma_span_end_window(w, 0, n, d, digit_class());
            assert(sign_end(x, m + 1) == d);
        }
    } else {
        assert(spells_at(x, 0, seq!['n', 'a', 'n'], seq!['N', 'A', 'N']) == spells_at(
            w,
            0,
            seq!['n', 'a', 'n'],
            seq!['N', 'A', 'N'],
        ));
        if !spells_at(w, 0, seq!['n', 'a', 'n'], seq!['N', 'A', 'N']) {
            let long_l = seq!['i', 'n', 'f', 'i', 'n', 'i', 't', 'y'];
            let long_u = seq!['I', 'N', 'F', 'I', 'N', 'I', 'T', 'Y'];
            if spells_at(w, 0, long_l, long_u) {
                assert(spells_at(x, 0, long_l, long_u));
            } else {
                assert(!spells_at(x, 0, long_l, long_u)) by {
                    if spells_at(x, 0, long_l, long_u) {
                        assert(spells_at(w, 0, long_l, long_u));
                    }
                }
            }
        }
    }
}

/// No `D`-exponent literal starts at `p` within a cut of `s` where none
/// starts at `p` in `s`.
proof fn lemma_sci_d_absent_in_cut(s: Seq<char>, p: int, n: int)
    requires
        0 <= p <= p + n <= s.len(),
        sci_d_end(s, p) is None,
    ensures
        sci_d_end(s.subrange(p, p + n), 0) is None,
{
    let x = s.subrange(p, p + n);
    let a = sign_end(s, p);
    if a > p + n {
        return;
    }
    assert(a <= p + n ==> (sign_end(x, 0) == a - p || n == 0));
    if n == 0 {
        return;
    }
    assert(sign_end(x, 0) == a - p);
    lemma_span_end_bounds(s, a, digit_class());
    lemma_span_end_window(s, p, p + n, a, digit_class());
    let b = span_end(s, a, digit_class());
    if b + 1 <= p + n {
        lemma_span_end_bounds(s, b + 1, digit_class());
        lemma_span_end_window(s, p, p + n, b + 1, digit_class());
        let f = span_end(s, b + 1, digit_class());
        let c = if s[b] == '.' && f > b + 1 {
            f
        } else {
            b
        };
        if c + 1 <= p + n {
            let d = sign_end(s, c + 1);
            if d <= p + n {
                assert(sign_end(x, c + 1 - p) == d - p);
                lemma_span_end_bounds(s, d, digit_class());
                lemma_span_end_window(s, p, p + n, d, digit_class());
            }
        }
    }
}

/// The text of a number, read again on its own, is read whole and unchanged.
pub proof fn lemma_number_text_rereads(s: Seq<char>, p: int)
    requires
        0 <= p <= s.len(),
    ensures
        number_at(s, p) matches Some((_, x)) ==> number_at(x, 0) == Some((x.len() as int, x)),
{
    lemma_number_at_bounds(s, p);
    if number_at(s, p) is None {
        return;
    }
    let pr = number_at(s, p)->0;
    let x = pr.1;
    match sci_d_end(s, p) {
        Some(e) => {
            lemma_sci_d_cut(s, p);
            lemma_d_text_rereads(s.subrange(p, e));
        },
        None => {
            let q = span_end(s, p, non_white_class());
            lemma_span_end_bounds(s, p, non_white_class());
            let w = s.subrange(p, q);
            lemma_standard_float_len_bounds(w);
            let n = standard_float_len(w)->0;
            assert(x == w.subrange(0, n));
            assert(x =~= s.subrange(p, p + n));
            lemma_span_end_bounds(x, 0, non_white_class());
            assert(x.subrange(0, x.len() as int) =~= x);
            lemma_standard_float_cut(w, n);
            lemma_sci_d_absent_in_cut(s, p, n);
        },
    }
}

/// The number at `p` and the position after it.
pub fn read_number(s: &Vec<char>, p: usize) -> (r: Option<(usize, String)>)
    requires
        p <= s@.len(),
    ensures
        r is Some <==> number_at(s@, p as int) is Some,
        r matches Some((q, t)) ==> number_at(s@, p as int) == Some((q as int, t@)) && p < q
            <= s@.len(),
{
    match read_sci_d(s, p) {
        Some(e) => Some((e, d_to_e_text(s, p, e))),
        None => {
            let q = skip_non_white(s, p);
            proof {
                lemma_span_end_bounds(s@, p as int, non_white_class());
            }
            let w = copy_range(s, p, q);
            match standard_float_prefix(w.as_slice()) {
                Some(n) => {
                    proof {
                        lemma_standard_float_len_bounds(w@);
                    }
                    let lit = copy_range(&w, 0, n);
                    Some((p + n, text_of(lit.as_slice())))
                },
                None => None,
            }
        },
    }
}

/// A number with the spaces and tabs around it.
pub fn read_spaced_number(s: &Vec<char>, p: usize) -> (r: Option<(usize, String)>)
    requires
        p <= s@.len(),
    ensures
        r is Some <==> spaced_number_at(s@, p as int) is Some,
        r matches Some((q, t)) ==> spaced_number_at(s@, p as int) == Some((q as int, t@)) && p
            < q <= s@.len(),
{
    let a = skip_blank(s, p);
    proof {
        lemma_span_end_bounds(s@, p as int, blank_class());
    }
    match read_number(s, a) {
        Some((e, v)) => {
            let q = skip_blank(s, e);
            proof {
                lemma_span_end_bounds(s@, e as int, blank_class());
            }
            Some((q, v))
        },
        None => None,
    }
}

fn spells(t: &Vec<char>, a: usize, w: &Vec<char>, u: &Vec<char>) -> (r: bool)
    requires
        w@.len() == u@.len(),
    ensures
        r == spells_at(t@, a as int, w@, u@),
{
    if a > t.len() || t.len() - a < w.len() {
        return false;
    }
    let mut i: usize = 0;
    while i < w.len()
        invariant
            a + w@.len() <= t@.len() <= usize::MAX,
            w@.len() == u@.len(),
            i <= w@.len(),
            forall|j: int| 0 <= j < i ==> t@[a + j] == w@[j] || t@[a + j] == u@[j],
        decreases w@.len() - i,
    {
        if t[a + i] != w[i] && t[a + i] != u[i] {
            return false;
        }
        i = i + 1;
    }
    true
}

/// Whether all of `t` is a float literal that `str::parse` accepts.
pub fn is_float_token(t: &Vec<char>) -> (r: bool)
    ensures
        r == is_float_text(t@),
{
    let a = sign_after(t, 0);
    if t.len() == a + 3 && spells(t, a, &vec!['i', 'n', 'f'], &vec!['I', 'N', 'F']) {
        return true;
    }
    if t.len() == a + 8 && spells(
        t,
        a,
        &vec!['i', 'n', 'f', 'i', 'n', 'i', 't', 'y'],
        &vec!['I', 'N', 'F', 'I', 'N', 'I', 'T', 'Y'],
    ) {
        return true;
    }
    if t.len() == a + 3 && spells(t, a, &vec!['n', 'a', 'n'], &vec!['N', 'A', 'N']) {
        return true;
    }
    let b = skip_digits(t, a);
    proof {
        lemma_span_end_bounds(t@, a as int, digit_class());
    }
    let mut c = b;
    if b < t.len() && t[b] == '.' {
        c = skip_digits(t, b + 1);
        proof {
            lemma_span_end_bounds(t@, b + 1, digit_class());
        }
    }
    if !(c > a + 1 || (c == a + 1 && b == a + 1)) {
        return false;
    }
    if c == t.len() {
        return true;
    }
    if t[c] == 'e' || t[c] == 'E' {
        let d = sign_after(t, c + 1);
        let e = skip_digits(t, d);
        d < e && e == t.len()
    } else {
        false
    }
}

} // verus!
