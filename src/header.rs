//! The `thermo` marker line, the four breakpoints and the date stamp.
use vstd::prelude::*;
use crate::model::{header_ok, ErrorKind, HeaderModel, ParseError, ThermoHeader, fail, texts};
use crate::number::{
    lemma_number_at_bounds, lemma_number_text_rereads, number_at, read_spaced_number,
    spaced_number_at, spells_at,
};
use crate::scan::{
    blank_class, copy_range, find, find_char, is_white_char, lemma_find_char_bounds,
    lemma_span_end_bounds, line_space_class, skip_blank, skip_line_space, skip_white, span_end,
    text_of, trim, white_class, white_tail_start,
};

verus! {

pub open spec fn marker() -> Seq<char> {
    seq!['t', 'h', 'e', 'r', 'm', 'o']
}

/// `k` spaced numbers from `p` on: the position after them and their texts,
/// or the position where one is missing.
pub open spec fn numbers_at(s: Seq<char>, p: int, k: nat) -> Result<(int, Seq<Seq<char>>), int>
    decreases k,
{
    if k == 0 {
        Ok((p, Seq::empty()))
    } else {
        match spaced_number_at(s, p) {
            None => Err(p),
            Some((q, t)) => match numbers_at(s, q, (k - 1) as nat) {
                Ok((e, ts)) => Ok((e, seq![t].add(ts))),
                Err(x) => Err(x),
            },
        }
    }
}

/// The header at `p`: the marker, line space, four spaced numbers, and the
/// rest of the line, trimmed, as the date; the line feed is consumed.
pub open spec fn header_at(s: Seq<char>, p: int) -> Result<(int, HeaderModel), ParseError> {
    if !spells_at(s, p, marker(), marker()) {
        Err(fail(ErrorKind::Marker, p))
    } else {
        match numbers_at(s, span_end(s, p + 6, line_space_class()), 4) {
            Err(x) => Err(fail(ErrorKind::Number, x)),
            Ok((q, ts)) => {
                let d = span_end(s, q, blank_class());
                let nl = find_char(s, d, '\n');
                if nl < s.len() {
                    Ok((nl + 1, HeaderModel { temp_ranges: ts, date: trim(s.subrange(d, nl)) }))
                } else {
                    Err(fail(ErrorKind::LineEnd, d))
                }
            },
        }
    }
}

proof fn lemma_numbers_reread(s: Seq<char>, p: int, k: nat)
    requires
        0 <= p <= s.len(),
    ensures
        numbers_at(s, p, k) matches Ok((_, ts)) ==> ts.len() == k && forall|i: int|
            0 <= i < ts.len() ==> number_at(#[trigger] ts[i], 0) == Some((ts[i].len() as int, ts[i])),
    decreases k,
{
    if k > 0 {
        let a = span_end(s, p, blank_class());
        lemma_span_end_bounds(s, p, blank_class());
        lemma_number_at_bounds(s, a);
        lemma_number_text_rereads(s, a);
        if let Some((e, t)) = number_at(s, a) {
            lemma_span_end_bounds(s, e, blank_class());
            let q = span_end(s, e, blank_class());
            lemma_numbers_reread(s, q, (k - 1) as nat);
            if let Ok((_, ts)) = numbers_at(s, q, (k - 1) as nat) {
                let all = seq![t].add(ts);
                assert forall|i: int| 0 <= i < all.len() implies number_at(#[trigger] all[i], 0)
                    == Some((all[i].len() as int, all[i])) by {
                    if i > 0 {
                        assert(all[i] == ts[i - 1]);
                    }
                }
            }
        }
    }
}

/// Each of the four breakpoints of a parsed header, read again from its own
/// text, is read whole and gives back the same text: the numbers survive
/// being written out and read again.
pub proof fn lemma_header_numbers_reread(s: Seq<char>, p: int)
    requires
        0 <= p <= s.len(),
    ensures
        header_at(s, p) matches Ok((_, h)) ==> h.temp_ranges.len() == 4 && forall|i: int|
            0 <= i < 4 ==> number_at(#[trigger] h.temp_ranges[i], 0) == Some(
                (h.temp_ranges[i].len() as int, h.temp_ranges[i]),
            ),
{
    if spells_at(s, p, marker(), marker()) {
        lemma_span_end_bounds(s, p + 6, line_space_class());
        lemma_numbers_reread(s, span_end(s, p + 6, line_space_class()), 4);
    }
}

proof fn lemma_numbers_len(s: Seq<char>, p: int, k: nat)
    ensures
        numbers_at(s, p, k) matches Ok((_, ts)) ==> ts.len() == k,
    decreases k,
{
    if k > 0 {
        if let Some((q, _)) = spaced_number_at(s, p) {
            lemma_numbers_len(s, q, (k - 1) as nat);
        }
    }
}

/// A parsed header holds four breakpoints.
pub proof fn lemma_header_ok(s: Seq<char>, p: int)
    ensures
        header_at(s, p) matches Ok((_, h)) ==> header_ok(h),
{
    lemma_numbers_len(s, span_end(s, p + 6, line_space_class()), 4);
}

pub fn read_numbers(s: &Vec<char>, p: usize, k: usize) -> (r: Result<(usize, Vec<String>), usize>)
    requires
        p <= s@.len(),
    ensures
        match numbers_at(s@, p as int, k as nat) {
            Ok((e, ts)) => r matches Ok((q, v)) && q == e && texts(v@) == ts && p <= q
                <= s@.len(),
            Err(x) => r == Err::<(usize, Vec<String>), usize>(x as usize),
        },
    decreases k,
{
    if k == 0 {
        let v: Vec<String> = Vec::new();
        proof {
            assert(texts(v@) =~= Seq::<Seq<char>>::empty());
        }
        return Ok((p, v));
    }
    match read_spaced_number(s, p) {
        None => Err(p),
        Some((q, t)) => match read_numbers(s, q, k - 1) {
            Ok((e, v)) => {
                let ghost tv = t@;
                let ghost vv = v@;
                let mut w = v;
                w.insert(0, t);
                proof {
                    assert(texts(w@) =~= seq![tv].add(texts(vv)));
                }
                Ok((e, w))
            },
            Err(x) => Err(x),
        },
    }
}

/// Trims white space off both ends of `s[a..b]`.
pub fn trimmed(s: &Vec<char>, a: usize, b: usize) -> (r: String)
    requires
        a <= b <= s@.len(),
    ensures
        r@ == trim(s@.subrange(a as int, b as int)),
{
    let t = copy_range(s, a, b);
    let x = skip_white(&t, 0);
    let mut y = t.len();
    while y > 0 && is_white_char(t[y - 1])
        invariant
            y <= t@.len(),
            white_tail_start(t@, t@.len() as int) == white_tail_start(t@, y as int),
        decreases y,
    {
        y = y - 1;
    }
    proof {
        lemma_span_end_bounds(t@, 0, white_class());
    }
    if x < y {
        let c = copy_range(&t, x, y);
        text_of(c.as_slice())
    } else {
        proof {
            assert(trim(t@) == Seq::<char>::empty());
        }
        text_of(Vec::<char>::new().as_slice())
    }
}

/// The header at `p`.
pub fn read_header(s: &Vec<char>, p: usize) -> (r: Result<(usize, ThermoHeader), ParseError>)
    requires
        p <= s@.len(),
    ensures
        match header_at(s@, p as int) {
            Ok((e, h)) => r matches Ok((q, v)) && q == e && v@ == h && p < q <= s@.len(),
            Err(x) => r == Err::<(usize, ThermoHeader), ParseError>(x),
        },
{
    if !(s.len() - p >= 6 && s[p] == 't' && s[p + 1] == 'h' && s[p + 2] == 'e' && s[p + 3] == 'r'
        && s[p + 4] == 'm' && s[p + 5] == 'o') {
        proof {
            if spells_at(s@, p as int, marker(), marker()) {
                assert(s@[p + 0] == marker()[0]);
                assert(s@[p + 1] == marker()[1]);
                assert(s@[p + 2] == marker()[2]);
                assert(s@[p + 3] == marker()[3]);
                assert(s@[p + 4] == marker()[4]);
                assert(s@[p + 5] == marker()[5]);
            }
        }
        return Err(ParseError { kind: ErrorKind::Marker, offset: p });
    }
    proof {
        assert forall|i: int| 0 <= i < 6 implies s@[p + i] == marker()[i] || s@[p + i]
            == marker()[i] by {
            if i == 0 {
            } else if i == 1 {
            } else if i == 2 {
            } else if i == 3 {
            } else if i == 4 {
            } else {
            }
        }
    }
    let a = skip_line_space(s, p + 6);
    proof {
        lemma_span_end_bounds(s@, p + 6, line_space_class());
    }
    match read_numbers(s, a, 4) {
        Err(x) => Err(ParseError { kind: ErrorKind::Number, offset: x }),
        Ok((q, ts)) => {
            let d = skip_blank(s, q);
            proof {
                lemma_span_end_bounds(s@, q as int, blank_class());
            }
            let nl = find(s, d, '\n');
            proof {
                lemma_find_char_bounds(s@, d as int, '\n');
            }
            if nl < s.len() {
                let date = trimmed(s, d, nl);
                Ok((nl + 1, ThermoHeader { temp_ranges: ts, date }))
            } else {
                Err(ParseError { kind: ErrorKind::LineEnd, offset: d })
            }
        },
    }
}

} // verus!
