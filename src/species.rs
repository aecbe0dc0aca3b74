//! Species records: the header line with its element composition, and the
//! three-line temperature-range blocks that follow it.
use vstd::prelude::*;
use crate::model::{range_ok, species_ok, 
    ErrorKind, ParseError, RangeModel, Species, SpeciesModel, TemperatureRange, fail, pairs,
    range_views, texts,
};
use crate::number::{
    d_to_e_text, float_or_zero, is_float_token, read_sci_d, read_spaced_number, sci_d_or_zero,
    spaced_number_at, spells_at, zero_text,
};
use crate::scan::{
    blank_class, copy_range, find, find_char, is_blank, is_blank_char, is_white,
    lemma_find_char_bounds, lemma_span_end_bounds, non_white_class, skip_blank, skip_non_white, skip_white, span_end, text_of, tokens, tokens_from,
    white_class,
};

verus! {

/// Whether a character has the Unicode `Alphabetic` property.
pub uninterp spec fn alphabetic(c: char) -> bool;

/// Relies on `char::is_alphabetic`.
#[verifier::external_body]
fn is_alphabetic(c: char) -> (r: bool)
    ensures
        r == alphabetic(c),
{
    c.is_alphabetic()
}

pub open spec fn alpha_class() -> spec_fn(char) -> bool {
    |c: char| alphabetic(c)
}

pub open spec fn char_views(v: Seq<Vec<char>>) -> Seq<Seq<char>> {
    v.map_values(|x: Vec<char>| x@)
}

fn skip_alpha(s: &Vec<char>, p: usize) -> (q: usize)
    requires
        p <= s@.len(),
    ensures
        q == span_end(s@, p as int, alpha_class()),
{
    let mut i = p;
    while i < s.len() && is_alphabetic(s[i])
        invariant
            p <= i <= s@.len(),
            span_end(s@, p as int, alpha_class()) == span_end(s@, i as int, alpha_class()),
        decreases s@.len() - i,
    {
        i = i + 1;
    }
    i
}

/// The white-space separated tokens of `t`.
pub fn split_tokens(t: &Vec<char>) -> (r: Vec<Vec<char>>)
    ensures
        char_views(r@) == tokens(t@),
{
    let mut r: Vec<Vec<char>> = Vec::new();
    let mut i: usize = 0;
    while i < t.len()
        invariant
            i <= t@.len(),
            char_views(r@).add(tokens_from(t@, i as int)) == tokens(t@),
        decreases t@.len() - i,
    {
        let a = skip_white(t, i);
        proof {
            lemma_span_end_bounds(t@, i as int, white_class());
        }
        if a >= t.len() {
            proof {
                assert(tokens_from(t@, i as int) == Seq::<Seq<char>>::empty());
                assert(char_views(r@).add(Seq::<Seq<char>>::empty()) =~= char_views(r@));
            }
            i = t.len();
            proof {
                assert(tokens_from(t@, i as int) == Seq::<Seq<char>>::empty());
            }
        } else {
            let b = skip_non_white(t, a);
            proof {
                lemma_span_end_bounds(t@, a as int + 1, non_white_class());
            }
            let tok = copy_range(t, a, b);
            let ghost before = r@;
            r.push(tok);
            proof {
                assert(char_views(r@) =~= char_views(before).push(tok@));
                assert(tokens_from(t@, i as int) == seq![t@.subrange(a as int, b as int)].add(
                    tokens_from(t@, b as int),
                ));
                assert(char_views(r@).add(tokens_from(t@, b as int)) =~= char_views(before).add(
                    tokens_from(t@, i as int),
                ));
            }
            i = b;
        }
    }
    proof {
        assert(tokens_from(t@, i as int) == Seq::<Seq<char>>::empty());
        assert(char_views(r@).add(Seq::<Seq<char>>::empty()) =~= char_views(r@));
    }
    r
}

/// Symbol and count pairs from `p` on, and the position where they stop.
pub open spec fn elements_from(t: Seq<char>, p: int) -> (int, Seq<(Seq<char>, Seq<char>)>)
    decreases t.len() - p,
{
    let a = span_end(t, p, blank_class());
    let b = span_end(t, a, alpha_class());
    if 0 <= p < t.len() && a < b {
        match spaced_number_at(t, b) {
            Some((q, v)) => {
                if p < q <= t.len() {
                    let (e, es) = elements_from(t, q);
                    (e, seq![(t.subrange(a, b), v)].add(es))
                } else {
                    (p, Seq::empty())
                }
            },
            None => (p, Seq::empty()),
        }
    } else {
        (p, Seq::empty())
    }
}

/// Reads the element composition at the start of `t`: each symbol is a run
/// of letters and is followed by its count.
pub fn read_elements(t: &Vec<char>) -> (r: (usize, Vec<(String, String)>))
    ensures
        r.0 == elements_from(t@, 0).0,
        pairs(r.1@) == elements_from(t@, 0).1,
        r.0 <= t@.len(),
{
    let mut out: Vec<(String, String)> = Vec::new();
    let mut i: usize = 0;
    loop
        invariant
            i <= t@.len(),
            elements_from(t@, 0).0 == elements_from(t@, i as int).0,
            elements_from(t@, 0).1 == pairs(out@).add(elements_from(t@, i as int).1),
        decreases t@.len() - i,
    {
        let ghost before = out@;
        if i >= t.len() {
            proof {
                assert(pairs(out@).add(Seq::empty()) =~= pairs(out@));
            }
            return (i, out);
        }
        let a = skip_blank(t, i);
        proof {
            lemma_span_end_bounds(t@, i as int, blank_class());
        }
        let b = skip_alpha(t, a);
        proof {
            lemma_span_end_bounds(t@, a as int, alpha_class());
        }
        if a >= b {
            proof {
                assert(pairs(out@).add(Seq::empty()) =~= pairs(out@));
            }
            return (i, out);
        }
        match read_spaced_number(t, b) {
            Some((q, v)) => {
                let sym = copy_range(t, a, b);
                let sym = text_of(sym.as_slice());
                let ghost pair = (sym@, v@);
                out.push((sym, v));
                proof {
                    assert(pairs(out@) =~= pairs(before).push(pair));
                    assert(elements_from(t@, i as int).1 == seq![pair].add(
                        elements_from(t@, q as int).1,
                    ));
                    assert(pairs(out@).add(elements_from(t@, q as int).1) =~= pairs(before).add(
                        elements_from(t@, i as int).1,
                    ));
                }
                i = q;
            },
            None => {
                proof {
                    assert(pairs(out@).add(Seq::empty()) =~= pairs(out@));
                }
                return (i, out);
            },
        }
    }
}

fn zero() -> (r: String)
    ensures
        r@ == zero_text(),
{
    let z = vec!['0', '.', '0'];
    text_of(z.as_slice())
}

/// A token read as a float literal, or zero where it is none.
fn float_token_or_zero(t: &Vec<char>) -> (r: String)
    ensures
        r@ == float_or_zero(t@),
{
    if is_float_token(t) {
        text_of(t.as_slice())
    } else {
        zero()
    }
}

/// A token read as a `D`-exponent literal from its start, or zero.
fn sci_d_token_or_zero(t: &Vec<char>) -> (r: String)
    ensures
        r@ == sci_d_or_zero(t@),
{
    match read_sci_d(t, 0) {
        Some(e) => d_to_e_text(t, 0, e),
        None => zero(),
    }
}

/// The line of a species record that precedes its ranges: a name, spaces or
/// tabs, a description up to the next white space, which must be a space or
/// a tab, then the element composition;
/// of what follows it the last two tokens are the molecular weight and the
/// heat of formation. The line feed is consumed; the ranges are left empty.
/// A description of several words keeps only its first word, and the next
/// words are read as element composition.
pub open spec fn species_head_at(s: Seq<char>, p: int) -> Result<(int, SpeciesModel), ParseError> {
    let n = span_end(s, p, non_white_class());
    let a = span_end(s, n, blank_class());
    let sp = span_end(s, a, non_white_class());
    let b = span_end(s, sp, blank_class());
    let nl = find_char(s, b, '\n');
    if !(p < n) {
        Err(fail(ErrorKind::Name, p))
    } else if !(n < a) {
        Err(fail(ErrorKind::Separator, n))
    } else if !(sp < s.len() && is_blank(s[sp])) {
        Err(fail(ErrorKind::Separator, sp))
    } else if nl >= s.len() {
        Err(fail(ErrorKind::LineEnd, b))
    } else {
        let frag = s.subrange(b, nl);
        let e = elements_from(frag, 0).0;
        let parts = tokens(frag.subrange(e, frag.len() as int));
        Ok(
            (
                nl + 1,
                SpeciesModel {
                    name: s.subrange(p, n),
                    description: s.subrange(a, sp),
                    elements: elements_from(frag, 0).1,
                    molecular_weight: if parts.len() >= 2 {
                        float_or_zero(parts[parts.len() - 2])
                    } else {
                        zero_text()
                    },
                    heat_of_formation: if parts.len() >= 1 {
                        float_or_zero(parts[parts.len() - 1])
                    } else {
                        zero_text()
                    },
                    temperature_ranges: Seq::empty(),
                },
            ),
        )
    }
}

pub fn read_species_head(s: &Vec<char>, p: usize) -> (r: Result<(usize, Species), ParseError>)
    requires
        p <= s@.len(),
    ensures
        match species_head_at(s@, p as int) {
            Ok((e, m)) => r matches Ok((q, v)) && q == e && v@ == m && p < q <= s@.len(),
            Err(x) => r == Err::<(usize, Species), ParseError>(x),
        },
{
    let n = skip_non_white(s, p);
    proof {
        lemma_span_end_bounds(s@, p as int, non_white_class());
    }
    let a = skip_blank(s, n);
    proof {
        lemma_span_end_bounds(s@, n as int, blank_class());
    }
    let sp = skip_non_white(s, a);
    proof {
        lemma_span_end_bounds(s@, a as int, non_white_class());
    }
    let b = skip_blank(s, sp);
    proof {
        lemma_span_end_bounds(s@, sp as int, blank_class());
    }
    let nl = find(s, b, '\n');
    proof {
        lemma_find_char_bounds(s@, b as int, '\n');
    }
    if !(p < n) {
        return Err(ParseError { kind: ErrorKind::Name, offset: p });
    }
    if !(n < a) {
        return Err(ParseError { kind: ErrorKind::Separator, offset: n });
    }
    if !(sp < s.len() && is_blank_char(s[sp])) {
        return Err(ParseError { kind: ErrorKind::Separator, offset: sp });
    }
    if nl >= s.len() {
        return Err(ParseError { kind: ErrorKind::LineEnd, offset: b });
    }
    let frag = copy_range(s, b, nl);
    let (e, elements) = read_elements(&frag);
    let tail = copy_range(&frag, e, frag.len());
    let parts = split_tokens(&tail);
    let ghost pv = char_views(parts@);
    let molecular_weight = if parts.len() >= 2 {
        proof {
            assert(pv[parts@.len() - 2] == parts@[parts@.len() - 2]@);
        }
        float_token_or_zero(&parts[parts.len() - 2])
    } else {
        zero()
    };
    let heat_of_formation = if parts.len() >= 1 {
        proof {
            assert(pv[parts@.len() - 1] == parts@[parts@.len() - 1]@);
        }
        float_token_or_zero(&parts[parts.len() - 1])
    } else {
        zero()
    };
    let name = copy_range(s, p, n);
    let description = copy_range(s, a, sp);
    let temperature_ranges: Vec<TemperatureRange> = Vec::new();
    let sp = Species {
        name: text_of(name.as_slice()),
        description: text_of(description.as_slice()),
        elements,
        molecular_weight,
        heat_of_formation,
        temperature_ranges,
    };
    proof {
        assert(range_views(sp.temperature_ranges@) =~= Seq::<RangeModel>::empty());
    }
    Ok((nl + 1, sp))
}


/// Coefficient slot `i` from the tokens of the two coefficient lines: slots
/// 0 to 4 from the first five tokens of the first line, slots 5 and 6 from the
/// first two of the second; a missing or bad token gives zero.
pub open spec fn coefficient_at(t2: Seq<Seq<char>>, t3: Seq<Seq<char>>, i: int) -> Seq<char> {
    if i < 5 {
        if i < t2.len() {
            sci_d_or_zero(t2[i])
        } else {
            zero_text()
        }
    } else {
        if i - 5 < t3.len() {
            sci_d_or_zero(t3[i - 5])
        } else {
            zero_text()
        }
    }
}

/// Integration constant `i`: from the last two tokens of the second
/// coefficient line where it has at least four, else zero.
pub open spec fn constant_at(t3: Seq<Seq<char>>, i: int) -> Seq<char> {
    if t3.len() >= 4 {
        sci_d_or_zero(t3[t3.len() - 2 + i])
    } else {
        zero_text()
    }
}

/// A temperature-range block at `p`: a line that starts with the two bounds,
/// then two lines of coefficients; all three line feeds are consumed.
pub open spec fn range_at(s: Seq<char>, p: int) -> Result<(int, RangeModel), ParseError> {
    let a = span_end(s, p, blank_class());
    match spaced_number_at(s, a) {
        None => Err(fail(ErrorKind::Number, a)),
        Some((q1, lo)) => match spaced_number_at(s, q1) {
            None => Err(fail(ErrorKind::Number, q1)),
            Some((q2, hi)) => {
                let l1 = find_char(s, q2, '\n');
                let l2 = find_char(s, l1 + 1, '\n');
                let l3 = find_char(s, l2 + 1, '\n');
                if l1 >= s.len() {
                    Err(fail(ErrorKind::LineEnd, q2))
                } else if l2 >= s.len() {
                    Err(fail(ErrorKind::LineEnd, l1 + 1))
                } else if l3 >= s.len() {
                    Err(fail(ErrorKind::LineEnd, l2 + 1))
                } else {
                    let t2 = tokens(s.subrange(l1 + 1, l2));
                    let t3 = tokens(s.subrange(l2 + 1, l3));
                    Ok(
                        (
                            l3 + 1,
                            RangeModel {
                                temp_low: lo,
                                temp_high: hi,
                                coefficients: Seq::new(7, |i: int| coefficient_at(t2, t3, i)),
                                integration_constants: Seq::new(2, |i: int| constant_at(t3, i)),
                            },
                        ),
                    )
                }
            },
        },
    }
}

/// Where the text at `p` stands, after white space, between range blocks.
pub enum Boundary {
    /// Another range block follows.
    MoreRanges,
    /// A letter starts the next species.
    NextSpecies,
    /// The word `END` closes the section.
    EndMarker,
    /// Nothing but white space is left.
    Empty,
}

pub open spec fn boundary_at(s: Seq<char>, p: int) -> Boundary {
    let a = span_end(s, p, white_class());
    if spells_at(s, a, seq!['E', 'N', 'D'], seq!['E', 'N', 'D']) {
        Boundary::EndMarker
    } else if a < s.len() && alphabetic(s[a]) {
        Boundary::NextSpecies
    } else if a >= s.len() {
        Boundary::Empty
    } else {
        Boundary::MoreRanges
    }
}

/// The range blocks from `p` on, until a boundary other than another block
/// or a block that does not parse.
pub open spec fn ranges_from(s: Seq<char>, p: int) -> (int, Seq<RangeModel>)
    decreases s.len() - p,
{
    if boundary_at(s, p) is MoreRanges {
        match range_at(s, p) {
            Ok((q, r)) => {
                if p < q <= s.len() {
                    let (e, rs) = ranges_from(s, q);
                    (e, seq![r].add(rs))
                } else {
                    (p, Seq::empty())
                }
            },
            Err(_) => (p, Seq::empty()),
        }
    } else {
        (p, Seq::empty())
    }
}

/// A species record at `p`: its header line and its range blocks.
pub open spec fn species_at(s: Seq<char>, p: int) -> Result<(int, SpeciesModel), ParseError> {
    match species_head_at(s, p) {
        Err(x) => Err(x),
        Ok((q, h)) => Ok(
            (
                ranges_from(s, q).0,
                SpeciesModel {
                    name: h.name,
                    description: h.description,
                    elements: h.elements,
                    molecular_weight: h.molecular_weight,
                    heat_of_formation: h.heat_of_formation,
                    temperature_ranges: ranges_from(s, q).1,
                },
            ),
        ),
    }
}

/// Reads the tokens of a coefficient line into its slots.
fn decode_tokens(toks: &Vec<Vec<char>>, i: usize) -> (r: String)
    ensures
        r@ == (if i < toks@.len() {
            sci_d_or_zero(char_views(toks@)[i as int])
        } else {
            zero_text()
        }),
{
    if i < toks.len() {
        sci_d_token_or_zero(&toks[i])
    } else {
        zero()
    }
}

pub fn read_range(s: &Vec<char>, p: usize) -> (r: Result<(usize, TemperatureRange), ParseError>)
    requires
        p <= s@.len(),
    ensures
        match range_at(s@, p as int) {
            Ok((e, m)) => r matches Ok((q, v)) && q == e && v@ == m && p < q <= s@.len(),
            Err(x) => r == Err::<(usize, TemperatureRange), ParseError>(x),
        },
{
    let a = skip_blank(s, p);
    proof {
        lemma_span_end_bounds(s@, p as int, blank_class());
    }
    let (q1, temp_low) = match read_spaced_number(s, a) {
        None => {
            return Err(ParseError { kind: ErrorKind::Number, offset: a });
        },
        Some(x) => x,
    };
    let (q2, temp_high) = match read_spaced_number(s, q1) {
        None => {
            return Err(ParseError { kind: ErrorKind::Number, offset: q1 });
        },
        Some(x) => x,
    };
    let l1 = find(s, q2, '\n');
    proof {
        lemma_find_char_bounds(s@, q2 as int, '\n');
    }
    if l1 >= s.len() {
        return Err(ParseError { kind: ErrorKind::LineEnd, offset: q2 });
    }
    let l2 = find(s, l1 + 1, '\n');
    proof {
        lemma_find_char_bounds(s@, l1 + 1, '\n');
    }
    if l2 >= s.len() {
        return Err(ParseError { kind: ErrorKind::LineEnd, offset: l1 + 1 });
    }
    let l3 = find(s, l2 + 1, '\n');
    proof {
        lemma_find_char_bounds(s@, l2 + 1, '\n');
    }
    if l3 >= s.len() {
        return Err(ParseError { kind: ErrorKind::LineEnd, offset: l2 + 1 });
    }
    let line2 = copy_range(s, l1 + 1, l2);
    let line3 = copy_range(s, l2 + 1, l3);
    let t2 = split_tokens(&line2);
    let t3 = split_tokens(&line3);
    let ghost v2 = char_views(t2@);
    let ghost v3 = char_views(t3@);
    let mut coefficients: Vec<String> = Vec::new();
    let mut i: usize = 0;
    while i < 7
        invariant
            i <= 7,
            v2 == char_views(t2@),
            v3 == char_views(t3@),
            coefficients@.len() == i,
            forall|j: int| 0 <= j < i ==> coefficients@[j]@ == coefficient_at(v2, v3, j),
        decreases 7 - i,
    {
        let c = if i < 5 {
            decode_tokens(&t2, i)
        } else {
            decode_tokens(&t3, i - 5)
        };
        coefficients.push(c);
        i = i + 1;
    }
    let mut integration_constants: Vec<String> = Vec::new();
    if t3.len() >= 4 {
        integration_constants.push(decode_tokens(&t3, t3.len() - 2));
        integration_constants.push(decode_tokens(&t3, t3.len() - 1));
    } else {
        integration_constants.push(zero());
        integration_constants.push(zero());
    }
    let rng = TemperatureRange { temp_low, temp_high, coefficients, integration_constants };
    proof {
        assert(texts(rng.coefficients@) =~= Seq::new(7, |j: int| coefficient_at(v2, v3, j)));
        assert(texts(rng.integration_constants@) =~= Seq::new(2, |j: int| constant_at(v3, j)));
    }
    Ok((l3 + 1, rng))
}

/// Classifies the text at `p`: the single decision point between range
/// blocks of one species and what comes after them.
pub fn classify(s: &Vec<char>, p: usize) -> (r: Boundary)
    requires
        p <= s@.len(),
    ensures
        r == boundary_at(s@, p as int),
{
    let a = skip_white(s, p);
    proof {
        lemma_span_end_bounds(s@, p as int, white_class());
    }
    if s.len() - a >= 3 && s[a] == 'E' && s[a + 1] == 'N' && s[a + 2] == 'D' {
        proof {
            let w = seq!['E', 'N', 'D'];
            assert forall|i: int| 0 <= i < 3 implies s@[a + i] == w[i] || s@[a + i] == w[i] by {
                if i == 0 {
                } else if i == 1 {
                } else {
                }
            }
        }
        Boundary::EndMarker
    } else {
        proof {
            let w = seq!['E', 'N', 'D'];
            if spells_at(s@, a as int, w, w) {
                assert(s@[a + 0] == w[0]);
                assert(s@[a + 1] == w[1]);
                assert(s@[a + 2] == w[2]);
            }
        }
        if a < s.len() && is_alphabetic(s[a]) {
            Boundary::NextSpecies
        } else if a >= s.len() {
            Boundary::Empty
        } else {
            Boundary::MoreRanges
        }
    }
}

/// The range blocks from `p` on.
pub fn read_ranges(s: &Vec<char>, p: usize) -> (r: (usize, Vec<TemperatureRange>))
    requires
        p <= s@.len(),
    ensures
        r.0 == ranges_from(s@, p as int).0,
        range_views(r.1@) == ranges_from(s@, p as int).1,
        p <= r.0 <= s@.len(),
{
    let mut out: Vec<TemperatureRange> = Vec::new();
    let mut i = p;
    loop
        invariant
            p <= i <= s@.len(),
            ranges_from(s@, p as int).0 == ranges_from(s@, i as int).0,
            ranges_from(s@, p as int).1 == range_views(out@).add(ranges_from(s@, i as int).1),
        decreases s@.len() - i,
    {
        let ghost before = out@;
        match classify(s, i) {
            Boundary::MoreRanges => {},
            _ => {
                proof {
                    assert(range_views(out@).add(Seq::empty()) =~= range_views(out@));
                }
                return (i, out);
            },
        }
        match read_range(s, i) {
            Ok((q, rng)) => {
                let ghost m = rng@;
                out.push(rng);
                proof {
                    assert(range_views(out@) =~= range_views(before).push(m));
                    assert(ranges_from(s@, i as int).1 == seq![m].add(ranges_from(s@, q as int).1));
                    assert(range_views(out@).add(ranges_from(s@, q as int).1) =~= range_views(
                        before,
                    ).add(ranges_from(s@, i as int).1));
                }
                i = q;
            },
            Err(_) => {
                proof {
                    assert(range_views(out@).add(Seq::empty()) =~= range_views(out@));
                }
                return (i, out);
            },
        }
    }
}

/// Every range block read holds seven coefficients and two constants.
pub proof fn lemma_ranges_ok(s: Seq<char>, p: int)
    ensures
        forall|i: int| 0 <= i < ranges_from(s, p).1.len() ==> range_ok(
            #[trigger] ranges_from(s, p).1[i],
        ),
    decreases s.len() - p,
{
    if boundary_at(s, p) is MoreRanges {
        if let Ok((q, r)) = range_at(s, p) {
            if p < q <= s.len() {
                lemma_ranges_ok(s, q);
                let rs = ranges_from(s, q).1;
                assert forall|i: int| 0 <= i < ranges_from(s, p).1.len() implies range_ok(
                    #[trigger] ranges_from(s, p).1[i],
                ) by {
                    if i > 0 {
                        assert(ranges_from(s, p).1[i] == rs[i - 1]);
                    }
                }
            }
        }
    }
}

/// A parsed species record has well-formed ranges only.
pub proof fn lemma_species_ok(s: Seq<char>, p: int)
    ensures
        species_at(s, p) matches Ok((_, m)) ==> species_ok(m),
{
    if let Ok((q, _)) = species_head_at(s, p) {
        lemma_ranges_ok(s, q);
    }
}

/// A species header reads exactly one line: the consumed text ends with its
/// only line feed; the name and the description hold no white space.
pub proof fn lemma_species_head_one_line(s: Seq<char>, p: int)
    requires
        0 <= p <= s.len(),
    ensures
        species_head_at(s, p) matches Ok((q, m)) ==> {
            &&& p < q <= s.len()
            &&& s[q - 1] == '\n'
            &&& forall|i: int| p <= i < q - 1 ==> s[i] != '\n'
            &&& m.name.len() > 0
            &&& forall|i: int| 0 <= i < m.name.len() ==> !is_white(#[trigger] m.name[i])
            &&& m.description.len() > 0
            &&& forall|i: int|
                0 <= i < m.description.len() ==> !is_white(#[trigger] m.description[i])
        },
{
    let n = span_end(s, p, non_white_class());
    lemma_span_end_bounds(s, p, non_white_class());
    let a = span_end(s, n, blank_class());
    lemma_span_end_bounds(s, n, blank_class());
    let sp = span_end(s, a, non_white_class());
    lemma_span_end_bounds(s, a, non_white_class());
    let b = span_end(s, sp, blank_class());
    lemma_span_end_bounds(s, sp, blank_class());
    let nl = find_char(s, b, '\n');
    lemma_find_char_bounds(s, b, '\n');
    if let Ok((q, m)) = species_head_at(s, p) {
        assert(a < sp);
        assert forall|i: int| p <= i < q - 1 implies s[i] != '\n' by {
            if i < n {
                assert(non_white_class()(s[i]));
            } else if i < a {
                assert(blank_class()(s[i]));
            } else if i < sp {
                assert(non_white_class()(s[i]));
            } else if i < b {
                assert(blank_class()(s[i]));
            }
        }
        assert forall|i: int| 0 <= i < m.name.len() implies !is_white(#[trigger] m.name[i]) by {
            assert(non_white_class()(s[p + i]));
        }
        assert forall|i: int| 0 <= i < m.description.len() implies !is_white(
            #[trigger] m.description[i],
        ) by {
            assert(non_white_class()(s[a + i]));
        }
    }
}

/// A species record at `p`.
pub fn read_species(s: &Vec<char>, p: usize) -> (r: Result<(usize, Species), ParseError>)
    requires
        p <= s@.len(),
    ensures
        match species_at(s@, p as int) {
            Ok((e, m)) => r matches Ok((q, v)) && q == e && v@ == m && p < q <= s@.len(),
            Err(x) => r == Err::<(usize, Species), ParseError>(x),
        },
{
    match read_species_head(s, p) {
        Err(x) => Err(x),
        Ok((q, head)) => {
            let (e, temperature_ranges) = read_ranges(s, q);
            let sp = Species {
                name: head.name,
                description: head.description,
                elements: head.elements,
                molecular_weight: head.molecular_weight,
                heat_of_formation: head.heat_of_formation,
                temperature_ranges,
            };
            Ok((e, sp))
        },
    }
}

} // verus!
