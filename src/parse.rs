//! The whole file, and the entry points that read from text.
use vstd::prelude::*;
use crate::header::{lemma_header_ok, header_at, marker, read_header};
use crate::model::{file_ok, species_ok, 
    ErrorKind, FileModel, ParseError, Species, SpeciesModel, TemperatureRange, ThermoFile,
    ThermoHeader, fail, pairs, species_views,
};
use crate::number::{
    d_to_e, d_to_e_text, number_at, read_number, read_sci_d, read_spaced_number, sci_d_end,
    spaced_number_at, spells_at,
};
use crate::scan::{
    chars_of, copy_range, lemma_span_end_bounds, line_space_class, skip_line_space, span_end,
    text_of,
};
use crate::species::{lemma_species_ok, 
    elements_from, range_at, read_elements, read_range, read_species, read_species_head, species_at,
    species_head_at,
};

verus! {

/// The species records from `p` on, until one does not parse.
pub open spec fn species_from(s: Seq<char>, p: int) -> (int, Seq<SpeciesModel>)
    decreases s.len() - p,
{
    match species_at(s, p) {
        Ok((q, m)) => {
            if p < q <= s.len() {
                let (e, ms) = species_from(s, q);
                (e, seq![m].add(ms))
            } else {
                (p, Seq::empty())
            }
        },
        Err(_) => (p, Seq::empty()),
    }
}

/// A whole file: line space, the header, the species records, and trailing
/// line space; what follows is left unread.
pub open spec fn file_at(s: Seq<char>) -> Result<(int, FileModel), ParseError> {
    match header_at(s, span_end(s, 0, line_space_class())) {
        Err(x) => Err(x),
        Ok((q, h)) => {
            let (e, sps) = species_from(s, q);
            Ok((span_end(s, e, line_space_class()), FileModel { header: h, species: sps }))
        },
    }
}

/// Text in which the marker `thermo` stands nowhere is refused as a whole,
/// with the missing-marker failure at the first character after line space.
pub proof fn lemma_missing_marker_fails(s: Seq<char>)
    requires
        forall|i: int| 0 <= i <= s.len() ==> !spells_at(s, i, marker(), marker()),
    ensures
        file_at(s) == Err::<(int, FileModel), ParseError>(
            fail(ErrorKind::Marker, span_end(s, 0, line_space_class())),
        ),
{
    lemma_span_end_bounds(s, 0, line_space_class());
}

proof fn lemma_species_list_ok(s: Seq<char>, p: int)
    ensures
        forall|i: int| 0 <= i < species_from(s, p).1.len() ==> species_ok(
            #[trigger] species_from(s, p).1[i],
        ),
    decreases s.len() - p,
{
    lemma_species_ok(s, p);
    if let Ok((q, m)) = species_at(s, p) {
        if p < q <= s.len() {
            lemma_species_list_ok(s, q);
            let ms = species_from(s, q).1;
            assert forall|i: int| 0 <= i < species_from(s, p).1.len() implies species_ok(
                #[trigger] species_from(s, p).1[i],
            ) by {
                if i > 0 {
                    assert(species_from(s, p).1[i] == ms[i - 1]);
                }
            }
        }
    }
}

/// A parsed file has four breakpoints, and each of its ranges seven
/// coefficients and two integration constants.
pub proof fn lemma_file_ok(s: Seq<char>)
    ensures
        file_at(s) matches Ok((_, m)) ==> file_ok(m),
{
    let a = span_end(s, 0, line_space_class());
    lemma_header_ok(s, a);
    if let Ok((q, _)) = header_at(s, a) {
        lemma_species_list_ok(s, q);
    }
}

pub fn read_species_list(s: &Vec<char>, p: usize) -> (r: (usize, Vec<Species>))
    requires
        p <= s@.len(),
    ensures
        r.0 == species_from(s@, p as int).0,
        species_views(r.1@) == species_from(s@, p as int).1,
        p <= r.0 <= s@.len(),
{
    let mut out: Vec<Species> = Vec::new();
    let mut i = p;
    loop
        invariant
            p <= i <= s@.len(),
            species_from(s@, p as int).0 == species_from(s@, i as int).0,
            species_from(s@, p as int).1 == species_views(out@).add(species_from(s@, i as int).1),
        decreases s@.len() - i,
    {
        let ghost before = out@;
        match read_species(s, i) {
            Ok((q, sp)) => {
                let ghost m = sp@;
                out.push(sp);
                proof {
                    assert(species_views(out@) =~= species_views(before).push(m));
                    assert(species_from(s@, i as int).1 == seq![m].add(
                        species_from(s@, q as int).1,
                    ));
                    assert(species_views(out@).add(species_from(s@, q as int).1)
                        =~= species_views(before).add(species_from(s@, i as int).1));
                }
                i = q;
            },
            Err(_) => {
                proof {
                    assert(species_views(out@).add(Seq::empty()) =~= species_views(out@));
                }
                return (i, out);
            },
        }
    }
}

pub fn read_file(s: &Vec<char>) -> (r: Result<(usize, ThermoFile), ParseError>)
    ensures
        match file_at(s@) {
            Ok((e, m)) => r matches Ok((q, v)) && q == e && v@ == m && q <= s@.len(),
            Err(x) => r == Err::<(usize, ThermoFile), ParseError>(x),
        },
{
    let a = skip_line_space(s, 0);
    proof {
        lemma_span_end_bounds(s@, 0, line_space_class());
    }
    match read_header(s, a) {
        Err(x) => Err(x),
        Ok((q, header)) => {
            let (e, species) = read_species_list(s, q);
            let f = skip_line_space(s, e);
            proof {
                lemma_span_end_bounds(s@, e as int, line_space_class());
            }
            Ok((f, ThermoFile { header, species }))
        },
    }
}

/// The text after position `q`.
fn rest_of(s: &Vec<char>, q: usize) -> (r: String)
    requires
        q <= s@.len(),
    ensures
        r@ == s@.subrange(q as int, s@.len() as int),
{
    let t = copy_range(s, q, s.len());
    text_of(t.as_slice())
}

/// Parses a whole data file; on success returns the unread rest and the file.
pub fn parse_thermo_file(input: &str) -> (r: Result<(String, ThermoFile), ParseError>)
    ensures
        match file_at(input@) {
            Ok((e, m)) => r matches Ok((rest, v)) && rest@ == input@.subrange(e, input@.len() as int)
                && v@ == m,
            Err(x) => r == Err::<(String, ThermoFile), ParseError>(x),
        },
        r matches Ok((_, v)) ==> v.wf(),
{
    proof {
        lemma_file_ok(input@);
    }
    let s = chars_of(input);
    match read_file(&s) {
        Ok((q, v)) => Ok((rest_of(&s, q), v)),
        Err(x) => Err(x),
    }
}

/// Parses the header at the start of `input`.
pub fn parse_header(input: &str) -> (r: Result<(String, ThermoHeader), ParseError>)
    ensures
        match header_at(input@, 0) {
            Ok((e, m)) => r matches Ok((rest, v)) && rest@ == input@.subrange(e, input@.len() as int)
                && v@ == m,
            Err(x) => r == Err::<(String, ThermoHeader), ParseError>(x),
        },
        r matches Ok((_, v)) ==> v.wf(),
{
    proof {
        lemma_header_ok(input@, 0);
    }
    let s = chars_of(input);
    match read_header(&s, 0) {
        Ok((q, v)) => Ok((rest_of(&s, q), v)),
        Err(x) => Err(x),
    }
}

/// Parses one species record at the start of `input`.
pub fn parse_species(input: &str) -> (r: Result<(String, Species), ParseError>)
    ensures
        match species_at(input@, 0) {
            Ok((e, m)) => r matches Ok((rest, v)) && rest@ == input@.subrange(e, input@.len() as int)
                && v@ == m,
            Err(x) => r == Err::<(String, Species), ParseError>(x),
        },
        r matches Ok((_, v)) ==> v.wf(),
{
    proof {
        lemma_species_ok(input@, 0);
    }
    let s = chars_of(input);
    match read_species(&s, 0) {
        Ok((q, v)) => Ok((rest_of(&s, q), v)),
        Err(x) => Err(x),
    }
}

/// Parses the line that opens a species record; its ranges are left empty.
pub fn parse_species_header(input: &str) -> (r: Result<(String, Species), ParseError>)
    ensures
        match species_head_at(input@, 0) {
            Ok((e, m)) => r matches Ok((rest, v)) && rest@ == input@.subrange(e, input@.len() as int)
                && v@ == m,
            Err(x) => r == Err::<(String, Species), ParseError>(x),
        },
{
    let s = chars_of(input);
    match read_species_head(&s, 0) {
        Ok((q, v)) => Ok((rest_of(&s, q), v)),
        Err(x) => Err(x),
    }
}

/// Parses one temperature-range block at the start of `input`.
pub fn parse_temperature_range(input: &str) -> (r: Result<(String, TemperatureRange), ParseError>)
    ensures
        match range_at(input@, 0) {
            Ok((e, m)) => r matches Ok((rest, v)) && rest@ == input@.subrange(e, input@.len() as int)
                && v@ == m,
            Err(x) => r == Err::<(String, TemperatureRange), ParseError>(x),
        },
        r matches Ok((_, v)) ==> v.wf(),
{
    let s = chars_of(input);
    match read_range(&s, 0) {
        Ok((q, v)) => Ok((rest_of(&s, q), v)),
        Err(x) => Err(x),
    }
}

/// Reads the element composition at the start of `input`; returns the
/// unread rest and the symbol and count pairs. It never fails.
pub fn parse_elements(input: &str) -> (r: (String, Vec<(String, String)>))
    ensures
        r.0@ == input@.subrange(elements_from(input@, 0).0, input@.len() as int),
        pairs(r.1@) == elements_from(input@, 0).1,
{
    let s = chars_of(input);
    let (q, v) = read_elements(&s);
    (rest_of(&s, q), v)
}

/// Reads a `D`-exponent literal at the start of `input`; returns the unread
/// rest and the literal in standard syntax (`D` written as `E`).
pub fn parse_scientific_d(input: &str) -> (r: Result<(String, String), ParseError>)
    ensures
        match sci_d_end(input@, 0) {
            Some(e) => r matches Ok((rest, v)) && rest@ == input@.subrange(e, input@.len() as int)
                && v@ == d_to_e(input@.subrange(0, e)),
            None => r == Err::<(String, String), ParseError>(
                ParseError { kind: ErrorKind::Number, offset: 0 },
            ),
        },
{
    let s = chars_of(input);
    match read_sci_d(&s, 0) {
        Some(e) => Ok((rest_of(&s, e), d_to_e_text(&s, 0, e))),
        None => Err(ParseError { kind: ErrorKind::Number, offset: 0 }),
    }
}

/// Reads a number in either dialect at the start of `input`.
pub fn parse_float(input: &str) -> (r: Result<(String, String), ParseError>)
    ensures
        match number_at(input@, 0) {
            Some((e, t)) => r matches Ok((rest, v)) && rest@ == input@.subrange(e, input@.len() as int)
                && v@ == t,
            None => r == Err::<(String, String), ParseError>(
                ParseError { kind: ErrorKind::Number, offset: 0 },
            ),
        },
{
    let s = chars_of(input);
    match read_number(&s, 0) {
        Some((e, v)) => Ok((rest_of(&s, e), v)),
        None => Err(ParseError { kind: ErrorKind::Number, offset: 0 }),
    }
}

/// Reads a number with the spaces and tabs around it at the start of `input`.
pub fn parse_spaced_float(input: &str) -> (r: Result<(String, String), ParseError>)
    ensures
        match spaced_number_at(input@, 0) {
            Some((e, t)) => r matches Ok((rest, v)) && rest@ == input@.subrange(e, input@.len() as int)
                && v@ == t,
            None => r == Err::<(String, String), ParseError>(
                ParseError { kind: ErrorKind::Number, offset: 0 },
            ),
        },
{
    let s = chars_of(input);
    match read_spaced_number(&s, 0) {
        Some((e, v)) => Ok((rest_of(&s, e), v)),
        None => Err(ParseError { kind: ErrorKind::Number, offset: 0 }),
    }
}

} // verus!
