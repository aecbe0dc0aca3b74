use thermo_parser::{
    parse_elements, parse_float, parse_header, parse_scientific_d, parse_species,
    parse_species_header, parse_spaced_float, parse_temperature_range, parse_thermo_file,
};
use thermo_parser::model::{ErrorKind, ParseError};

fn value(t: &str) -> f64 {
    t.parse::<f64>().unwrap()
}

#[test]
fn test_scientific_d_parsing() {
    let (rest, v) = parse_scientific_d("2.500000000D+00").unwrap();
    assert_eq!((rest.as_str(), value(&v)), ("", 2.5));
    let (rest, v) = parse_scientific_d("-7.453750000D+02").unwrap();
    assert_eq!((rest.as_str(), value(&v)), ("", -745.375));
    let (rest, v) = parse_scientific_d("1.066859930D-05").unwrap();
    assert_eq!((rest.as_str(), value(&v)), ("", 1.066859930e-5));
}

#[test]
fn test_header_parsing() {
    let input = "thermo                                                                          \n    200.00   1000.00   6000.00  20000.     9/09/04\n";
    let result = parse_header(input);
    assert!(result.is_ok());
}

#[test]
fn d_literal_reads_as_its_e_form() {
    for lit in ["2.500000000D+00", "-7.453750000D+02", "1.066859930D-05", "+3D7", "12D-1"] {
        let (rest, v) = parse_scientific_d(lit).unwrap();
        assert_eq!(rest, "");
        assert_eq!(v, lit.replace('D', "E"));
        assert_eq!(value(&v), value(&lit.replace('D', "E")));
    }
}

#[test]
fn d_literal_keeps_the_rest() {
    let (rest, v) = parse_scientific_d("6.082738360D+00-8.530914410D-03").unwrap();
    assert_eq!(v, "6.082738360E+00");
    assert_eq!(rest, "-8.530914410D-03");
}

#[test]
fn d_literal_rejects_other_text() {
    let e = ParseError { kind: ErrorKind::Number, offset: 0 };
    assert_eq!(parse_scientific_d("2.5E+00"), Err(e));
    assert_eq!(parse_scientific_d("2.5D"), Err(e));
    assert_eq!(parse_scientific_d("D+01"), Err(e));
    assert_eq!(parse_scientific_d(""), Err(e));
}

#[test]
fn header_values_and_date() {
    let input = "thermo\n    200.00   1000.00   6000.00  20000.     9/09/04\n";
    let (rest, h) = parse_header(input).unwrap();
    assert_eq!(rest, "");
    let temps: Vec<f64> = h.temp_ranges.iter().map(|t| value(t)).collect();
    assert_eq!(temps, vec![200.00, 1000.00, 6000.00, 20000.0]);
    assert_eq!(h.temp_ranges, vec!["200.00", "1000.00", "6000.00", "20000."]);
    assert_eq!(h.date, "9/09/04");
}

#[test]
fn header_numbers_read_back_the_same() {
    let input = "thermo\n 2.0D+02 1000.00 6.0D3  20000.  date\n";
    let (_, h) = parse_header(input).unwrap();
    for t in &h.temp_ranges {
        let (rest, again) = parse_float(t).unwrap();
        assert_eq!(rest, "");
        assert_eq!(&again, t);
        assert_eq!(value(&again), value(t));
    }
    let line = format!("thermo {}\n", h.temp_ranges.join(" "));
    let (_, h2) = parse_header(&line).unwrap();
    assert_eq!(h2.temp_ranges, h.temp_ranges);
}

#[test]
fn header_errors() {
    assert_eq!(
        parse_header("therm\n 1 2 3 4\n").unwrap_err(),
        ParseError { kind: ErrorKind::Marker, offset: 0 }
    );
    assert_eq!(
        parse_header("thermo\n 1 2 x 4\n").unwrap_err(),
        ParseError { kind: ErrorKind::Number, offset: 12 }
    );
    assert_eq!(
        parse_header("thermo 1 2 3 4 date").unwrap_err(),
        ParseError { kind: ErrorKind::LineEnd, offset: 15 }
    );
}

#[test]
fn elements_without_separator() {
    let (rest, els) = parse_elements("N   2.00O   2.00");
    assert_eq!(rest, "");
    assert_eq!(
        els,
        vec![("N".to_string(), "2.00".to_string()), ("O".to_string(), "2.00".to_string())]
    );
    assert_eq!(value(&els[0].1), 2.0);
}

#[test]
fn elements_stop_at_the_first_number_without_symbol() {
    let (rest, els) = parse_elements("C   1.00H   4.00   16.04246 -74.600");
    assert_eq!(els.len(), 2);
    assert_eq!(els[1], ("H".to_string(), "4.00".to_string()));
    assert_eq!(rest, "16.04246 -74.600");
    let (rest, els) = parse_elements("");
    assert_eq!((rest.as_str(), els.len()), ("", 0));
}

#[test]
fn spaced_and_standard_numbers() {
    assert_eq!(parse_spaced_float("  20000.   x").unwrap(), ("x".to_string(), "20000.".to_string()));
    assert_eq!(parse_float("123K-01").unwrap(), ("K-01".to_string(), "123".to_string()));
    assert_eq!(parse_float("11e-1").unwrap(), ("".to_string(), "11e-1".to_string()));
    assert_eq!(parse_float(".5 x").unwrap(), (" x".to_string(), ".5".to_string()));
    assert_eq!(parse_float("Infinity").unwrap().1, "Infinity");
    assert!(parse_float("1e").is_err());
    assert!(parse_float("abc").is_err());
}

#[test]
fn species_header_fields() {
    let (rest, sp) = parse_species_header("CO2 gas C   1.00O   2.00   44.00950 -393.510\nnext").unwrap();
    assert_eq!(rest, "next");
    assert_eq!(sp.name, "CO2");
    assert_eq!(sp.description, "gas");
    assert_eq!(sp.elements.len(), 2);
    assert_eq!(sp.molecular_weight, "44.00950");
    assert_eq!(sp.heat_of_formation, "-393.510");
    assert!(sp.temperature_ranges.is_empty());
}

#[test]
fn species_header_defaults_bad_numbers_to_zero() {
    let (_, sp) = parse_species_header("X y Z   1.00   abc\n").unwrap();
    assert_eq!(sp.molecular_weight, "0.0");
    assert_eq!(sp.heat_of_formation, "0.0");
    let (_, sp) = parse_species_header("X y Z   1.00   12.5 1D3\n").unwrap();
    assert_eq!(sp.molecular_weight, "12.5");
    assert_eq!(sp.heat_of_formation, "0.0");
}

#[test]
fn species_header_errors() {
    assert_eq!(
        parse_species_header(" N2").unwrap_err(),
        ParseError { kind: ErrorKind::Name, offset: 0 }
    );
    assert_eq!(
        parse_species_header("N2\n").unwrap_err(),
        ParseError { kind: ErrorKind::Separator, offset: 2 }
    );
    assert_eq!(
        parse_species_header("N2 nitrogen").unwrap_err(),
        ParseError { kind: ErrorKind::Separator, offset: 11 }
    );
    assert_eq!(
        parse_species_header("N2 a N 2.0").unwrap_err(),
        ParseError { kind: ErrorKind::LineEnd, offset: 5 }
    );
}

#[test]
fn range_with_short_first_coefficient_line() {
    let block = "   200.000  1000.000 7 meta\n 1.0D+00 2.0D+00 3.0D+00\n 6.0D+00 7.0D+00 8.0D+00 9.0D+00\n";
    let (rest, r) = parse_temperature_range(block).unwrap();
    assert_eq!(rest, "");
    assert_eq!(value(&r.temp_low), 200.0);
    assert_eq!(value(&r.temp_high), 1000.0);
    let c: Vec<f64> = r.coefficients.iter().map(|t| value(t)).collect();
    assert_eq!(c, vec![1.0, 2.0, 3.0, 0.0, 0.0, 6.0, 7.0]);
    assert_eq!(r.coefficients[3], "0.0");
    assert_eq!(r.coefficients[4], "0.0");
    assert_eq!(r.integration_constants, vec!["8.0E+00", "9.0E+00"]);
}

#[test]
fn range_constants_need_four_tokens() {
    let block = " 300 1000\n 1D0 2D0 3D0 4D0 5D0 6D0\n 6D0 7D0 8D0\n";
    let (_, r) = parse_temperature_range(block).unwrap();
    assert_eq!(r.coefficients, vec!["1E0", "2E0", "3E0", "4E0", "5E0", "6E0", "7E0"]);
    assert_eq!(r.integration_constants, vec!["0.0", "0.0"]);
    let block = " 300 1000\n x 2D0\n 6D0 7D0 bad 9D0\n";
    let (_, r) = parse_temperature_range(block).unwrap();
    assert_eq!(r.coefficients[0], "0.0");
    assert_eq!(r.coefficients[1], "2E0");
    assert_eq!(r.integration_constants, vec!["0.0", "9E0"]);
}

#[test]
fn range_errors() {
    assert_eq!(
        parse_temperature_range(" abc 1000\n\n\n").unwrap_err(),
        ParseError { kind: ErrorKind::Number, offset: 1 }
    );
    assert_eq!(
        parse_temperature_range(" 300 1000\n a\n").unwrap_err(),
        ParseError { kind: ErrorKind::LineEnd, offset: 13 }
    );
}

const FILE: &str = "\n  thermo\n    200.00   1000.00   6000.00  20000.     9/09/04\nN2 nitrogen N   2.00   28.01340 0.0\n    200.000   1000.000 7 -2.0 -1.0\n 2.210371497D+04 -3.818461820D+02 6.082738360D+00 -8.530914410D-03 1.384646189D-05\n -9.625793620D-09 2.519705809D-12 0.000000000D+00 7.108460860D+02 -1.076003744D+01\n   1000.000   6000.000 7 -2.0 -1.0\n 5.877124060D+05 -2.239249073D+03 6.066949220D+00 -6.139685500D-04 1.491806679D-07\n -1.923105485D-11 1.061954386D-15 0.000000000D+00 1.283210415D+04 -1.586640027D+01\nEND PRODUCTS\n";

#[test]
fn one_species_with_two_ranges() {
    let (rest, f) = parse_thermo_file(FILE).unwrap();
    assert_eq!(f.species.len(), 1);
    let sp = &f.species[0];
    assert_eq!(sp.name, "N2");
    assert_eq!(sp.elements, vec![("N".to_string(), "2.00".to_string())]);
    assert_eq!(sp.molecular_weight, "28.01340");
    assert_eq!(sp.temperature_ranges.len(), 2);
    assert_eq!(value(&sp.temperature_ranges[0].temp_low), 200.0);
    assert_eq!(value(&sp.temperature_ranges[1].temp_low), 1000.0);
    assert_eq!(value(&sp.temperature_ranges[0].coefficients[0]), 2.210371497e4);
    assert_eq!(value(&sp.temperature_ranges[1].integration_constants[1]), -1.586640027e1);
    assert_eq!(rest, "END PRODUCTS\n");
}

#[test]
fn species_stops_at_next_name() {
    let input = "A a X 1.0 2 3\n 1 2\n\n\nB b Y 1.0 4 5\n";
    let (rest, sp) = parse_species(input).unwrap();
    assert_eq!(sp.temperature_ranges.len(), 1);
    assert_eq!(rest, "B b Y 1.0 4 5\n");
}

#[test]
fn missing_marker_is_a_failure() {
    let input = "    200.00   1000.00   6000.00  20000.     9/09/04\n";
    assert_eq!(
        parse_thermo_file(input).unwrap_err(),
        ParseError { kind: ErrorKind::Marker, offset: 4 }
    );
    assert_eq!(
        parse_thermo_file("").unwrap_err(),
        ParseError { kind: ErrorKind::Marker, offset: 0 }
    );
}

#[test]
fn header_only_file_has_no_species() {
    let (rest, f) = parse_thermo_file("thermo 1 2 3 4 d\n\n  ").unwrap();
    assert!(f.species.is_empty());
    assert_eq!(f.header.date, "d");
    assert_eq!(rest, "");
}

#[test]
fn non_ascii_letters_and_spaces() {
    let (rest, els) = parse_elements("Ñ 1.0Å 2.0 9");
    assert_eq!(
        els,
        vec![("Ñ".to_string(), "1.0".to_string()), ("Å".to_string(), "2.0".to_string())]
    );
    assert_eq!(rest, "9");
    let (rest, els) = parse_elements("Å\u{3000}2.0");
    assert!(els.is_empty());
    assert_eq!(rest, "Å\u{3000}2.0");
    let (_, sp) = parse_species_header("X y Z 1.0 3.5\u{3000}7.25\n").unwrap();
    assert_eq!(sp.molecular_weight, "3.5");
    assert_eq!(sp.heat_of_formation, "7.25");
}

#[test]
fn description_ends_at_white_space() {
    let (rest, sp) = parse_species_header("N2 a\tb c\nnext").unwrap();
    assert_eq!(sp.description, "a");
    assert_eq!(rest, "next");
    let (_, sp) = parse_species_header("CO2 gas\tC   1.00O   2.00   44.00950 -393.510\n").unwrap();
    assert_eq!(sp.description, "gas");
    assert_eq!(sp.elements.len(), 2);
}

#[test]
fn species_header_stays_on_its_line() {
    assert_eq!(
        parse_species_header("A x\nB y\n").unwrap_err(),
        ParseError { kind: ErrorKind::Separator, offset: 3 }
    );
    assert_eq!(
        parse_species_header("A \nB y\n").unwrap_err(),
        ParseError { kind: ErrorKind::Separator, offset: 2 }
    );
}

#[test]
fn d_literal_with_trailing_text() {
    for (lit, tail) in [("1.5D+02", " x"), ("-7.453750000D+02", "-8.5D-03"), ("3D7", "abc")] {
        let (rest, v) = parse_scientific_d(&format!("{}{}", lit, tail)).unwrap();
        assert_eq!(rest, tail);
        assert_eq!(v, lit.replace('D', "E"));
        assert_eq!(value(&v).to_bits(), value(&lit.replace('D', "E")).to_bits());
    }
}
