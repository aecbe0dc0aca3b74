//! Reader for NASA-style thermodynamic polynomial data files.
//!
//! Numbers are carried as literal text in standard decimal syntax (a
//! Fortran `D` exponent is rewritten to `E`); the caller decodes that text
//! with the host's float reader.
pub mod header;
pub mod model;
pub mod number;
pub mod parse;
pub mod scan;
pub mod species;

pub use model::{ErrorKind, ParseError, Species, TemperatureRange, ThermoFile, ThermoHeader};
pub use parse::{
    parse_elements, parse_float, parse_header, parse_scientific_d, parse_spaced_float, parse_species,
    parse_species_header, parse_temperature_range, parse_thermo_file,
};
