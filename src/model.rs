//! The parsed structure and its mathematical view.
use vstd::prelude::*;

verus! {

/// Which rule of the grammar could not match.
#[derive(Debug, Clone, Copy, PartialEq, Eq, Structural)]
pub enum ErrorKind {
    /// The `thermo` marker is absent.
    Marker,
    /// A required number is absent.
    Number,
    /// A line has no terminating line feed.
    LineEnd,
    /// A species name is absent.
    Name,
    /// The white space after a species name or its description is absent.
    Separator,
}

/// A structural failure: the rule that failed and the character offset at
/// which it was tried.
#[derive(Debug, Clone, Copy, PartialEq, Eq, Structural)]
pub struct ParseError {
    pub kind: ErrorKind,
    pub offset: usize,
}

pub open spec fn fail(kind: ErrorKind, offset: int) -> ParseError {
    ParseError { kind, offset: offset as usize }
}

/// Global temperature breakpoints (four numbers) and the date stamp.
#[derive(Debug, Clone)]
pub struct ThermoHeader {
    pub temp_ranges: Vec<String>,
    pub date: String,
}

/// One polynomial fit: its bounds, seven coefficients and two integration
/// constants.
#[derive(Debug, Clone)]
pub struct TemperatureRange {
    pub temp_low: String,
    pub temp_high: String,
    pub coefficients: Vec<String>,
    pub integration_constants: Vec<String>,
}

/// One species record.
#[derive(Debug, Clone)]
pub struct Species {
    pub name: String,
    pub description: String,
    pub elements: Vec<(String, String)>,
    pub molecular_weight: String,
    pub heat_of_formation: String,
    pub temperature_ranges: Vec<TemperatureRange>,
}

/// A whole data file: the header and the species in file order.
#[derive(Debug, Clone)]
pub struct ThermoFile {
    pub header: ThermoHeader,
    pub species: Vec<Species>,
}

pub struct HeaderModel {
    pub temp_ranges: Seq<Seq<char>>,
    pub date: Seq<char>,
}

pub struct RangeModel {
    pub temp_low: Seq<char>,
    pub temp_high: Seq<char>,
    pub coefficients: Seq<Seq<char>>,
    pub integration_constants: Seq<Seq<char>>,
}

pub struct SpeciesModel {
    pub name: Seq<char>,
    pub description: Seq<char>,
    pub elements: Seq<(Seq<char>, Seq<char>)>,
    pub molecular_weight: Seq<char>,
    pub heat_of_formation: Seq<char>,
    pub temperature_ranges: Seq<RangeModel>,
}

pub struct FileModel {
    pub header: HeaderModel,
    pub species: Seq<SpeciesModel>,
}

pub open spec fn texts(v: Seq<String>) -> Seq<Seq<char>> {
    v.map_values(|t: String| t@)
}

pub open spec fn pairs(v: Seq<(String, String)>) -> Seq<(Seq<char>, Seq<char>)> {
    v.map_values(|e: (String, String)| (e.0@, e.1@))
}

impl View for ThermoHeader {
    type V = HeaderModel;

    open spec fn view(&self) -> HeaderModel {
        HeaderModel { temp_ranges: texts(self.temp_ranges@), date: self.date@ }
    }
}

impl View for TemperatureRange {
    type V = RangeModel;

    open spec fn view(&self) -> RangeModel {
        RangeModel {
            temp_low: self.temp_low@,
            temp_high: self.temp_high@,
            coefficients: texts(self.coefficients@),
            integration_constants: texts(self.integration_constants@),
        }
    }
}

pub open spec fn range_views(v: Seq<TemperatureRange>) -> Seq<RangeModel> {
    v.map_values(|r: TemperatureRange| r@)
}

impl View for Species {
    type V = SpeciesModel;

    open spec fn view(&self) -> SpeciesModel {
        SpeciesModel {
            name: self.name@,
            description: self.description@,
            elements: pairs(self.elements@),
            molecular_weight: self.molecular_weight@,
            heat_of_formation: self.heat_of_formation@,
            temperature_ranges: range_views(self.temperature_ranges@),
        }
    }
}

pub open spec fn species_views(v: Seq<Species>) -> Seq<SpeciesModel> {
    v.map_values(|r: Species| r@)
}

impl View for ThermoFile {
    type V = FileModel;

    open spec fn view(&self) -> FileModel {
        FileModel { header: self.header@, species: species_views(self.species@) }
    }
}


/// Four breakpoints.
pub open spec fn header_ok(h: HeaderModel) -> bool {
    h.temp_ranges.len() == 4
}

/// Exactly seven coefficients and two integration constants.
pub open spec fn range_ok(r: RangeModel) -> bool {
    r.coefficients.len() == 7 && r.integration_constants.len() == 2
}

pub open spec fn species_ok(m: SpeciesModel) -> bool {
    forall|i: int| 0 <= i < m.temperature_ranges.len() ==> range_ok(#[trigger] m.temperature_ranges[i])
}

pub open spec fn file_ok(f: FileModel) -> bool {
    &&& header_ok(f.header)
    &&& forall|i: int| 0 <= i < f.species.len() ==> species_ok(#[trigger] f.species[i])
}

impl ThermoHeader {
    pub open spec fn wf(&self) -> bool {
        header_ok(self@)
    }
}

impl TemperatureRange {
    pub open spec fn wf(&self) -> bool {
        range_ok(self@)
    }
}

impl Species {
    pub open spec fn wf(&self) -> bool {
        species_ok(self@)
    }
}

impl ThermoFile {
    pub open spec fn wf(&self) -> bool {
        file_ok(self@)
    }
}

} // verus!
