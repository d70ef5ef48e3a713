use vstd::prelude::*;

use crate::Position;

verus! {

/// The texts a country story is rendered with.
pub struct CountryContext {
    pub name: String,
    pub plural: String,
    pub possessive: String,
}

/// The countries a story can be written about.
#[derive(Debug, Clone, Copy, PartialEq, Eq, Structural)]
pub enum Country {
    Denmark,
    Portugal,
    Spain,
    Germany,
}

/// A location the search can be restricted to.
#[derive(Debug, Clone, Copy, PartialEq, Eq, Structural)]
pub enum Location {
    Davos,
}

/// A geographic box in microdegrees.
#[derive(Debug, Clone, Copy, PartialEq, Eq, Structural)]
pub struct Region {
    pub lat_min_udeg: i64,
    pub lon_min_udeg: i64,
    pub lat_max_udeg: i64,
    pub lon_max_udeg: i64,
}

impl Location {
    pub fn name(&self) -> (r: &'static str)
        ensures
            self is Davos ==> r@ == "Davos airport (LSZR)"@,
    {
        match self {
            Location::Davos => "Davos airport (LSZR)",
        }
    }

    /// The bounding box of the location, in microdegrees.
    pub fn region(&self) -> (r: Region)
        ensures
            self is Davos ==> r == (Region {
                lat_min_udeg: 47_482_000int as i64,
                lon_min_udeg: 9_538_000int as i64,
                lat_max_udeg: 47_490_000int as i64,
                lon_max_udeg: 9_568_000int as i64,
            }),
    {
        match self {
            Location::Davos => Region {
                lat_min_udeg: 47_482_000,
                lon_min_udeg: 9_538_000,
                lat_max_udeg: 47_490_000,
                lon_max_udeg: 9_568_000,
            },
        }
    }
}

impl Country {
    pub fn to_context(&self) -> (r: CountryContext)
        ensures
            r.name@ == self.spec_name(),
            r.plural@ == self.spec_plural(),
            r.possessive@ == self.spec_possessive(),
    {
        CountryContext {
            name: self.name().to_owned(),
            plural: self.plural().to_owned(),
            possessive: self.possessive().to_owned(),
        }
    }

    pub open spec fn spec_possessive(self) -> Seq<char> {
        match self {
            Country::Denmark => "Danish"@,
            Country::Portugal => "Portuguese"@,
            Country::Spain => "Spanish"@,
            Country::Germany => "German"@,
        }
    }

    pub fn possessive(&self) -> (r: &'static str)
        ensures
            r@ == self.spec_possessive(),
    {
        match self {
            Country::Denmark => "Danish",
            Country::Portugal => "Portuguese",
            Country::Spain => "Spanish",
            Country::Germany => "German",
        }
    }

    pub open spec fn spec_plural(self) -> Seq<char> {
        match self {
            Country::Denmark => "Danes"@,
            Country::Portugal => "Portugueses"@,
            Country::Spain => "Spanish"@,
            Country::Germany => "Germans"@,
        }
    }

    pub fn plural(&self) -> (r: &'static str)
        ensures
            r@ == self.spec_plural(),
    {
        match self {
            Country::Denmark => "Danes",
            Country::Portugal => "Portugueses",
            Country::Spain => "Spanish",
            Country::Germany => "Germans",
        }
    }

    pub open spec fn spec_tail_number(self) -> Seq<char> {
        match self {
            Country::Denmark => "OY-"@,
            Country::Portugal => "CS-"@,
            Country::Spain => "EC-"@,
            Country::Germany => "D-"@,
        }
    }

    pub fn tail_number(&self) -> (r: &'static str)
        ensures
            r@ == self.spec_tail_number(),
    {
        match self {
            Country::Denmark => "OY-",
            Country::Portugal => "CS-",
            Country::Spain => "EC-",
            Country::Germany => "D-",
        }
    }

    pub open spec fn spec_name(self) -> Seq<char> {
        match self {
            Country::Denmark => "Denmark"@,
            Country::Portugal => "Portugal"@,
            Country::Spain => "Spain"@,
            Country::Germany => "Germany"@,
        }
    }

    pub fn name(&self) -> (r: &'static str)
        ensures
            r@ == self.spec_name(),
    {
        match self {
            Country::Denmark => "Denmark",
            Country::Portugal => "Portugal",
            Country::Spain => "Spain",
            Country::Germany => "Germany",
        }
    }
}

/// Whether the position lies in the box: latitude at least the lower bound
/// and below the upper one, the same for longitude.
pub fn in_box(position: &Position, region: Region) -> (r: bool)
    ensures
        r == (region.lat_min_udeg <= position.latitude_udeg < region.lat_max_udeg
            && region.lon_min_udeg <= position.longitude_udeg < region.lon_max_udeg),
{
    position.latitude_udeg >= region.lat_min_udeg && position.latitude_udeg < region.lat_max_udeg
        && position.longitude_udeg >= region.lon_min_udeg && position.longitude_udeg
        < region.lon_max_udeg
}

} // verus!
