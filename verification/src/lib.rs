//! A verified core for a blob-backed dataset of private-jet legs: a
//! content cache over an abstract blob store, a client model for a
//! tracking provider, a leg-identification state machine over
//! time-ordered positions, the time-varying set of in-scope aircraft, and
//! the work-item orchestration that rolls per-month leg tables up into
//! yearly files. Times are held in milliseconds, coordinates in
//! microdegrees, altitudes in feet; what only an outside library can
//! compute (the haversine distance, JSON parsing, the clock, randomness)
//! enters through narrow trusted items or is handed in by the caller.

pub mod aircraft;
pub mod aircraft_db;
pub mod aircraft_models;
pub mod aircraft_owners;
pub mod aircraft_types;
pub mod aircrafts;
pub mod codec;
pub mod consumption;
pub mod country;
pub mod csv;
pub mod date;
pub mod emissions;
pub mod etl_legs;
pub mod fs;
pub mod icao_to_trace;
pub mod keyed;
pub mod legs;
pub mod model;
pub mod private_emissions;
pub mod private_jets_in_time;
pub mod report;
pub mod serde;
pub mod text;
pub mod trace_month;

use vstd::prelude::*;

verus! {

/// Milliseconds in one minute.
pub const MS_PER_MINUTE: i64 = 60_000;

/// Milliseconds in one hour.
pub const MS_PER_HOUR: i64 = 3_600_000;

/// A position of an aircraft.
///
/// Quantities that the tracking provider reports as fractional numbers are
/// held as scaled integers: the timestamp in milliseconds since the Unix
/// epoch, latitude and longitude in microdegrees, the barometric altitude in
/// feet. An absent altitude means the aircraft is on the ground.
#[derive(Debug, Clone, Copy, PartialEq)]
pub struct Position {
    pub datetime_ms: i64,
    pub latitude_udeg: i64,
    pub longitude_udeg: i64,
    pub altitude_ft: Option<i64>,
}

impl Position {
    /// Latitude and longitude lie in range and the timestamp is within the
    /// supported calendar range.
    pub open spec fn wf(self) -> bool {
        &&& -90_000_000 <= self.latitude_udeg <= 90_000_000
        &&& -180_000_000 <= self.longitude_udeg <= 180_000_000
        &&& -300_000_000_000_000 <= self.datetime_ms <= 300_000_000_000_000
    }

    pub open spec fn spec_flying(self) -> bool {
        self.altitude_ft is Some
    }

    /// The altitude used by the leg rules: the reported feet, or 0 on the ground.
    pub open spec fn spec_altitude(self) -> int {
        match self.altitude_ft {
            Some(a) => a as int,
            None => 0,
        }
    }

    pub fn flying(&self) -> (r: bool)
        ensures
            r == self.spec_flying(),
    {
        self.altitude_ft.is_some()
    }

    pub fn grounded(&self) -> (r: bool)
        ensures
            r == !self.spec_flying(),
    {
        self.altitude_ft.is_none()
    }

    pub fn latitude(&self) -> (r: i64)
        ensures
            r == self.latitude_udeg,
    {
        self.latitude_udeg
    }

    pub fn longitude(&self) -> (r: i64)
        ensures
            r == self.longitude_udeg,
    {
        self.longitude_udeg
    }

    pub fn pos(&self) -> (r: (i64, i64))
        ensures
            r.0 == self.latitude_udeg,
            r.1 == self.longitude_udeg,
    {
        (self.latitude_udeg, self.longitude_udeg)
    }

    pub fn altitude(&self) -> (r: i64)
        ensures
            r as int == self.spec_altitude(),
    {
        match self.altitude_ft {
            Some(a) => a,
            None => 0,
        }
    }

    pub fn datetime(&self) -> (r: i64)
        ensures
            r == self.datetime_ms,
    {
        self.datetime_ms
    }

}

} // verus!
