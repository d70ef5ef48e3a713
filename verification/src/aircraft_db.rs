use vstd::prelude::*;

verus! {

/// An in-memory representation of an aircraft of the dated registry dump.
#[derive(Debug, Clone)]
pub struct Aircraft {
    /// The ICAO number of the aircraft (e.g. `459cd3`)
    pub icao_number: String,
    /// The tail number of the aircraft (e.g. `OY-GFS`)
    pub tail_number: String,
    /// The ICAO number of the aircraft model (e.g. `F2TH`)
    pub type_designator: String,
    /// The model
    pub model: String,
}

/// The name of the dated registry dump.
pub const DATABASE: &'static str = "db-20231106";

/// The blob name under which the registry page of `prefix` is cached.
pub open spec fn spec_cache_file_path(prefix: Seq<char>) -> Seq<char> {
    "db-20231106/"@ + prefix + ".json"@
}

/// Returns the cache blob name of the registry page of `prefix`.
pub fn cache_file_path(prefix: &str) -> (r: String)
    ensures
        r@ == spec_cache_file_path(prefix@),
{
    let mut s = "db-20231106/".to_owned();
    s.append(prefix);
    s.append(".json");
    proof {
        assert(s@ =~= spec_cache_file_path(prefix@));
    }
    s
}

/// The provider URL of the registry page of `prefix` in the dated dump.
pub open spec fn spec_db_url(prefix: Seq<char>) -> Seq<char> {
    "https://globe.adsbexchange.com/db-20231106/"@ + prefix + ".js"@
}

/// Returns the provider URL of the registry page of `prefix`.
pub fn url(prefix: &str) -> (r: String)
    ensures
        r@ == spec_db_url(prefix@),
{
    let mut s = "https://globe.adsbexchange.com/db-20231106/".to_owned();
    s.append(prefix);
    s.append(".js");
    proof {
        assert(s@ =~= spec_db_url(prefix@));
    }
    s
}

} // verus!
