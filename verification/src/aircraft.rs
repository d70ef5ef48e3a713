use vstd::prelude::*;

use crate::country::CountryIcaoRanges;
use crate::date::Date;
use crate::text::{pad2, pad4};

verus! {

/// An in-memory representation of an aircraft of the provider registry.
#[derive(Debug, Clone)]
pub struct Aircraft {
    /// The ICAO number of the aircraft (e.g. `459cd3`)
    pub icao_number: String,
    /// The tail number of the aircraft (e.g. `OY-GFS`)
    pub tail_number: String,
    /// The ICAO number of the aircraft model (e.g. `F2TH`)
    pub type_designator: String,
    /// The model
    pub model: String,
    /// The country in ISO 3166 of the aircraft
    pub country: Option<String>,
}

/// The blob name of the registry snapshot of `date`.
pub open spec fn spec_snapshot_blob_name(date: Date) -> Seq<char> {
    "aircraft/db/date="@ + crate::text::spec_pad4(date.year as int) + "-"@
        + crate::text::spec_pad2(date.month as int) + "-"@ + crate::text::spec_pad2(
        date.day as int,
    ) + "/data.csv"@
}

/// Returns the snapshot blob name for `date`.
pub fn pk_to_blob_name(date: &Date) -> (r: String)
    requires
        date.valid(),
    ensures
        r@ == spec_snapshot_blob_name(*date),
{
    let mut s = "aircraft/db/date=".to_owned();
    s.append(pad4(date.year as u32).as_str());
    s.append("-");
    s.append(pad2(date.month).as_str());
    s.append("-");
    s.append(pad2(date.day).as_str());
    s.append("/data.csv");
    proof {
        assert(s@ =~= spec_snapshot_blob_name(*date));
    }
    s
}

/// Reads the snapshot date back out of a snapshot blob name, or returns
/// `None` when the name is not of that shape.
///
/// Together with [`pk_to_blob_name`] this is the snapshot-path round-trip
/// law: decoding the encoded name of any meaningful date yields the date.
#[verifier::spinoff_prover]
#[verifier::rlimit(100)]
pub fn blob_name_to_date(blob: &str) -> (r: Option<Date>)
    ensures
        r matches Some(d) ==> blob@ == spec_snapshot_blob_name(d) && d.valid(),
        forall|d: Date|
            d.valid() && blob@ == #[trigger] spec_snapshot_blob_name(d) ==> r == Some(d),
{
    broadcast use vstd::seq_lib::group_seq_properties;

    proof {
        reveal_strlit("aircraft/db/date=");
        reveal_strlit("/data.csv");
        reveal_strlit("-");
    }
    let n = blob.unicode_len();
    proof {
        assert forall|d: Date|
            d.valid() && blob@ == #[trigger] spec_snapshot_blob_name(d) implies {
            &&& blob@.len() == 36
            &&& blob@.subrange(0, 17) == "aircraft/db/date="@
            &&& blob@.subrange(17, 21) == crate::text::spec_pad4(d.year as int)
            &&& blob@[21] == '-'
            &&& blob@.subrange(22, 24) == crate::text::spec_pad2(d.month as int)
            &&& blob@[24] == '-'
            &&& blob@.subrange(25, 27) == crate::text::spec_pad2(d.day as int)
            &&& blob@.subrange(27, 36) == "/data.csv"@
        } by {
            assert(blob@.subrange(0, 17) =~= "aircraft/db/date="@);
            assert(blob@.subrange(17, 21) =~= crate::text::spec_pad4(d.year as int));
            assert(blob@.subrange(22, 24) =~= crate::text::spec_pad2(d.month as int));
            assert(blob@.subrange(25, 27) =~= crate::text::spec_pad2(d.day as int));
            assert(blob@.subrange(27, 36) =~= "/data.csv"@);
        }
    }
    if n != 36 {
        return None;
    }
    if !crate::text::str_starts_with(blob, "aircraft/db/date=") {
        return None;
    }
    if blob.get_char(21) != '-' || blob.get_char(24) != '-' {
        return None;
    }
    let tail = crate::text::substring(blob, 27, 36);
    if !crate::text::str_eq(tail.as_str(), "/data.csv") {
        proof {
            assert forall|d: Date|
                d.valid() && blob@ == #[trigger] spec_snapshot_blob_name(d) implies false by {
                assert(tail@ =~= "/data.csv"@);
            }
        }
        return None;
    }
    let mut i: usize = 17;
    while i < 27
        invariant
            17 <= i <= 27,
            blob@.len() == 36,
            forall|j: int|
                17 <= j < i && j != 21 && j != 24 ==> crate::text::spec_is_digit(
                    #[trigger] blob@[j],
                ),
        decreases 27 - i,
    {
        if i != 21 && i != 24 {
            let c = blob.get_char(i);
            if c < '0' || c > '9' {
                proof {
                    reveal_strlit("aircraft/db/date=");
                    reveal_strlit("/data.csv");
                    reveal_strlit("-");
                    assert(!crate::text::spec_is_digit(blob@[i as int]));
                    assert forall|d: Date|
                        d.valid() && blob@ == #[trigger] spec_snapshot_blob_name(
                            d,
                        ) implies false by {
                        assert(blob@.subrange(17, 21) =~= crate::text::spec_pad4(d.year as int));
                        assert(blob@.subrange(22, 24) =~= crate::text::spec_pad2(
                            d.month as int,
                        ));
                        assert(blob@.subrange(25, 27) =~= crate::text::spec_pad2(d.day as int));
                        crate::text::lemma_pad4_digits(d.year as int);
                        crate::text::lemma_pad2_digits(d.month as int);
                        crate::text::lemma_pad2_digits(d.day as int);
                        if i < 21 {
                            assert(blob@.subrange(17, 21)[i - 17] == blob@[i as int]);
                        } else if i < 24 {
                            assert(blob@.subrange(22, 24)[i - 22] == blob@[i as int]);
                        } else {
                            assert(blob@.subrange(25, 27)[i - 25] == blob@[i as int]);
                        }
                    }
                }
                return None;
            }
        }
        i = i + 1;
    }
    proof {
        assert forall|k: int| 0 <= k < 4 implies crate::text::spec_is_digit(
            #[trigger] blob@.subrange(17, 21)[k],
        ) by {
            assert(blob@.subrange(17, 21)[k] == blob@[k + 17]);
        }
        assert forall|k: int| 0 <= k < 2 implies crate::text::spec_is_digit(
            #[trigger] blob@.subrange(22, 24)[k],
        ) && crate::text::spec_is_digit(#[trigger] blob@.subrange(25, 27)[k]) by {
            assert(blob@.subrange(22, 24)[k] == blob@[k + 22]);
            assert(blob@.subrange(25, 27)[k] == blob@[k + 25]);
        }
    }
    let y = crate::text::parse_digits(blob, 17, 21);
    let mo = crate::text::parse_digits(blob, 22, 24);
    let dy = crate::text::parse_digits(blob, 25, 27);
    proof {
        crate::text::lemma_digits_val_bound(blob@.subrange(17, 21));
        crate::text::lemma_digits_val_bound(blob@.subrange(22, 24));
        crate::text::lemma_digits_val_bound(blob@.subrange(25, 27));
        assert(crate::text::pow10(4) == 10000 && crate::text::pow10(2) == 100) by {
            assert(crate::text::pow10(0) == 1);
            assert(crate::text::pow10(1) == 10);
            assert(crate::text::pow10(2) == 100);
            assert(crate::text::pow10(3) == 1000);
        }
    }
    if y < 1 || mo < 1 || mo > 12 || dy < 1 {
        proof {
            assert forall|d: Date|
                d.valid() && blob@ == #[trigger] spec_snapshot_blob_name(d) implies false by {
                crate::text::lemma_pad4_digits(d.year as int);
                crate::text::lemma_pad2_digits(d.month as int);
                crate::text::lemma_pad2_digits(d.day as int);
            }
        }
        return None;
    }
    if dy > crate::date::days_in_month(y as i32, mo as u8) as u32 {
        proof {
            assert forall|d: Date|
                d.valid() && blob@ == #[trigger] spec_snapshot_blob_name(d) implies false by {
                crate::text::lemma_pad4_digits(d.year as int);
                crate::text::lemma_pad2_digits(d.month as int);
                crate::text::lemma_pad2_digits(d.day as int);
            }
        }
        return None;
    }
    let d = Date { year: y as i32, month: mo as u8, day: dy as u8 };
    proof {
        crate::text::lemma_digits4_canonical(blob@.subrange(17, 21));
        crate::text::lemma_digits2_canonical(blob@.subrange(22, 24));
        crate::text::lemma_digits2_canonical(blob@.subrange(25, 27));
        assert(blob@ =~= spec_snapshot_blob_name(d));
        assert forall|dd: Date|
            dd.valid() && blob@ == #[trigger] spec_snapshot_blob_name(dd) implies Some(d) == Some(
            dd,
        ) by {
            crate::text::lemma_pad4_digits(dd.year as int);
            crate::text::lemma_pad2_digits(dd.month as int);
            crate::text::lemma_pad2_digits(dd.day as int);
        }
    }
    Some(d)
}

/// The provider URL of the current-registry page of `prefix`.
pub open spec fn spec_registry_url(prefix: Seq<char>) -> Seq<char> {
    "https://globe.adsbexchange.com/db-current/"@ + prefix + ".js"@
}

/// Returns the provider URL of the current-registry page of `prefix`.
pub fn url(prefix: &str) -> (r: String)
    ensures
        r@ == spec_registry_url(prefix@),
{
    let mut s = "https://globe.adsbexchange.com/db-current/".to_owned();
    s.append(prefix);
    s.append(".js");
    proof {
        assert(s@ =~= spec_registry_url(prefix@));
    }
    s
}

/// Builds one registry aircraft out of a raw registry entry: the icao
/// number (already lowercase) and the positional fields of the provider
/// database, with the country looked up in the range table. An entry
/// yields an aircraft exactly when the tail number, type designator and
/// model fields are present and the icao number is a 32-bit hexadecimal
/// number; the country is set exactly when a range of the table holds it.
pub fn aircraft_from_db_entry(
    icao_number: String,
    mut fields: Vec<Option<String>>,
    ranges: &CountryIcaoRanges,
) -> (r: Option<Aircraft>)
    ensures
        r is Some <==> {
            &&& fields@.len() >= 4
            &&& fields@[0] is Some
            &&& fields@[1] is Some
            &&& fields@[3] is Some
            &&& crate::country::spec_hex_u32_ok(icao_number@)
        },
        r matches Some(a) ==> {
            &&& a.icao_number@ == icao_number@
            &&& fields@.len() >= 4
            &&& fields@[0] matches Some(t) && a.tail_number == t
            &&& fields@[1] matches Some(t) && a.type_designator == t
            &&& fields@[3] matches Some(t) && a.model == t
            &&& (a.country is Some <==> exists|j: int|
                0 <= j < ranges.ranges@.len() && (#[trigger] ranges.ranges@[j]).start
                    <= crate::country::spec_hex_val(icao_number@) <= ranges.ranges@[j].end)
            &&& (a.country matches Some(c) ==> exists|j: int|
                0 <= j < ranges.ranges@.len() && (#[trigger] ranges.ranges@[j]).start
                    <= crate::country::spec_hex_val(icao_number@) <= ranges.ranges@[j].end && c@
                    == ranges.ranges@[j].country@)
        },
{
    if fields.len() < 4 {
        return None;
    }
    let country = match ranges.country(icao_number.as_str()) {
        Ok(Some(c)) => Some(c),
        Ok(None) => None,
        Err(_) => {
            return None;
        },
    };
    let model = match fields.remove(3) {
        Some(m) => m,
        None => {
            return None;
        },
    };
    let type_designator = match fields.remove(1) {
        Some(t) => t,
        None => {
            return None;
        },
    };
    let tail_number = match fields.remove(0) {
        Some(t) => t,
        None => {
            return None;
        },
    };
    Some(Aircraft { icao_number, tail_number, type_designator, model, country })
}

impl Aircraft {
    /// A copy with the same fields.
    pub fn clone_aircraft(&self) -> (r: Aircraft)
        ensures
            r == *self,
    {
        Aircraft {
            icao_number: self.icao_number.clone(),
            tail_number: self.tail_number.clone(),
            type_designator: self.type_designator.clone(),
            model: self.model.clone(),
            country: match &self.country {
                Some(c) => Some(c.clone()),
                None => None,
            },
        }
    }
}

} // verus!
