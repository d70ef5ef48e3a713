use vstd::prelude::*;

use crate::codec::spec_json_positions;
use crate::csv::fields_view;
use crate::date::Date;
use crate::fs::BlobStorageProvider;
use crate::legs::{filter_legs, Leg, Legs};
use crate::text::ascii_string_to_bytes;
use crate::serde::spec_month_part;
use crate::text::{i64_to_dec, spec_dec, spec_i64_dec, u64_to_dec};
use crate::Position;

verus! {

/// The blob name of the per-month leg table of `(icao, month)`.
pub open spec fn spec_leg_blob_name(icao: Seq<char>, month: Date) -> Seq<char> {
    "leg/v2/data/month="@ + spec_month_part(month) + "/icao_number="@ + icao + "/data.csv"@
}

/// Returns the per-month leg blob name for `(icao, month)`.
pub fn leg_blob_name(icao: &str, month: Date) -> (r: String)
    requires
        month.valid(),
    ensures
        r@ == spec_leg_blob_name(icao@, month),
{
    let mut s = "leg/v2/data/month=".to_owned();
    s.append(crate::serde::month_to_part(month).as_str());
    s.append("/icao_number=");
    s.append(icao);
    s.append("/data.csv");
    proof {
        assert(s@ =~= spec_leg_blob_name(icao@, month));
    }
    s
}

/// The blob name of the yearly roll-up of `year`.
pub open spec fn spec_year_blob_name(year: int) -> Seq<char> {
    "leg/v2/all/year="@ + spec_dec(year) + "/data.csv"@
}

/// Returns the yearly roll-up blob name.
pub fn year_blob_name(year: i32) -> (r: String)
    requires
        0 <= year,
    ensures
        r@ == spec_year_blob_name(year as int),
{
    let mut s = "leg/v2/all/year=".to_owned();
    s.append(u64_to_dec(year as u64).as_str());
    s.append("/data.csv");
    proof {
        assert(s@ =~= spec_year_blob_name(year as int));
    }
    s
}

/// One output row of the leg dataset: base units are milliseconds, metres,
/// microdegrees, feet and whole kilograms.
pub struct LegOut {
    pub icao_number: String,
    pub tail_number: String,
    pub aircraft_model: String,
    pub start_ms: i64,
    pub start_lat_udeg: i64,
    pub start_lon_udeg: i64,
    pub start_altitude_ft: i64,
    pub end_ms: i64,
    pub end_lat_udeg: i64,
    pub end_lon_udeg: i64,
    pub end_altitude_ft: i64,
    pub duration_ms: u64,
    pub distance_m: u64,
    pub great_circle_distance_m: u64,
    pub ms_above_30000: u64,
    pub ms_above_40000: u64,
    pub co2_kg: u64,
}

/// The field texts of one output row, in column order: timestamps in
/// RFC 3339, coordinates in degrees, duration and altitude-band times in
/// hours, distances in kilometres, each with six fractional digits;
/// altitudes in whole feet and CO₂e in whole kilograms.
pub open spec fn spec_leg_out_fields(r: LegOut) -> Seq<Seq<char>> {
    seq![
        r.icao_number@,
        r.tail_number@,
        r.aircraft_model@,
        crate::serde::spec_rfc3339(r.start_ms as int),
        crate::text::spec_fixed6(r.start_lat_udeg as int),
        crate::text::spec_fixed6(r.start_lon_udeg as int),
        spec_i64_dec(r.start_altitude_ft as int),
        crate::serde::spec_rfc3339(r.end_ms as int),
        crate::text::spec_fixed6(r.end_lat_udeg as int),
        crate::text::spec_fixed6(r.end_lon_udeg as int),
        spec_i64_dec(r.end_altitude_ft as int),
        crate::text::spec_fixed6(r.duration_ms * 5 / 18),
        crate::text::spec_fixed6(r.distance_m * 1000),
        crate::text::spec_fixed6(r.great_circle_distance_m * 1000),
        crate::text::spec_fixed6(r.ms_above_30000 * 5 / 18),
        crate::text::spec_fixed6(r.ms_above_40000 * 5 / 18),
        spec_dec(r.co2_kg as int),
    ]
}

/// Writes a length in metres as kilometres with six fractional digits.
fn m_to_km6(m: u64) -> (r: String)
    ensures
        r@ == crate::text::spec_fixed6(m * 1000),
{
    proof {
        vstd::arithmetic::div_mod::lemma_fundamental_div_mod(m as int, 1000);
        vstd::arithmetic::div_mod::lemma_mod_bound(m as int, 1000);
        vstd::arithmetic::div_mod::lemma_fundamental_div_mod_converse(
            m as int * 1000,
            1000000,
            m as int / 1000,
            (m as int % 1000) * 1000,
        );
    }
    let mut s = u64_to_dec(m / 1000);
    s.append(".");
    s.append(crate::text::pad6(((m % 1000) * 1000) as u32).as_str());
    proof {
        reveal_strlit(".");
        assert(s@ =~= crate::text::spec_fixed6(m * 1000));
    }
    s
}

/// Writes a time in milliseconds as hours with six fractional digits.
fn ms_to_hours6(ms: u64) -> (r: String)
    requires
        ms <= 315_537_897_599_999,
    ensures
        r@ == crate::text::spec_fixed6(ms * 5 / 18),
{
    crate::text::u64_to_fixed6(ms * 5 / 18)
}

/// Writes the fields of one output row.
pub fn leg_out_fields(r: &LegOut) -> (out: Vec<String>)
    requires
        crate::serde::RFC3339_MS_MIN <= r.start_ms <= crate::serde::RFC3339_MS_MAX,
        crate::serde::RFC3339_MS_MIN <= r.end_ms <= crate::serde::RFC3339_MS_MAX,
        r.duration_ms <= 315_537_897_599_999,
        r.ms_above_30000 <= 315_537_897_599_999,
        r.ms_above_40000 <= 315_537_897_599_999,
    ensures
        fields_view(out@) == spec_leg_out_fields(*r),
{
    let mut out: Vec<String> = Vec::new();
    out.push(r.icao_number.clone());
    out.push(r.tail_number.clone());
    out.push(r.aircraft_model.clone());
    out.push(crate::serde::rfc3339(r.start_ms));
    out.push(crate::text::i64_to_fixed6(r.start_lat_udeg));
    out.push(crate::text::i64_to_fixed6(r.start_lon_udeg));
    out.push(i64_to_dec(r.start_altitude_ft));
    out.push(crate::serde::rfc3339(r.end_ms));
    out.push(crate::text::i64_to_fixed6(r.end_lat_udeg));
    out.push(crate::text::i64_to_fixed6(r.end_lon_udeg));
    out.push(i64_to_dec(r.end_altitude_ft));
    out.push(ms_to_hours6(r.duration_ms));
    out.push(m_to_km6(r.distance_m));
    out.push(m_to_km6(r.great_circle_distance_m));
    out.push(ms_to_hours6(r.ms_above_30000));
    out.push(ms_to_hours6(r.ms_above_40000));
    out.push(u64_to_dec(r.co2_kg));
    proof {
        assert(fields_view(out@) =~= spec_leg_out_fields(*r));
    }
    out
}

/// The output row that one kept leg yields: its end positions, its
/// duration, the given great-circle distance and path length, the
/// altitude-band times and the CO₂ formula applied to its duration.
pub open spec fn spec_row_matches(
    row: LegOut,
    l: Seq<Position>,
    icao: Seq<char>,
    tail: Seq<char>,
    model: Seq<char>,
    gph: u32,
    gc_m: u64,
    len_m: u64,
) -> bool {
    &&& l.len() > 0
    &&& crate::trace_month::spec_sorted(l)
    &&& row.icao_number@ == icao
    &&& row.tail_number@ == tail
    &&& row.aircraft_model@ == model
    &&& row.start_ms == l[0].datetime_ms
    &&& row.start_lat_udeg == l[0].latitude_udeg
    &&& row.start_lon_udeg == l[0].longitude_udeg
    &&& row.start_altitude_ft == l[0].spec_altitude()
    &&& row.end_ms == l.last().datetime_ms
    &&& row.end_lat_udeg == l.last().latitude_udeg
    &&& row.end_lon_udeg == l.last().longitude_udeg
    &&& row.end_altitude_ft == l.last().spec_altitude()
    &&& row.duration_ms == l.last().datetime_ms - l[0].datetime_ms
    &&& row.distance_m == len_m
    &&& row.great_circle_distance_m == gc_m
    &&& row.ms_above_30000 == spec_ms_above(l, 30000)
    &&& row.ms_above_40000 == spec_ms_above(l, 40000)
    &&& row.co2_kg == (gph * row.duration_ms * crate::private_emissions::CO2E_KG_NUM) / (
    crate::private_emissions::CO2E_KG_DEN as int)
}

/// The header fields of the leg dataset, in column order.
pub open spec fn spec_leg_header() -> Seq<Seq<char>> {
    seq![
        "icao_number"@,
        "tail_number"@,
        "aircraft_model"@,
        "start"@,
        "start_lat"@,
        "start_lon"@,
        "start_altitude"@,
        "end"@,
        "end_lat"@,
        "end_lon"@,
        "end_altitude"@,
        "duration"@,
        "distance"@,
        "great_circle_distance"@,
        "hours_above_30000"@,
        "hours_above_40000"@,
        "co2_emissions"@,
    ]
}

/// Writes the header row of the leg dataset.
pub fn leg_header_fields() -> (out: Vec<String>)
    ensures
        fields_view(out@) == spec_leg_header(),
{
    let mut out: Vec<String> = Vec::new();
    out.push("icao_number".to_owned());
    out.push("tail_number".to_owned());
    out.push("aircraft_model".to_owned());
    out.push("start".to_owned());
    out.push("start_lat".to_owned());
    out.push("start_lon".to_owned());
    out.push("start_altitude".to_owned());
    out.push("end".to_owned());
    out.push("end_lat".to_owned());
    out.push("end_lon".to_owned());
    out.push("end_altitude".to_owned());
    out.push("duration".to_owned());
    out.push("distance".to_owned());
    out.push("great_circle_distance".to_owned());
    out.push("hours_above_30000".to_owned());
    out.push("hours_above_40000".to_owned());
    out.push("co2_emissions".to_owned());
    proof {
        assert(fields_view(out@) =~= spec_leg_header());
    }
    out
}

/// The CSV text of a list of output rows: the header row, then one record
/// per row.
pub open spec fn spec_leg_csv(rows: Seq<LegOut>) -> Seq<char> {
    crate::csv::spec_csv(
        seq![spec_leg_header()] + rows.map_values(|r: LegOut| spec_leg_out_fields(r)),
    )
}

/// The milliseconds of the windows of `s` whose two ends are both above
/// `limit` feet.
pub open spec fn spec_ms_above(s: Seq<Position>, limit: int) -> int
    decreases s.len(),
{
    if s.len() <= 1 {
        0
    } else {
        spec_ms_above(s.drop_last(), limit) + if s[s.len() - 2].spec_altitude() > limit
            && s.last().spec_altitude() > limit {
            s.last().datetime_ms - s[s.len() - 2].datetime_ms
        } else {
            0
        }
    }
}

/// For a time-ordered sequence the summed window times are bounded by the
/// whole span.
proof fn lemma_ms_above_bound(s: Seq<Position>, limit: int)
    requires
        crate::trace_month::spec_sorted(s),
    ensures
        0 <= spec_ms_above(s, limit),
        s.len() > 0 ==> spec_ms_above(s, limit) <= s.last().datetime_ms - s[0].datetime_ms,
    decreases s.len(),
{
    if s.len() > 1 {
        assert(crate::trace_month::spec_sorted(s.drop_last()));
        lemma_ms_above_bound(s.drop_last(), limit);
        assert(s.drop_last()[0] == s[0]);
        assert(s.drop_last().last() == s[s.len() - 2]);
    }
}

/// Sums the window milliseconds above `limit` over one leg.
fn ms_above(ps: &Vec<Position>, limit: i64) -> (r: u64)
    requires
        crate::trace_month::spec_sorted(ps@),
        crate::codec::spec_all_encodable(ps@),
    ensures
        r == spec_ms_above(ps@, limit as int),
{
    let n = ps.len();
    let mut total: u64 = 0;
    let mut i: usize = 0;
    if n == 0 {
        return 0;
    }
    proof {
        assert(ps@.take(1).len() <= 1);
        assert(spec_ms_above(ps@.take(1), limit as int) == 0);
    }
    while i < n - 1
        invariant
            n == ps@.len(),
            n > 0,
            i <= n - 1,
            crate::trace_month::spec_sorted(ps@),
            crate::codec::spec_all_encodable(ps@),
            total == spec_ms_above(ps@.take(i as int + 1), limit as int),
            total <= 2_000_000_000_000_000,
        decreases n - i,
    {
        proof {
            assert(ps@.take(i as int + 2).drop_last() =~= ps@.take(i as int + 1));
            assert(crate::codec::spec_encodable(ps@[i as int]));
            assert(crate::codec::spec_encodable(ps@[i as int + 1]));
            assert(crate::trace_month::spec_sorted(ps@.take(i as int + 2)));
            lemma_ms_above_bound(ps@.take(i as int + 2), limit as int);
            assert(ps@.take(i as int + 2)[0] == ps@[0]);
            assert(ps@.take(i as int + 2).last() == ps@[i as int + 1]);
            assert(crate::codec::spec_encodable(ps@[0]));
        }
        let a = ps[i];
        let b = ps[i + 1];
        if a.altitude() > limit && b.altitude() > limit {
            total = total + (b.datetime_ms - a.datetime_ms) as u64;
        }
        i = i + 1;
    }
    proof {
        assert(ps@.take(n as int) =~= ps@);
    }
    total
}

/// A leg can be written as an output row: it holds a position, every
/// position fits the canonical ranges, and the positions are ordered by
/// time.
pub open spec fn spec_leg_writable(l: Seq<Position>) -> bool {
    &&& l.len() > 0
    &&& crate::codec::spec_all_encodable(l)
    &&& crate::trace_month::spec_sorted(l)
}

/// Every leg of the list can be written as an output row.
pub open spec fn spec_legs_writable(s: Seq<Leg>) -> bool {
    forall|i: int| 0 <= i < s.len() ==> spec_leg_writable((#[trigger] s[i]).pos_seq())
}

/// Builds the output rows of the kept legs: for each leg its end
/// positions, its duration, the given distances, the altitude-band times
/// and the CO₂e formula applied to its duration. `gcs[i]` and `lengths[i]`
/// are the great-circle distance and the summed path length of `legs[i]`
/// in metres. Succeeds exactly when every leg is non-empty, in range and
/// ordered by time.
pub fn transform(
    icao_number: &str,
    tail_number: &str,
    aircraft_model: &str,
    gph: u32,
    legs: &Vec<Leg>,
    gcs: &Vec<u64>,
    lengths: &Vec<u64>,
) -> (r: Result<Vec<LegOut>, String>)
    requires
        gph <= 1_000_000,
        gcs@.len() == legs@.len(),
        lengths@.len() == legs@.len(),
    ensures
        r is Ok <==> spec_legs_writable(legs@),
        r matches Ok(rows) ==> {
            &&& rows@.len() == legs@.len()
            &&& forall|i: int|
                0 <= i < rows@.len() ==> spec_row_matches(
                    #[trigger] rows@[i],
                    legs@[i].pos_seq(),
                    icao_number@,
                    tail_number@,
                    aircraft_model@,
                    gph,
                    gcs@[i],
                    lengths@[i],
                )
        },
{
    let mut rows: Vec<LegOut> = Vec::new();
    let mut i: usize = 0;
    while i < legs.len()
        invariant
            gph <= 1_000_000,
            gcs@.len() == legs@.len(),
            lengths@.len() == legs@.len(),
            i <= legs@.len(),
            rows@.len() == i,
            forall|x: int| 0 <= x < i ==> spec_leg_writable((#[trigger] legs@[x]).pos_seq()),
            forall|x: int|
                0 <= x < i ==> spec_row_matches(
                    #[trigger] rows@[x],
                    legs@[x].pos_seq(),
                    icao_number@,
                    tail_number@,
                    aircraft_model@,
                    gph,
                    gcs@[x],
                    lengths@[x],
                ),
        decreases legs@.len() - i,
    {
        let leg = &legs[i];
        let ps = leg.positions();
        if ps.len() == 0 {
            proof {
                assert(!spec_leg_writable(legs@[i as int].pos_seq()));
            }
            return Err("a leg without positions cannot be written".to_owned());
        }
        let mut psv: Vec<Position> = Vec::new();
        let mut t: usize = 0;
        while t < ps.len()
            invariant
                t <= ps@.len(),
                psv@ =~= ps@.take(t as int),
            decreases ps@.len() - t,
        {
            psv.push(ps[t]);
            proof {
                assert(psv@ =~= ps@.take(t as int + 1));
            }
            t = t + 1;
        }
        proof {
            assert(psv@ =~= ps@);
        }
        let mut enc_ok = true;
        let mut e: usize = 0;
        while e < psv.len()
            invariant
                e <= psv@.len(),
                enc_ok <==> forall|x: int|
                    0 <= x < e ==> crate::codec::spec_encodable(#[trigger] psv@[x]),
            decreases psv@.len() - e,
        {
            let ghost was_ok = enc_ok;
            if !crate::trace_month::is_encodable(&psv[e]) {
                enc_ok = false;
                proof {
                    assert(!crate::codec::spec_encodable(psv@[e as int]));
                }
            } else {
                proof {
                    if was_ok {
                        assert forall|x: int|
                            0 <= x < e + 1 implies crate::codec::spec_encodable(
                            #[trigger] psv@[x],
                        ) by {}
                    }
                }
            }
            e = e + 1;
        }
        if !enc_ok {
            proof {
                assert(!crate::codec::spec_all_encodable(psv@));
                assert(!spec_leg_writable(legs@[i as int].pos_seq()));
            }
            return Err("a leg position is out of range".to_owned());
        }
        if !crate::trace_month::is_sorted(&psv) {
            proof {
                assert(!spec_leg_writable(legs@[i as int].pos_seq()));
            }
            return Err("a leg is not ordered by time".to_owned());
        }
        let first = psv[0];
        let last = psv[psv.len() - 1];
        proof {
            assert(crate::codec::spec_encodable(psv@[0]));
            assert(crate::codec::spec_encodable(psv@[psv@.len() - 1]));
        }
        let duration = (last.datetime_ms - first.datetime_ms) as u64;
        let above30 = ms_above(&psv, 30000);
        let above40 = ms_above(&psv, 40000);
        let co2 = crate::private_emissions::leg_co2e_kg(gph, duration);
        let row = LegOut {
            icao_number: icao_number.to_owned(),
            tail_number: tail_number.to_owned(),
            aircraft_model: aircraft_model.to_owned(),
            start_ms: first.datetime_ms,
            start_lat_udeg: first.latitude_udeg,
            start_lon_udeg: first.longitude_udeg,
            start_altitude_ft: first.altitude(),
            end_ms: last.datetime_ms,
            end_lat_udeg: last.latitude_udeg,
            end_lon_udeg: last.longitude_udeg,
            end_altitude_ft: last.altitude(),
            duration_ms: duration,
            distance_m: lengths[i],
            great_circle_distance_m: gcs[i],
            ms_above_30000: above30,
            ms_above_40000: above40,
            co2_kg: co2,
        };
        rows.push(row);
        proof {
            assert(spec_leg_writable(legs@[i as int].pos_seq()));
        }
        i = i + 1;
    }
    Ok(rows)
}

/// The witnesses that tie one written leg table to the store it was read
/// from: the positions `ps` are the ones encoded in the month blob, `ds`
/// are the distances the post-filter saw, and `rows` are the output rows
/// of the kept legs with their distances `gcs` and path lengths `lens`.
/// Every distance is one the distance function `gc` can return on the
/// leg's end positions.
pub open spec fn spec_etl_relation<F: Fn(Position, Position) -> u64>(
    pre: Map<Seq<char>, Seq<u8>>,
    post: Map<Seq<char>, Seq<u8>>,
    icao: Seq<char>,
    tail: Seq<char>,
    model: Seq<char>,
    gph: u32,
    month: Date,
    gc: F,
    ps: Seq<Position>,
    ds: Seq<u64>,
    gcs: Seq<u64>,
    lens: Seq<u64>,
    rows: Seq<LegOut>,
) -> bool {
    let key = crate::trace_month::spec_pk_blob_name(icao, month);
    let ls = crate::legs::legs_of(ps);
    let ks = crate::legs::spec_filter_legs(ls, ds);
    &&& pre.contains_key(key)
    &&& spec_json_positions(pre[key]) == Some(ps)
    &&& crate::trace_month::spec_sorted(ps)
    &&& ds.len() == ls.len()
    &&& forall|i: int|
        0 <= i < ds.len() ==> call_ensures(
            gc,
            ((#[trigger] ls[i])[0], ls[i].last()),
            ds[i],
        )
    &&& rows.len() == ks.len()
    &&& gcs.len() == ks.len()
    &&& lens.len() == ks.len()
    &&& forall|i: int|
        0 <= i < rows.len() ==> call_ensures(gc, ((#[trigger] ks[i])[0], ks[i].last()), gcs[i])
    &&& forall|i: int| 0 <= i < rows.len() ==> spec_path_len(gc, #[trigger] ks[i], lens[i] as int)
    &&& forall|i: int|
        0 <= i < rows.len() ==> spec_row_matches(
            #[trigger] rows[i],
            ks[i],
            icao,
            tail,
            model,
            gph,
            gcs[i],
            lens[i],
        )
    &&& post == pre.insert(
        spec_leg_blob_name(icao, month),
        spec_leg_csv(rows).map_values(|c: char| c as u8),
    )
}

/// A successful run wrote, under the leg blob name, exactly the CSV bytes
/// of the rows of the filtered legs of the positions stored in the month
/// blob, with every distance tied to the given distance function: the leg
/// table read back is the state machine applied to the positions blob.
pub open spec fn spec_etl_written<F: Fn(Position, Position) -> u64>(
    pre: Map<Seq<char>, Seq<u8>>,
    post: Map<Seq<char>, Seq<u8>>,
    icao: Seq<char>,
    tail: Seq<char>,
    model: Seq<char>,
    gph: u32,
    month: Date,
    gc: F,
) -> bool {
    exists|ps: Seq<Position>, ds: Seq<u64>, gcs: Seq<u64>, lens: Seq<u64>, rows: Seq<LegOut>|
        spec_etl_relation(pre, post, icao, tail, model, gph, month, gc, ps, ds, gcs, lens, rows)
}

/// The pair carries the key of some ready pair that is not completed.
pub open spec fn spec_todo_pair(
    ready: Seq<(String, Date)>,
    completed: Seq<(String, Date)>,
    p: (String, Date),
) -> bool {
    &&& exists|j: int| 0 <= j < ready.len() && (#[trigger] ready[j]).0@ == p.0@ && ready[j].1 == p.1
    &&& !spec_pair_in(completed, p.0@, p.1)
}

/// The work order of the leg dataset: ascending month, then icao text.
pub open spec fn spec_task_le(a: (String, Date), b: (String, Date)) -> bool {
    a.1.ord() < b.1.ord() || (a.1.ord() == b.1.ord() && crate::text::spec_str_le(a.0@, b.0@))
}

/// One of two work items comes no later than the other.
proof fn lemma_task_le_total(a: (String, Date), b: (String, Date))
    ensures
        spec_task_le(a, b) || spec_task_le(b, a),
{
    if a.1.ord() == b.1.ord() {
        crate::text::lemma_str_le_total(a.0@, b.0@);
    }
}

/// The work order chains.
proof fn lemma_task_le_trans(a: (String, Date), b: (String, Date), c: (String, Date))
    requires
        spec_task_le(a, b),
        spec_task_le(b, c),
    ensures
        spec_task_le(a, c),
{
    if a.1.ord() == b.1.ord() && b.1.ord() == c.1.ord() {
        crate::text::lemma_str_le_trans(a.0@, b.0@, c.0@);
    }
}

/// Compares two work items in the work order.
fn task_le(a: &(String, Date), b: &(String, Date)) -> (r: bool)
    requires
        a.1.in_bounds(),
        b.1.in_bounds(),
    ensures
        r == spec_task_le(*a, *b),
{
    if a.1.year != b.1.year {
        a.1.year < b.1.year
    } else if a.1.month != b.1.month {
        a.1.month < b.1.month
    } else if a.1.day != b.1.day {
        a.1.day < b.1.day
    } else {
        crate::text::str_le(a.0.as_str(), b.0.as_str())
    }
}

/// The pairs of `ready` that are not in `completed`, sorted ascending by
/// month and then by icao text: the work an invocation still has to do.
/// When every ready pair is already completed, nothing is left, so a
/// second run with no upstream change writes nothing.
#[verifier::spinoff_prover]
#[verifier::rlimit(100)]
pub fn compute_todo(ready: &Vec<(String, Date)>, completed: &Vec<(String, Date)>) -> (r: Vec<
    (String, Date),
>)
    requires
        forall|j: int| 0 <= j < ready@.len() ==> (#[trigger] ready@[j]).1.in_bounds(),
    ensures
        forall|i: int|
            0 <= i < r@.len() ==> spec_todo_pair(ready@, completed@, #[trigger] r@[i]),
        forall|j: int|
            0 <= j < ready@.len() && !spec_pair_in(
                completed@,
                (#[trigger] ready@[j]).0@,
                ready@[j].1,
            ) ==> spec_pair_in(r@, ready@[j].0@, ready@[j].1),
        (forall|j: int|
            0 <= j < ready@.len() ==> spec_pair_in(
                completed@,
                (#[trigger] ready@[j]).0@,
                ready@[j].1,
            )) ==> r@.len() == 0,
        forall|i: int, k: int|
            0 <= i < k < r@.len() ==> spec_task_le(#[trigger] r@[i], #[trigger] r@[k]),
{
    let mut todo: Vec<(String, Date)> = Vec::new();
    let mut j: usize = 0;
    while j < ready.len()
        invariant
            j <= ready@.len(),
            forall|x: int| 0 <= x < ready@.len() ==> (#[trigger] ready@[x]).1.in_bounds(),
            forall|i: int|
                0 <= i < todo@.len() ==> spec_todo_pair(ready@, completed@, #[trigger] todo@[i]),
            forall|i: int| 0 <= i < todo@.len() ==> (#[trigger] todo@[i]).1.in_bounds(),
            forall|x: int|
                0 <= x < j && !spec_pair_in(
                    completed@,
                    (#[trigger] ready@[x]).0@,
                    ready@[x].1,
                ) ==> spec_pair_in(todo@, ready@[x].0@, ready@[x].1),
        decreases ready@.len() - j,
    {
        let pair = &ready[j];
        if !pair_in(completed, pair) {
            let ghost todo0 = todo@;
            todo.push((pair.0.clone(), pair.1));
            proof {
                assert(todo@.drop_last() =~= todo0);
                assert(todo@.last().0@ == ready@[j as int].0@ && todo@.last().1 == ready@[
                    j as int].1);
                assert forall|x: int|
                    0 <= x < j + 1 && !spec_pair_in(
                        completed@,
                        (#[trigger] ready@[x]).0@,
                        ready@[x].1,
                    ) implies spec_pair_in(todo@, ready@[x].0@, ready@[x].1) by {
                    if x < j {
                        let w = choose|w: int|
                            0 <= w < todo0.len() && (#[trigger] todo0[w]).0@ == ready@[x].0@
                                && todo0[w].1 == ready@[x].1;
                        assert(todo@[w].0@ == ready@[x].0@ && todo@[w].1 == ready@[x].1);
                    } else {
                        assert(todo@[todo@.len() - 1].0@ == ready@[x].0@);
                    }
                }
            }
        }
        j = j + 1;
    }
    proof {
        if forall|x: int|
            0 <= x < ready@.len() ==> spec_pair_in(
                completed@,
                (#[trigger] ready@[x]).0@,
                ready@[x].1,
            ) {
            if todo@.len() > 0 {
                assert(!spec_pair_in(completed@, todo@[0].0@, todo@[0].1));
                let x = choose|x: int|
                    0 <= x < ready@.len() && (#[trigger] ready@[x]).0@ == todo@[0].0@ && ready@[
                        x].1 == todo@[0].1;
                assert(spec_pair_in(completed@, ready@[x].0@, ready@[x].1));
            }
        }
    }
    let ghost n0 = todo@.len() as int;
    let mut rest = todo;
    let mut r: Vec<(String, Date)> = Vec::new();
    while rest.len() > 0
        invariant
            r@.len() + rest@.len() == n0,
            (forall|x: int|
                0 <= x < ready@.len() ==> spec_pair_in(
                    completed@,
                    (#[trigger] ready@[x]).0@,
                    ready@[x].1,
                )) ==> n0 == 0,
            forall|i: int|
                0 <= i < r@.len() ==> spec_todo_pair(ready@, completed@, #[trigger] r@[i]),
            forall|i: int|
                0 <= i < rest@.len() ==> spec_todo_pair(ready@, completed@, #[trigger] rest@[i]),
            forall|i: int| 0 <= i < r@.len() ==> (#[trigger] r@[i]).1.in_bounds(),
            forall|i: int| 0 <= i < rest@.len() ==> (#[trigger] rest@[i]).1.in_bounds(),
            forall|x: int|
                0 <= x < ready@.len() && !spec_pair_in(
                    completed@,
                    (#[trigger] ready@[x]).0@,
                    ready@[x].1,
                ) ==> spec_pair_in(r@, ready@[x].0@, ready@[x].1) || spec_pair_in(
                    rest@,
                    ready@[x].0@,
                    ready@[x].1,
                ),
            forall|i: int, k: int|
                0 <= i < k < r@.len() ==> spec_task_le(#[trigger] r@[i], #[trigger] r@[k]),
            forall|a: int, b: int|
                0 <= a < r@.len() && 0 <= b < rest@.len() ==> spec_task_le(
                    #[trigger] r@[a],
                    #[trigger] rest@[b],
                ),
        decreases rest@.len(),
    {
        let mut min_idx: usize = 0;
        let mut j2: usize = 1;
        proof {
            lemma_task_le_total(rest@[0], rest@[0]);
        }
        while j2 < rest.len()
            invariant
                rest@.len() > 0,
                min_idx < j2 <= rest@.len(),
                forall|i: int| 0 <= i < rest@.len() ==> (#[trigger] rest@[i]).1.in_bounds(),
                forall|b: int| 0 <= b < j2 ==> spec_task_le(rest@[min_idx as int], #[trigger] rest@[b]),
            decreases rest@.len() - j2,
        {
            if !task_le(&rest[min_idx], &rest[j2]) {
                proof {
                    lemma_task_le_total(rest@[min_idx as int], rest@[j2 as int]);
                    assert forall|b: int| 0 <= b < j2 + 1 implies spec_task_le(
                        rest@[j2 as int],
                        #[trigger] rest@[b],
                    ) by {
                        if b < j2 {
                            lemma_task_le_trans(
                                rest@[j2 as int],
                                rest@[min_idx as int],
                                rest@[b],
                            );
                        } else {
                            lemma_task_le_total(rest@[j2 as int], rest@[j2 as int]);
                        }
                    }
                }
                min_idx = j2;
            } else {
                proof {
                    assert forall|b: int| 0 <= b < j2 + 1 implies spec_task_le(
                        rest@[min_idx as int],
                        #[trigger] rest@[b],
                    ) by {}
                }
            }
            j2 = j2 + 1;
        }
        let ghost rest0 = rest@;
        let p = rest.remove(min_idx);
        let ghost r0 = r@;
        r.push(p);
        proof {
            assert(p == rest0[min_idx as int]);
            assert(rest@ =~= rest0.remove(min_idx as int));
            assert(r@.drop_last() =~= r0);
            assert(spec_task_le(p, p)) by {
                lemma_task_le_total(p, p);
            }
            assert forall|b: int|
                0 <= b < rest@.len() implies spec_todo_pair(
                ready@,
                completed@,
                #[trigger] rest@[b],
            ) && rest@[b].1.in_bounds() && spec_task_le(p, rest@[b]) by {
                if b < min_idx {
                    assert(rest@[b] == rest0[b]);
                } else {
                    assert(rest@[b] == rest0[b + 1]);
                }
            }
            assert forall|i: int, k: int|
                0 <= i < k < r@.len() implies spec_task_le(#[trigger] r@[i], #[trigger] r@[k]) by {
                if k < r@.len() - 1 {
                    assert(r@[i] == r0[i] && r@[k] == r0[k]);
                } else {
                    assert(r@[k] == p);
                    if i < r@.len() - 1 {
                        assert(r@[i] == r0[i]);
                    }
                }
            }
            assert forall|x: int|
                0 <= x < ready@.len() && !spec_pair_in(
                    completed@,
                    (#[trigger] ready@[x]).0@,
                    ready@[x].1,
                ) implies spec_pair_in(r@, ready@[x].0@, ready@[x].1) || spec_pair_in(
                rest@,
                ready@[x].0@,
                ready@[x].1,
            ) by {
                if spec_pair_in(r0, ready@[x].0@, ready@[x].1) {
                    let w = choose|w: int|
                        0 <= w < r0.len() && (#[trigger] r0[w]).0@ == ready@[x].0@ && r0[w].1
                            == ready@[x].1;
                    assert(r@[w].0@ == ready@[x].0@ && r@[w].1 == ready@[x].1);
                } else if spec_pair_in(rest0, ready@[x].0@, ready@[x].1) {
                    let w = choose|w: int|
                        0 <= w < rest0.len() && (#[trigger] rest0[w]).0@ == ready@[x].0@ && rest0[
                            w].1 == ready@[x].1;
                    if w == min_idx {
                        assert(r@[r@.len() - 1].0@ == ready@[x].0@ && r@[r@.len() - 1].1
                            == ready@[x].1);
                    } else if w < min_idx {
                        assert(rest@[w].0@ == ready@[x].0@ && rest@[w].1 == ready@[x].1);
                    } else {
                        assert(rest@[w - 1].0@ == ready@[x].0@ && rest@[w - 1].1 == ready@[x].1);
                    }
                }
            }
        }
    }
    r
}

/// Some pair of `s` reads `(icao, month)`.
pub open spec fn spec_pair_in(s: Seq<(String, Date)>, icao: Seq<char>, month: Date) -> bool {
    exists|i: int| 0 <= i < s.len() && (#[trigger] s[i]).0@ == icao && s[i].1 == month
}

/// Whether `pair` occurs in `s`.
fn pair_in(s: &Vec<(String, Date)>, pair: &(String, Date)) -> (r: bool)
    ensures
        r == spec_pair_in(s@, pair.0@, pair.1),
{
    let mut i: usize = 0;
    while i < s.len()
        invariant
            i <= s@.len(),
            forall|x: int| 0 <= x < i ==> !((#[trigger] s@[x]).0@ == pair.0@ && s@[x].1 == pair.1),
        decreases s@.len() - i,
    {
        if crate::text::str_eq(s[i].0.as_str(), pair.0.as_str()) && s[i].1 == pair.1 {
            proof {
                assert(s@[i as int].0@ == pair.0@ && s@[i as int].1 == pair.1);
            }
            return true;
        }
        i = i + 1;
    }
    false
}

/// The sum of the window distances.
pub open spec fn spec_sum_u64(ws: Seq<u64>) -> int
    decreases ws.len(),
{
    if ws.len() == 0 {
        0
    } else {
        spec_sum_u64(ws.drop_last()) + ws.last()
    }
}

/// `total` is the sum of one distance per consecutive window of `l`, each
/// a value the distance function can return on that window.
pub open spec fn spec_path_len<F: Fn(Position, Position) -> u64>(
    gc: F,
    l: Seq<Position>,
    total: int,
) -> bool {
    exists|ws: Seq<u64>|
        #![trigger spec_sum_u64(ws)]
        {
            &&& ws.len() == (if l.len() == 0 {
                0int
            } else {
                l.len() - 1
            })
            &&& forall|w: int| 0 <= w < ws.len() ==> call_ensures(gc, (l[w], l[w + 1]), #[trigger] ws[w])
            &&& total == spec_sum_u64(ws)
        }
}

/// The great-circle distances between the ends of each leg, by the given
/// distance function.
fn leg_distances<F: Fn(Position, Position) -> u64>(legs: &Vec<Leg>, gc: &F) -> (r: Result<
    Vec<u64>,
    String,
>)
    requires
        forall|a: Position, b: Position| #[trigger] call_requires(*gc, (a, b)),
        forall|i: int| 0 <= i < legs@.len() ==> (#[trigger] legs@[i]).pos_seq().len() > 0,
    ensures
        r matches Ok(ds) ==> ds@.len() == legs@.len() && forall|i: int|
            0 <= i < legs@.len() ==> call_ensures(
                *gc,
                ((#[trigger] legs@[i]).pos_seq()[0], legs@[i].pos_seq().last()),
                ds@[i],
            ),
{
    let mut ds: Vec<u64> = Vec::new();
    let mut i: usize = 0;
    while i < legs.len()
        invariant
            forall|a: Position, b: Position| #[trigger] call_requires(*gc, (a, b)),
            forall|x: int| 0 <= x < legs@.len() ==> (#[trigger] legs@[x]).pos_seq().len() > 0,
            i <= legs@.len(),
            ds@.len() == i,
            forall|x: int|
                0 <= x < i ==> call_ensures(
                    *gc,
                    ((#[trigger] legs@[x]).pos_seq()[0], legs@[x].pos_seq().last()),
                    ds@[x],
                ),
        decreases legs@.len() - i,
    {
        let leg = &legs[i];
        let d = gc(*leg.from(), *leg.to());
        ds.push(d);
        i = i + 1;
    }
    Ok(ds)
}

/// The summed two-dimensional path length of each leg in metres, by the
/// given distance function; errors when a sum exceeds the range.
fn leg_lengths<F: Fn(Position, Position) -> u64>(legs: &Vec<Leg>, gc: &F) -> (r: Result<
    Vec<u64>,
    String,
>)
    requires
        forall|a: Position, b: Position| #[trigger] call_requires(*gc, (a, b)),
    ensures
        r matches Ok(ls) ==> ls@.len() == legs@.len() && forall|i: int|
            0 <= i < legs@.len() ==> spec_path_len(
                *gc,
                (#[trigger] legs@[i]).pos_seq(),
                ls@[i] as int,
            ),
{
    let mut ls: Vec<u64> = Vec::new();
    let mut i: usize = 0;
    while i < legs.len()
        invariant
            forall|a: Position, b: Position| #[trigger] call_requires(*gc, (a, b)),
            i <= legs@.len(),
            ls@.len() == i,
            forall|x: int|
                0 <= x < i ==> spec_path_len(*gc, (#[trigger] legs@[x]).pos_seq(), ls@[x] as int),
        decreases legs@.len() - i,
    {
        let ps = legs[i].positions();
        let mut total: u128 = 0;
        let mut w: usize = 0;
        let ghost mut ws: Seq<u64> = Seq::empty();
        proof {
            assert(total as int == spec_sum_u64(ws));
        }
        if ps.len() > 0 {
            while w < ps.len() - 1
                invariant
                    forall|a: Position, b: Position| #[trigger] call_requires(*gc, (a, b)),
                    ps@.len() > 0,
                    ps@ == legs@[i as int].pos_seq(),
                    i < legs@.len(),
                    w <= ps@.len() - 1,
                    ws.len() == w,
                    forall|x: int|
                        0 <= x < ws.len() ==> call_ensures(
                            *gc,
                            (ps@[x], ps@[x + 1]),
                            #[trigger] ws[x],
                        ),
                    total as int == spec_sum_u64(ws),
                    total <= w * 0x1_0000_0000_0000_0000,
                decreases ps@.len() - w,
            {
                let d = gc(ps[w], ps[w + 1]);
                let ghost ws0 = ws;
                total = total + d as u128;
                proof {
                    ws = ws0.push(d);
                    assert(ws.drop_last() =~= ws0);
                    assert(ws.last() == d);
                }
                w = w + 1;
            }
        }
        if total > u64::MAX as u128 {
            return Err("a leg length exceeds the supported range".to_owned());
        }
        let t64: u64 = total as u64;
        proof {
            assert(spec_sum_u64(ws) == t64 as int);
            assert(spec_path_len(*gc, legs@[i as int].pos_seq(), t64 as int));
        }
        ls.push(t64);
        i = i + 1;
    }
    Ok(ls)
}

/// Runs one work item of the leg dataset: reads the month positions of the
/// aircraft, identifies and filters its legs, builds the output rows, and
/// writes their CSV bytes under the per-month leg blob name. `gc` computes
/// the great-circle distance between two positions in metres.
#[verifier::spinoff_prover]
#[verifier::rlimit(100)]
pub fn etl_task<T: BlobStorageProvider, F: Fn(Position, Position) -> u64>(
    icao_number: &str,
    tail_number: &str,
    aircraft_model: &str,
    gph: u32,
    month: Date,
    client: &mut T,
    gc: F,
) -> (r: Result<(), String>)
    requires
        month.valid(),
        month.day == 1,
        gph <= 1_000_000,
        forall|a: Position, b: Position| #[trigger] call_requires(gc, (a, b)),
    ensures
        final(client).spec_can_put() == old(client).spec_can_put(),
        r matches Ok(_) ==> spec_etl_written(
            old(client).blobs(),
            final(client).blobs(),
            icao_number@,
            tail_number@,
            aircraft_model@,
            gph,
            month,
            gc,
        ),
        r matches Err(_) ==> final(client).blobs() == old(client).blobs(),
{
    // the free-text columns must not break the record grammar
    if !crate::csv::is_plain_field(icao_number) || !crate::csv::is_plain_field(tail_number)
        || !crate::csv::is_plain_field(aircraft_model) {
        return Err("a text field holds a separator, a quote or a line break".to_owned());
    }
    let positions = match crate::trace_month::get_month_positions(icao_number, month, &*client) {
        Ok(ps) => ps,
        Err(e) => {
            return Err(e);
        },
    };
    let ghost psv = positions@;
    let ghost pre = client.blobs();
    let identified = Legs::new(positions);
    let raw = identified.into_legs();
    proof {
        crate::legs::lemma_legs_of_nonempty(psv);
        assert forall|i: int|
            0 <= i < raw@.len() implies (#[trigger] raw@[i]).pos_seq().len() > 0 by {
            assert(crate::legs::legs_views(raw@)[i] == raw@[i].pos_seq());
        }
    }
    let dists = match leg_distances(&raw, &gc) {
        Ok(ds) => ds,
        Err(e) => {
            return Err(e);
        },
    };
    let kept = filter_legs(&raw, &dists);
    proof {
        assert forall|i: int|
            0 <= i < kept@.len() implies (#[trigger] kept@[i]).pos_seq().len() > 0 by {}
    }
    let kept_dists = match leg_distances(&kept, &gc) {
        Ok(ds) => ds,
        Err(e) => {
            return Err(e);
        },
    };
    let kept_lengths = match leg_lengths(&kept, &gc) {
        Ok(ls) => ls,
        Err(e) => {
            return Err(e);
        },
    };
    let rows = match transform(
        icao_number,
        tail_number,
        aircraft_model,
        gph,
        &kept,
        &kept_dists,
        &kept_lengths,
    ) {
        Ok(rows) => rows,
        Err(e) => {
            return Err(e);
        },
    };
    let mut fields: Vec<Vec<String>> = Vec::new();
    fields.push(leg_header_fields());
    let mut i: usize = 0;
    while i < rows.len()
        invariant
            i + 1 == fields@.len(),
            i <= rows@.len(),
            crate::csv::fields_view(fields@[0]@) == spec_leg_header(),
            spec_legs_writable(kept@),
            rows@.len() == kept@.len(),
            forall|x: int|
                0 <= x < rows@.len() ==> spec_row_matches(
                    #[trigger] rows@[x],
                    kept@[x].pos_seq(),
                    icao_number@,
                    tail_number@,
                    aircraft_model@,
                    gph,
                    kept_dists@[x],
                    kept_lengths@[x],
                ),
            forall|x: int|
                1 <= x <= i ==> crate::csv::fields_view((#[trigger] fields@[x])@)
                    == spec_leg_out_fields(rows@[x - 1]),
        decreases rows@.len() - i,
    {
        proof {
            let l = kept@[i as int].pos_seq();
            assert(spec_row_matches(
                rows@[i as int],
                l,
                icao_number@,
                tail_number@,
                aircraft_model@,
                gph,
                kept_dists@[i as int],
                kept_lengths@[i as int],
            ));
            assert(spec_leg_writable(l));
            lemma_ms_above_bound(l, 30000);
            lemma_ms_above_bound(l, 40000);
        }
        fields.push(leg_out_fields(&rows[i]));
        i = i + 1;
    }
    let text = crate::csv::serialize(&fields);
    proof {
        assert(crate::csv::rows_fields_view(fields@) =~= seq![spec_leg_header()]
            + rows@.map_values(|r: LegOut| spec_leg_out_fields(r)));
        assert(text@ == spec_leg_csv(rows@));
    }
    let bytes = match ascii_string_to_bytes(&text) {
        Some(b) => b,
        None => {
            return Err("the leg table holds text that is not ASCII".to_owned());
        },
    };
    let key = leg_blob_name(icao_number, month);
    match client.put(key.as_str(), &bytes) {
        Ok(_) => {
            proof {
                let ghost ls = crate::legs::legs_of(psv);
                let ghost ks = crate::legs::spec_filter_legs(ls, dists@);
                assert(crate::legs::legs_views(raw@).len() == raw@.len());
                assert forall|i2: int|
                    0 <= i2 < dists@.len() implies call_ensures(
                    gc,
                    ((#[trigger] ls[i2])[0], ls[i2].last()),
                    dists@[i2],
                ) by {
                    assert(crate::legs::legs_views(raw@)[i2] == raw@[i2].pos_seq());
                    assert(ls[i2] == raw@[i2].pos_seq());
                }
                assert forall|i2: int|
                    0 <= i2 < rows@.len() implies call_ensures(
                    gc,
                    ((#[trigger] ks[i2])[0], ks[i2].last()),
                    kept_dists@[i2],
                ) && spec_path_len(gc, ks[i2], kept_lengths@[i2] as int) by {
                    assert(crate::legs::legs_views(kept@)[i2] == kept@[i2].pos_seq());
                    assert(ks[i2] == kept@[i2].pos_seq());
                }
                assert forall|i2: int|
                    0 <= i2 < rows@.len() implies spec_row_matches(
                    #[trigger] rows@[i2],
                    crate::legs::spec_filter_legs(crate::legs::legs_of(psv), dists@)[i2],
                    icao_number@,
                    tail_number@,
                    aircraft_model@,
                    gph,
                    kept_dists@[i2],
                    kept_lengths@[i2],
                ) by {
                    assert(crate::legs::legs_views(kept@)[i2] == kept@[i2].pos_seq());
                }
                assert(spec_etl_relation(
                    pre,
                    client.blobs(),
                    icao_number@,
                    tail_number@,
                    aircraft_model@,
                    gph,
                    month,
                    gc,
                    psv,
                    dists@,
                    kept_dists@,
                    kept_lengths@,
                    rows@,
                ));
            }
            Ok(())
        },
        Err(e) => Err(e),
    }
}

/// The years of the work items, in first-occurrence order.
pub open spec fn spec_years_of(req: Seq<(String, Date)>) -> Seq<i32>
    decreases req.len(),
{
    if req.len() == 0 {
        Seq::empty()
    } else {
        let init = spec_years_of(req.drop_last());
        if init.contains(req.last().1.year) {
            init
        } else {
            init.push(req.last().1.year)
        }
    }
}

/// The first index of `x` in `b`, or the length of `b` when it is absent.
pub open spec fn spec_find_byte(b: Seq<u8>, x: u8) -> int
    decreases b.len(),
{
    if b.len() == 0 {
        0
    } else if b[0] == x {
        0
    } else {
        1 + spec_find_byte(b.skip(1), x)
    }
}

/// Position and range facts about [`spec_find_byte`].
proof fn lemma_find_byte(b: Seq<u8>, x: u8)
    ensures
        0 <= spec_find_byte(b, x) <= b.len(),
        spec_find_byte(b, x) < b.len() ==> b[spec_find_byte(b, x)] == x,
        forall|i: int| 0 <= i < spec_find_byte(b, x) ==> b[i] != x,
    decreases b.len(),
{
    if b.len() == 0 {
    } else if b[0] == x {
    } else {
        lemma_find_byte(b.skip(1), x);
        assert forall|i: int| 0 <= i < spec_find_byte(b, x) implies b[i] != x by {
            if i > 0 {
                assert(b.skip(1)[i - 1] != x);
            }
        }
    }
}

/// The records after the header row: the bytes after the first line feed,
/// or nothing when no line feed closes a header.
pub open spec fn spec_after_header(b: Seq<u8>) -> Seq<u8> {
    let k = spec_find_byte(b, 10);
    if k < b.len() {
        b.skip(k + 1)
    } else {
        Seq::empty()
    }
}

/// Returns the index of the first line feed in `b`, or its length.
fn find_line_feed(b: &Vec<u8>) -> (r: usize)
    ensures
        r == spec_find_byte(b@, 10),
{
    let n = b.len();
    let mut i: usize = 0;
    while i < n
        invariant
            i <= n,
            n == b@.len(),
            forall|j: int| 0 <= j < i ==> b@[j] != 10,
        decreases n - i,
    {
        if b[i] == 10 {
            proof {
                lemma_find_byte(b@, 10);
            }
            return i;
        }
        i = i + 1;
    }
    proof {
        lemma_find_byte(b@, 10);
    }
    i
}

/// The concatenated records of the per-month leg tables of year `y` that
/// the store `pre` holds, in the order of `req`, each without its header
/// row; a missing table contributes nothing.
pub open spec fn spec_year_bytes(
    pre: Map<Seq<char>, Seq<u8>>,
    req: Seq<(String, Date)>,
    y: i32,
) -> Seq<u8>
    decreases req.len(),
{
    if req.len() == 0 {
        Seq::empty()
    } else {
        spec_year_bytes(pre, req.drop_last(), y) + ({
            let key = spec_leg_blob_name(req.last().0@, req.last().1);
            if req.last().1.year == y && pre.contains_key(key) {
                spec_after_header(pre[key])
            } else {
                Seq::empty()
            }
        })
    }
}

/// The yearly roll-up blob of year `y`: one header row, then the records
/// of every stored per-month leg table of the year.
pub open spec fn spec_year_blob(
    pre: Map<Seq<char>, Seq<u8>>,
    req: Seq<(String, Date)>,
    y: i32,
) -> Seq<u8> {
    crate::csv::spec_csv_row(spec_leg_header()).map_values(|c: char| c as u8) + spec_year_bytes(
        pre,
        req,
        y,
    )
}

/// How many work items fall in year `y`.
pub open spec fn spec_year_total(req: Seq<(String, Date)>, y: i32) -> int
    decreases req.len(),
{
    if req.len() == 0 {
        0
    } else {
        spec_year_total(req.drop_last(), y) + if req.last().1.year == y {
            1int
        } else {
            0int
        }
    }
}

/// How many work items of year `y` have their leg table in the store.
pub open spec fn spec_year_done(
    pre: Map<Seq<char>, Seq<u8>>,
    req: Seq<(String, Date)>,
    y: i32,
) -> int
    decreases req.len(),
{
    if req.len() == 0 {
        0
    } else {
        spec_year_done(pre, req.drop_last(), y) + if req.last().1.year == y
            && pre.contains_key(spec_leg_blob_name(req.last().0@, req.last().1)) {
            1int
        } else {
            0int
        }
    }
}

/// The store after the yearly roll-ups of `ys`, each read out of `pre`,
/// are written over `pre`.
pub open spec fn spec_store_with_years(
    pre: Map<Seq<char>, Seq<u8>>,
    req: Seq<(String, Date)>,
    ys: Seq<i32>,
) -> Map<Seq<char>, Seq<u8>>
    decreases ys.len(),
{
    if ys.len() == 0 {
        pre
    } else {
        spec_store_with_years(pre, req, ys.drop_last()).insert(
            spec_year_blob_name(ys.last() as int),
            spec_year_blob(pre, req, ys.last()),
        )
    }
}

/// One year's entry of the status manifest.
pub open spec fn spec_status_entry(
    pre: Map<Seq<char>, Seq<u8>>,
    req: Seq<(String, Date)>,
    y: i32,
) -> Seq<char> {
    "\""@ + spec_dec(y as int) + "\":{\"icao_months_to_process\":"@ + spec_dec(
        spec_year_total(req, y),
    ) + ",\"icao_months_processed\":"@ + spec_dec(spec_year_done(pre, req, y))
        + ",\"url\":\"https://private-jets.fra1.digitaloceanspaces.com/"@ + spec_year_blob_name(
        y as int,
    ) + "\"}"@
}

/// The entries of the status manifest, one per year, comma separated.
pub open spec fn spec_status_entries(
    pre: Map<Seq<char>, Seq<u8>>,
    req: Seq<(String, Date)>,
    ys: Seq<i32>,
) -> Seq<char>
    decreases ys.len(),
{
    if ys.len() == 0 {
        Seq::empty()
    } else {
        spec_status_entries(pre, req, ys.drop_last()) + (if ys.len() > 1 {
            seq![',']
        } else {
            Seq::<char>::empty()
        }) + spec_status_entry(pre, req, ys.last())
    }
}

/// The status manifest text: a JSON object with one entry per year.
pub open spec fn spec_status_text(pre: Map<Seq<char>, Seq<u8>>, req: Seq<(String, Date)>) -> Seq<
    char,
> {
    seq!['{'] + spec_status_entries(pre, req, spec_years_of(req)) + seq!['}']
}

/// A per-month leg table name differs from every yearly roll-up name: one
/// path writes `data`, the other `all`, at the same offset.
proof fn lemma_leg_year_names_differ(ic: Seq<char>, m: Date, y: int)
    ensures
        spec_leg_blob_name(ic, m) != spec_year_blob_name(y),
{
    broadcast use vstd::seq_lib::group_seq_properties;

    reveal_strlit("leg/v2/data/month=");
    reveal_strlit("leg/v2/all/year=");
    let a = spec_leg_blob_name(ic, m);
    let b = spec_year_blob_name(y);
    assert(a[7] == 'd');
    assert(b[7] == 'a');
}

/// Writing yearly roll-ups leaves every per-month leg table untouched.
proof fn lemma_store_with_years_at_leg(
    pre: Map<Seq<char>, Seq<u8>>,
    req: Seq<(String, Date)>,
    ys: Seq<i32>,
    ic: Seq<char>,
    m: Date,
)
    ensures
        spec_store_with_years(pre, req, ys).contains_key(spec_leg_blob_name(ic, m))
            == pre.contains_key(spec_leg_blob_name(ic, m)),
        pre.contains_key(spec_leg_blob_name(ic, m)) ==> spec_store_with_years(pre, req, ys)[
            spec_leg_blob_name(ic, m)] == pre[spec_leg_blob_name(ic, m)],
    decreases ys.len(),
{
    if ys.len() > 0 {
        lemma_store_with_years_at_leg(pre, req, ys.drop_last(), ic, m);
        lemma_leg_year_names_differ(ic, m, ys.last() as int);
    }
}

/// Groups the work items by year, concatenates the per-month leg tables of
/// each year that the store holds into the yearly roll-up blob, and writes
/// the status manifest naming, for each year, how many items there were to
/// process and how many were found written. On success the store is the
/// old one with exactly the yearly roll-ups and the manifest written, each
/// computed from the old store's contents.
#[verifier::spinoff_prover]
#[verifier::rlimit(100)]
pub fn aggregate<T: BlobStorageProvider>(required: &Vec<(String, Date)>, client: &mut T) -> (r:
    Result<(), String>)
    requires
        forall|i: int| 0 <= i < required@.len() ==> (#[trigger] required@[i]).1.valid(),
    ensures
        final(client).spec_can_put() == old(client).spec_can_put(),
        r matches Ok(_) ==> final(client).blobs() == spec_store_with_years(
            old(client).blobs(),
            required@,
            spec_years_of(required@),
        ).insert(
            "leg/v2/status.json"@,
            spec_status_text(old(client).blobs(), required@).map_values(|c: char| c as u8),
        ),
{
    proof {
        reveal_strlit("{");
        reveal_strlit("}");
        reveal_strlit(",");
        reveal_strlit("\"");
        reveal_strlit("\":{\"icao_months_to_process\":");
        reveal_strlit(",\"icao_months_processed\":");
        reveal_strlit(",\"url\":\"https://private-jets.fra1.digitaloceanspaces.com/");
        reveal_strlit("\"}");
    }
    let ghost pre0 = old(client).blobs();
    let mut years: Vec<i32> = Vec::new();
    let mut i: usize = 0;
    proof {
        assert(required@.take(0) =~= Seq::<(String, Date)>::empty());
        assert(years@ =~= spec_years_of(required@.take(0)));
    }
    while i < required.len()
        invariant
            i <= required@.len(),
            forall|x: int| 0 <= x < years@.len() ==> 0 <= #[trigger] years@[x] <= 9999,
            forall|x: int| 0 <= x < required@.len() ==> (#[trigger] required@[x]).1.valid(),
            years@ == spec_years_of(required@.take(i as int)),
        decreases required@.len() - i,
    {
        let y = required[i].1.year;
        let mut seen = false;
        let mut j: usize = 0;
        while j < years.len()
            invariant
                j <= years@.len(),
                seen <==> exists|k: int| 0 <= k < j && #[trigger] years@[k] == y,
            decreases years@.len() - j,
        {
            if years[j] == y {
                seen = true;
            }
            j = j + 1;
        }
        proof {
            assert(seen == years@.contains(y));
            assert(required@.take(i as int + 1).drop_last() =~= required@.take(i as int));
            assert(required@.take(i as int + 1).last() == required@[i as int]);
        }
        if !seen {
            years.push(y);
        }
        proof {
            assert(years@ =~= spec_years_of(required@.take(i as int + 1)));
        }
        i = i + 1;
    }
    proof {
        assert(required@.take(required@.len() as int) =~= required@);
        assert(years@ == spec_years_of(required@));
    }
    let mut hfields: Vec<Vec<String>> = Vec::new();
    hfields.push(leg_header_fields());
    let header_text = crate::csv::serialize(&hfields);
    let header_bytes = match ascii_string_to_bytes(&header_text) {
        Some(b) => b,
        None => {
            return Err("the header row holds text that is not ASCII".to_owned());
        },
    };
    proof {
        assert(crate::csv::rows_fields_view(hfields@) =~= seq![spec_leg_header()]);
        assert(seq![spec_leg_header()].drop_last() =~= Seq::<Seq<Seq<char>>>::empty());
        assert(crate::csv::spec_csv(Seq::<Seq<Seq<char>>>::empty()) =~= Seq::<char>::empty());
        assert(crate::csv::spec_csv(seq![spec_leg_header()]) =~= Seq::<char>::empty()
            + crate::csv::spec_csv_row(spec_leg_header()));
        assert(header_text@ =~= crate::csv::spec_csv_row(spec_leg_header()));
        assert(header_bytes@ == crate::csv::spec_csv_row(spec_leg_header()).map_values(
            |c: char| c as u8,
        ));
    }
    let mut status = "{".to_owned();
    let mut yi: usize = 0;
    proof {
        assert(years@.take(0) =~= Seq::<i32>::empty());
        assert(client.blobs() =~= spec_store_with_years(pre0, required@, years@.take(0)));
        assert(status@ =~= seq!['{'] + spec_status_entries(pre0, required@, years@.take(0)));
    }
    while yi < years.len()
        invariant
            yi <= years@.len(),
            forall|x: int| 0 <= x < years@.len() ==> 0 <= #[trigger] years@[x] <= 9999,
            forall|x: int| 0 <= x < required@.len() ==> (#[trigger] required@[x]).1.valid(),
            client.spec_can_put() == old(client).spec_can_put(),
            pre0 == old(client).blobs(),
            years@ == spec_years_of(required@),
            client.blobs() == spec_store_with_years(pre0, required@, years@.take(yi as int)),
            status@ == seq!['{'] + spec_status_entries(pre0, required@, years@.take(yi as int)),
            header_bytes@ == crate::csv::spec_csv_row(spec_leg_header()).map_values(
                |c: char| c as u8,
            ),
        decreases years@.len() - yi,
    {
        let year = years[yi];
        let mut buf: Vec<u8> = Vec::new();
        buf.extend_from_slice(header_bytes.as_slice());
        let mut processed: u64 = 0;
        let mut total: u64 = 0;
        let mut j: usize = 0;
        proof {
            assert(required@.take(0) =~= Seq::<(String, Date)>::empty());
            assert(buf@ =~= header_bytes@ + spec_year_bytes(pre0, required@.take(0), year));
        }
        while j < required.len()
            invariant
                j <= required@.len(),
                0 <= year <= 9999,
                total <= j,
                processed <= j,
                forall|x: int| 0 <= x < required@.len() ==> (#[trigger] required@[x]).1.valid(),
                client.spec_can_put() == old(client).spec_can_put(),
                pre0 == old(client).blobs(),
                yi < years@.len(),
                client.blobs() == spec_store_with_years(pre0, required@, years@.take(yi as int)),
                header_bytes@ == crate::csv::spec_csv_row(spec_leg_header()).map_values(
                    |c: char| c as u8,
                ),
                buf@ == header_bytes@ + spec_year_bytes(pre0, required@.take(j as int), year),
                total == spec_year_total(required@.take(j as int), year),
                processed == spec_year_done(pre0, required@.take(j as int), year),
            decreases required@.len() - j,
        {
            proof {
                assert(required@.take(j as int + 1).drop_last() =~= required@.take(j as int));
                assert(required@.take(j as int + 1).last() == required@[j as int]);
            }
            if required[j].1.year == year {
                total = total + 1;
                let key = leg_blob_name(required[j].0.as_str(), required[j].1);
                proof {
                    lemma_store_with_years_at_leg(
                        pre0,
                        required@,
                        years@.take(yi as int),
                        required@[j as int].0@,
                        required@[j as int].1,
                    );
                }
                match client.maybe_get(key.as_str()) {
                    Ok(Some(b)) => {
                        let ghost buf0 = buf@;
                        let k = find_line_feed(&b);
                        if k < b.len() {
                            let mut t: usize = k + 1;
                            while t < b.len()
                                invariant
                                    k + 1 <= t <= b@.len(),
                                    k == spec_find_byte(b@, 10),
                                    buf@ == buf0 + b@.subrange(k as int + 1, t as int),
                                decreases b@.len() - t,
                            {
                                buf.push(b[t]);
                                proof {
                                    assert(b@.subrange(k as int + 1, t as int + 1)
                                        =~= b@.subrange(k as int + 1, t as int).push(
                                        b@[t as int],
                                    ));
                                }
                                t = t + 1;
                            }
                            proof {
                                assert(b@.subrange(k as int + 1, b@.len() as int) =~= b@.skip(
                                    k as int + 1,
                                ));
                                assert(buf@ =~= buf0 + spec_after_header(b@));
                            }
                        } else {
                            proof {
                                assert(spec_after_header(b@) =~= Seq::<u8>::empty());
                                assert(buf@ =~= buf0 + spec_after_header(b@));
                            }
                        }
                        processed = processed + 1;
                        proof {
                            assert(pre0.contains_key(spec_leg_blob_name(
                                required@[j as int].0@,
                                required@[j as int].1,
                            )));
                            assert(buf@ =~= header_bytes@ + spec_year_bytes(
                                pre0,
                                required@.take(j as int + 1),
                                year,
                            ));
                        }
                    },
                    Ok(None) => {
                        proof {
                            assert(!pre0.contains_key(spec_leg_blob_name(
                                required@[j as int].0@,
                                required@[j as int].1,
                            )));
                            assert(buf@ =~= header_bytes@ + spec_year_bytes(
                                pre0,
                                required@.take(j as int + 1),
                                year,
                            ));
                        }
                    },
                    Err(e) => {
                        return Err(e);
                    },
                }
            } else {
                proof {
                    assert(buf@ =~= header_bytes@ + spec_year_bytes(
                        pre0,
                        required@.take(j as int + 1),
                        year,
                    ));
                }
            }
            j = j + 1;
        }
        proof {
            assert(required@.take(required@.len() as int) =~= required@);
            assert(buf@ =~= spec_year_blob(pre0, required@, year));
            assert(total == spec_year_total(required@, year));
            assert(processed == spec_year_done(pre0, required@, year));
        }
        let ykey = year_blob_name(year);
        match client.put(ykey.as_str(), &buf) {
            Ok(_) => {
                proof {
                    assert(years@.take(yi as int + 1).drop_last() =~= years@.take(yi as int));
                    assert(years@.take(yi as int + 1).last() == years@[yi as int]);
                    assert(client.blobs() =~= spec_store_with_years(
                        pre0,
                        required@,
                        years@.take(yi as int + 1),
                    ));
                }
            },
            Err(e) => {
                return Err(e);
            },
        }
        let ghost status0 = status@;
        if yi > 0 {
            status.append(",");
        }
        status.append("\"");
        status.append(u64_to_dec(year as u64).as_str());
        status.append("\":{\"icao_months_to_process\":");
        status.append(u64_to_dec(total).as_str());
        status.append(",\"icao_months_processed\":");
        status.append(u64_to_dec(processed).as_str());
        status.append(",\"url\":\"https://private-jets.fra1.digitaloceanspaces.com/");
        status.append(ykey.as_str());
        status.append("\"}");
        proof {
            reveal_strlit("{");
            reveal_strlit(",");
            reveal_strlit("\"");
            reveal_strlit("\":{\"icao_months_to_process\":");
            reveal_strlit(",\"icao_months_processed\":");
            reveal_strlit(",\"url\":\"https://private-jets.fra1.digitaloceanspaces.com/");
            reveal_strlit("\"}");
            assert(years@.take(yi as int + 1).drop_last() =~= years@.take(yi as int));
            assert(years@.take(yi as int + 1).last() == years@[yi as int]);
            if yi > 0 {
                assert(status@ =~= status0 + seq![','] + spec_status_entry(
                    pre0,
                    required@,
                    year,
                ));
            } else {
                assert(status@ =~= status0 + spec_status_entry(pre0, required@, year));
            }
            assert(status@ =~= seq!['{'] + spec_status_entries(
                pre0,
                required@,
                years@.take(yi as int + 1),
            ));
        }
        yi = yi + 1;
    }
    proof {
        assert(years@.take(years@.len() as int) =~= years@);
    }
    status.append("}");
    proof {
        assert(status@ =~= spec_status_text(pre0, required@));
    }
    let bytes = match ascii_string_to_bytes(&status) {
        Some(b) => b,
        None => {
            return Err("the status manifest holds text that is not ASCII".to_owned());
        },
    };
    match client.put("leg/v2/status.json", &bytes) {
        Ok(_) => {
            proof {
                assert(client.blobs() =~= spec_store_with_years(
                    pre0,
                    required@,
                    spec_years_of(required@),
                ).insert(
                    "leg/v2/status.json"@,
                    spec_status_text(pre0, required@).map_values(|c: char| c as u8),
                ));
            }
            Ok(())
        },
        Err(e) => Err(e),
    }
}

} // verus!
