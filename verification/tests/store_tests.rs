use flights::codec::encode_positions;
use flights::date::Date;
use flights::etl_legs::{aggregate, compute_todo, etl_task, leg_blob_name, year_blob_name};
use flights::fs::{cached, cached_call, BlobStorageProvider, CacheAction, MemoryBlobStorage};
use flights::trace_month::{
    get_month_positions, list_months_positions, month_positions, pk_to_blob_name,
};
use flights::Position;

static HEADER: &str = "icao_number,tail_number,aircraft_model,start,start_lat,start_lon,start_altitude,end,end_lat,end_lon,end_altitude,duration,distance,great_circle_distance,hours_above_30000,hours_above_40000,co2_emissions\n";

fn mk(t: i64, lat: i64, lon: i64, alt: Option<i64>) -> Position {
    Position {
        datetime_ms: t,
        latitude_udeg: lat,
        longitude_udeg: lon,
        altitude_ft: alt,
    }
}

fn haversine_m(a: Position, b: Position) -> u64 {
    let from = geoutils::Location::new(a.latitude_udeg as f64 / 1e6, a.longitude_udeg as f64 / 1e6);
    let to = geoutils::Location::new(b.latitude_udeg as f64 / 1e6, b.longitude_udeg as f64 / 1e6);
    from.haversine_distance_to(&to).meters() as u64
}

#[test]
fn blobs_read_back_what_was_put() {
    let mut store = MemoryBlobStorage::new();
    assert_eq!(store.maybe_get("a"), Ok(None));
    store.put("a", &vec![1, 2, 3]).unwrap();
    assert_eq!(store.maybe_get("a"), Ok(Some(vec![1, 2, 3])));
    store.put("a", &vec![9]).unwrap();
    assert_eq!(store.maybe_get("a"), Ok(Some(vec![9])));
    store.delete("a").unwrap();
    assert_eq!(store.maybe_get("a"), Ok(None));
    assert!(store.can_put());
}

#[test]
fn listing_enumerates_the_prefix() {
    let mut store = MemoryBlobStorage::new();
    store.put("position/a", &vec![1]).unwrap();
    store.put("position/b", &vec![2]).unwrap();
    store.put("leg/v2/a", &vec![3]).unwrap();
    let keys = store.list("position/").unwrap();
    assert_eq!(keys.len(), 2);
    assert!(keys.contains(&"position/a".to_string()));
    assert!(keys.contains(&"position/b".to_string()));
}

#[test]
fn the_cache_serves_hits_without_fetching() {
    let mut store = MemoryBlobStorage::new();
    store.put("k", &vec![7]).unwrap();
    let r = cached(
        "k",
        || panic!("a hit must not fetch"),
        &mut store,
        CacheAction::ReadFetchWrite,
    );
    assert_eq!(r, Ok(vec![7]));
}

#[test]
fn the_cache_writes_misses_back() {
    let mut store = MemoryBlobStorage::new();
    let r = cached("k", || Ok(vec![5]), &mut store, CacheAction::ReadFetchWrite);
    assert_eq!(r, Ok(vec![5]));
    assert_eq!(store.maybe_get("k"), Ok(Some(vec![5])));
}

#[test]
fn a_volatile_entry_is_not_written() {
    let mut store = MemoryBlobStorage::new();
    let r = cached("k", || Ok(vec![5]), &mut store, CacheAction::ReadFetch);
    assert_eq!(r, Ok(vec![5]));
    assert_eq!(store.maybe_get("k"), Ok(None));
}

#[test]
fn month_partitions_write_then_read_the_same_positions() {
    let mut store = MemoryBlobStorage::new();
    let month = Date { year: 2023, month: 10, day: 1 };
    let today = Date { year: 2024, month: 6, day: 15 };
    let day_positions = vec![
        mk(1_696_118_400_000, 52_365_000, 13_501_000, None),
        mk(1_696_118_500_000, 52_400_000, 13_400_000, Some(10_000)),
    ];
    let fetched = month_positions(
        "45d2ed",
        month,
        &mut store,
        |d: Date| {
            if d.day == 1 {
                Ok(day_positions.clone())
            } else {
                Ok(Vec::new())
            }
        },
        today,
    )
    .unwrap();
    assert_eq!(fetched, day_positions);
    // the blob now exists and reads back to the same list
    let read_back = get_month_positions("45d2ed", month, &store).unwrap();
    assert_eq!(read_back, day_positions);
    // a second run serves the cache and returns the same list
    let again = month_positions(
        "45d2ed",
        month,
        &mut store,
        |_d: Date| panic!("a cached month must not fetch"),
        today,
    )
    .unwrap();
    assert_eq!(again, day_positions);
    let listed = list_months_positions(&store).unwrap();
    assert_eq!(listed, vec![("45d2ed".to_string(), month)]);
}

#[test]
fn the_etl_writes_the_leg_table() {
    let mut store = MemoryBlobStorage::new();
    let month = Date { year: 2023, month: 10, day: 1 };
    // Berlin and Brussels, a flight of roughly an hour
    let t0 = 1_696_118_400_000i64;
    let positions = vec![
        mk(t0, 52_365_000, 13_501_000, None),
        mk(t0 + 240_000, 52_000_000, 13_000_000, Some(35_000)),
        mk(t0 + 3_360_000, 51_200_000, 5_000_000, Some(35_000)),
        mk(t0 + 3_600_000, 50_900_800, 4_486_500, None),
    ];
    let bytes = encode_positions(&positions);
    store
        .put(&pk_to_blob_name("45d2ed", month), &bytes)
        .unwrap();
    etl_task(
        "45d2ed",
        "OY-GFS",
        "F2TH",
        280,
        month,
        &mut store,
        haversine_m,
    )
    .unwrap();
    let key = leg_blob_name("45d2ed", month);
    let table = store.maybe_get(&key).unwrap().unwrap();
    let text = String::from_utf8(table).unwrap();
    let lines: Vec<&str> = text.lines().collect();
    assert_eq!(lines.len(), 2);
    assert_eq!(lines[0], HEADER.trim_end());
    let fields: Vec<&str> = lines[1].split(',').collect();
    assert_eq!(fields.len(), 17);
    assert_eq!(fields[0], "45d2ed");
    assert_eq!(fields[1], "OY-GFS");
    assert_eq!(fields[2], "F2TH");
    assert_eq!(fields[3], "2023-10-01T00:00:00.000Z");
    assert_eq!(fields[4], "52.365000");
    assert_eq!(fields[5], "13.501000");
    assert_eq!(fields[7], "2023-10-01T01:00:00.000Z");
    // one hour at 280 gallons per hour: 280 * 3.78541 * 0.8 * 3.16 * 3.0 * 1.68
    assert_eq!(fields[11], "1.000000");
    assert_eq!(fields[16], "13504");
    // the great-circle distance from Berlin to Brussels is around 600 km
    let gc: f64 = fields[13].parse().unwrap();
    assert!(gc > 500.0 && gc < 700.0, "unexpected distance {}", gc);
}

#[test]
fn a_completed_run_leaves_nothing_to_do() {
    let a = ("45d2ed".to_string(), Date { year: 2023, month: 10, day: 1 });
    let b = ("459cd3".to_string(), Date { year: 2023, month: 11, day: 1 });
    let ready = vec![a.clone(), b.clone()];
    let todo = compute_todo(&ready, &vec![a.clone()]);
    assert_eq!(todo, vec![b.clone()]);
    let nothing = compute_todo(&ready, &ready);
    assert_eq!(nothing.len(), 0);
}

#[test]
fn todo_is_sorted_by_month_then_icao() {
    let m10 = Date { year: 2023, month: 10, day: 1 };
    let m11 = Date { year: 2023, month: 11, day: 1 };
    let ready = vec![
        ("zz0042".to_string(), m11),
        ("bb0001".to_string(), m10),
        ("aa0007".to_string(), m10),
    ];
    let todo = compute_todo(&ready, &Vec::new());
    assert_eq!(
        todo,
        vec![
            ("aa0007".to_string(), m10),
            ("bb0001".to_string(), m10),
            ("zz0042".to_string(), m11),
        ]
    );
}

#[test]
fn aggregation_writes_the_yearly_blob_and_the_manifest() {
    let mut store = MemoryBlobStorage::new();
    let month = Date { year: 2023, month: 10, day: 1 };
    let pair = ("45d2ed".to_string(), month);
    store
        .put(
            &leg_blob_name("45d2ed", month),
            &format!("{HEADER}a,b\n").into_bytes(),
        )
        .unwrap();
    aggregate(&vec![pair], &mut store).unwrap();
    let year = store.maybe_get(&year_blob_name(2023)).unwrap().unwrap();
    assert_eq!(year, format!("{HEADER}a,b\n").into_bytes());
    let status = store.maybe_get("leg/v2/status.json").unwrap().unwrap();
    let status = String::from_utf8(status).unwrap();
    assert_eq!(
        status,
        "{\"2023\":{\"icao_months_to_process\":1,\"icao_months_processed\":1,\"url\":\"https://private-jets.fra1.digitaloceanspaces.com/leg/v2/all/year=2023/data.csv\"}}"
    );
}

#[test]
fn aggregation_skips_missing_leg_tables() {
    let mut store = MemoryBlobStorage::new();
    let m1 = Date { year: 2023, month: 10, day: 1 };
    let m2 = Date { year: 2023, month: 11, day: 1 };
    store
        .put(
            &leg_blob_name("45d2ed", m1),
            &format!("{HEADER}a,b\n").into_bytes(),
        )
        .unwrap();
    let req = vec![("45d2ed".to_string(), m1), ("459cd3".to_string(), m2)];
    aggregate(&req, &mut store).unwrap();
    let year = store.maybe_get(&year_blob_name(2023)).unwrap().unwrap();
    assert_eq!(year, format!("{HEADER}a,b\n").into_bytes());
    let status =
        String::from_utf8(store.maybe_get("leg/v2/status.json").unwrap().unwrap()).unwrap();
    assert_eq!(
        status,
        "{\"2023\":{\"icao_months_to_process\":2,\"icao_months_processed\":1,\"url\":\"https://private-jets.fra1.digitaloceanspaces.com/leg/v2/all/year=2023/data.csv\"}}"
    );
}

#[test]
fn a_read_only_store_serves_month_misses_without_writing() {
    let mut store = MemoryBlobStorage::read_only();
    let month = Date { year: 2023, month: 10, day: 1 };
    let today = Date { year: 2024, month: 6, day: 15 };
    let got = month_positions("45d2ed", month, &mut store, |_d: Date| Ok(Vec::new()), today)
        .unwrap();
    assert_eq!(got.len(), 0);
    assert_eq!(store.list("").unwrap().len(), 0);
}

#[test]
fn day_traces_are_cached_and_decoded() {
    let mut store = MemoryBlobStorage::new();
    let date = Date { year: 2019, month: 1, day: 4 };
    let today = Date { year: 2024, month: 6, day: 15 };
    let payload = "{\"timestamp\": 1546560000.0, \"trace\": [[0.0, 54.0, 10.6, \"ground\"], [9.5, 54.1, 10.7, 900]]}";
    let ps = flights::icao_to_trace::positions(
        "45860d",
        date,
        &mut store,
        || Ok(payload.as_bytes().to_vec()),
        today,
    )
    .unwrap();
    assert_eq!(ps.len(), 2);
    assert_eq!(ps[0].datetime_ms, 1_546_560_000_000);
    assert_eq!(ps[0].altitude_ft, None);
    assert_eq!(ps[1].datetime_ms, 1_546_560_009_500);
    assert_eq!(ps[1].altitude_ft, Some(900));
    // the raw payload is now cached under the day blob name and a second
    // call is served from the store
    let again = flights::icao_to_trace::positions(
        "45860d",
        date,
        &mut store,
        || panic!("a cached day must not fetch"),
        today,
    )
    .unwrap();
    assert_eq!(again, ps);
}

#[test]
fn a_read_only_remote_falls_back_to_the_local_store() {
    let mut remote = MemoryBlobStorage::read_only();
    let mut local = MemoryBlobStorage::new();
    let r = cached_call(
        "k",
        || Ok(vec![5]),
        &mut remote,
        &mut local,
        CacheAction::ReadFetchWrite,
    );
    assert_eq!(r, Ok(vec![5]));
    // the fetch was persisted on the local tier, not the remote one
    assert_eq!(remote.maybe_get("k"), Ok(None));
    assert_eq!(local.maybe_get("k"), Ok(Some(vec![5])));
}

#[test]
fn a_remote_hit_is_served_without_touching_the_local_store() {
    let mut seeded = MemoryBlobStorage::new();
    seeded.put("k", &vec![7]).unwrap();
    let mut remote = seeded.into_read_only();
    let mut local = MemoryBlobStorage::new();
    let r = cached_call(
        "k",
        || panic!("a remote hit must not fetch"),
        &mut remote,
        &mut local,
        CacheAction::ReadFetchWrite,
    );
    assert_eq!(r, Ok(vec![7]));
    assert_eq!(local.list("").unwrap().len(), 0);
}

#[test]
fn range_queries_filter_to_the_requested_days() {
    let mut store = MemoryBlobStorage::new();
    let today = Date { year: 2024, month: 6, day: 15 };
    // three days around the end of a month; one lies outside the range
    let in_range_a = mk(1_696_118_400_000, 1, 1, None); // 2023-10-01
    let in_range_b = mk(1_698_710_400_000, 2, 2, None); // 2023-10-31
    let outside = mk(1_698_796_800_000, 3, 3, None); // 2023-11-01
    let all = vec![in_range_a, in_range_b, outside];
    let got = flights::trace_month::aircraft_positions(
        Date { year: 2023, month: 10, day: 1 },
        Date { year: 2023, month: 11, day: 1 },
        "45d2ed",
        &mut store,
        |d: Date| {
            if d.year == 2023 && d.month == 10 && d.day == 1 {
                Ok(all.clone())
            } else {
                Ok(Vec::new())
            }
        },
        today,
    )
    .unwrap();
    assert_eq!(got, vec![in_range_a, in_range_b]);
}
