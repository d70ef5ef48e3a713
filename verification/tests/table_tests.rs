use flights::aircraft_owners::{load_aircraft_owners, AircraftOwner};
use flights::country::{parse_hex_u32, CountryIcaoRanges, IcaoRange};
use flights::emissions::leg_co2_kg;
use flights::icao_to_trace::{
    adsbx_sid, cache_file_path, classify_response, compute_positions, compute_trace,
    parse_scaled, parse_trace_json, to_url,
};
use flights::model::{load_private_jet_models, AircraftModel};
use flights::private_emissions::{leg_co2e_kg, leg_per_person};
use flights::private_jets_in_time::closest_date;
use flights::report::{in_box, Country, Location};
use flights::date::Date;
use flights::Position;

fn model_row(model: &str, gph: u32) -> AircraftModel {
    AircraftModel {
        model: model.to_string(),
        gph,
        source: "registry".to_string(),
        date: "2023-01-01".to_string(),
    }
}

#[test]
fn emissions_basics() {
    // 280 gallons per hour over two hours
    assert_eq!(leg_co2_kg(280, 2 * 3_600_000), 5358);
}

#[test]
fn private_emissions_basics() {
    assert_eq!(leg_co2e_kg(280, 2 * 3_600_000), 27009);
}

#[test]
fn per_person_applies_the_occupancy_factor() {
    assert_eq!(leg_per_person(27009), 6212);
}

#[test]
fn positive() {
    let table = CountryIcaoRanges::new(vec![IcaoRange {
        country: "Denmark".to_string(),
        start: 0x458000,
        end: 0x45FFFF,
    }]);
    assert_eq!(table.country("458D6B"), Ok(Some("Denmark".to_string())));
}

#[test]
fn negative() {
    // a table of assigned blocks around the queried address: none holds it
    let table = CountryIcaoRanges::new(vec![
        IcaoRange { country: "Spain".to_string(), start: 0x340000, end: 0x37FFFF },
        IcaoRange { country: "Germany".to_string(), start: 0x3C0000, end: 0x3FFFFF },
        IcaoRange { country: "United Kingdom".to_string(), start: 0x400000, end: 0x43FFFF },
        IcaoRange { country: "Denmark".to_string(), start: 0x458000, end: 0x45FFFF },
        IcaoRange { country: "Argentina".to_string(), start: 0xE00000, end: 0xE3FFFF },
        IcaoRange { country: "Brazil".to_string(), start: 0xE40000, end: 0xE7FFFF },
        IcaoRange { country: "Chile".to_string(), start: 0xE80000, end: 0xE80FFF },
        IcaoRange { country: "Ecuador".to_string(), start: 0xE84000, end: 0xE84FFF },
    ]);
    assert_eq!(table.country("EA00CA"), Ok(None));
    assert_eq!(table.country("E847F2"), Ok(Some("Ecuador".to_string())));
}

#[test]
fn hex_parsing_rejects_bad_text() {
    assert_eq!(parse_hex_u32("458d6b"), Some(0x458D6B));
    assert_eq!(parse_hex_u32(""), None);
    assert_eq!(parse_hex_u32("45x"), None);
    assert_eq!(parse_hex_u32("100000000"), None);
}

#[test]
fn models() {
    let rows = vec![
        model_row("GULFSTREAM 5", 500),
        model_row("GULFSTREAM 5", 430),
        model_row("GULFSTREAM 5", 455),
        model_row("GULFSTREAM 5", 438),
        model_row("F2TH", 280),
    ];
    let table = load_private_jet_models(rows);
    let g5 = table.iter().find(|m| m.model == "GULFSTREAM 5").unwrap();
    assert_eq!(g5.gph, (500 + 430 + 455 + 438) / 4);
    let f2 = table.iter().find(|m| m.model == "F2TH").unwrap();
    assert_eq!(f2.gph, 280);
    assert_eq!(table.len(), 2);
}

#[test]
fn models_join_sources_and_dates() {
    let rows = vec![
        AircraftModel {
            model: "GULFSTREAM 5".to_string(),
            gph: 500,
            source: "a".to_string(),
            date: "2021".to_string(),
        },
        AircraftModel {
            model: "GULFSTREAM 5".to_string(),
            gph: 430,
            source: "b".to_string(),
            date: "2022".to_string(),
        },
        AircraftModel {
            model: "GULFSTREAM 5".to_string(),
            gph: 455,
            source: "c".to_string(),
            date: "2023".to_string(),
        },
    ];
    let table = load_private_jet_models(rows);
    assert_eq!(table.len(), 1);
    assert_eq!(table[0].source, "a;b;c");
    assert_eq!(table[0].date, "2021;2022;2023");
    assert_eq!(table[0].gph, (500 + 430 + 455) / 3);
}

#[test]
fn owners_keep_the_last_row_per_tail_number() {
    let rows = vec![
        AircraftOwner {
            tail_number: "OY-GFS".to_string(),
            owner: "first".to_string(),
            source: "a".to_string(),
            date: "2023".to_string(),
        },
        AircraftOwner {
            tail_number: "OY-GFS".to_string(),
            owner: "second".to_string(),
            source: "b".to_string(),
            date: "2024".to_string(),
        },
    ];
    let table = load_aircraft_owners(rows);
    assert_eq!(table.len(), 1);
    assert_eq!(table[0].1.owner, "second");
}

#[test]
fn snapshot_names_round_trip() {
    let d = Date { year: 2023, month: 11, day: 6 };
    let name = flights::aircraft::pk_to_blob_name(&d);
    assert_eq!(name, "aircraft/db/date=2023-11-06/data.csv");
    assert_eq!(flights::aircraft::blob_name_to_date(&name), Some(d));
    assert_eq!(
        flights::aircraft::blob_name_to_date("aircraft/db/date=2023-13-06/data.csv"),
        None
    );
    assert_eq!(
        flights::aircraft::blob_name_to_date("aircraft/db/date=2023-11-06/data.json"),
        None
    );
}

#[test]
fn test_closest_date() {
    let dates = vec![
        Date { year: 2022, month: 2, day: 1 },
        Date { year: 2010, month: 2, day: 1 },
    ];
    assert_eq!(
        closest_date(&dates, Date { year: 2023, month: 2, day: 1 }),
        Date { year: 2022, month: 2, day: 1 }
    );
    assert_eq!(
        closest_date(&dates, Date { year: 2011, month: 2, day: 1 }),
        Date { year: 2010, month: 2, day: 1 }
    );
}

#[test]
fn trace_urls() {
    let date = Date { year: 2023, month: 10, day: 13 };
    assert_eq!(
        to_url("45d2ed", &date),
        "https://globe.adsbexchange.com/globe_history/2023/10/13/traces/ed/trace_full_45d2ed.json"
    );
    assert_eq!(
        cache_file_path("45d2ed", &date),
        "globe_history/2023-10-13/trace_full_45d2ed.json"
    );
}

#[test]
fn the_session_cookie_has_the_expected_shape() {
    let sid = adsbx_sid();
    assert!(sid.len() >= 15);
    assert!(sid.contains('_'));
}

#[test]
fn a_missing_day_reads_as_an_empty_trace() {
    let synthesized = classify_response(404, Vec::new(), "45d2ed").unwrap();
    let doc = parse_trace_json(&synthesized);
    let (ts, rows) = compute_trace(doc);
    assert_eq!(ts, 1_697_155_200_000);
    assert_eq!(rows.len(), 0);
}

#[test]
fn edge_cases() {
    assert_eq!(compute_trace(parse_trace_json(&Vec::new())).1.len(), 0);
    assert_eq!(compute_trace(parse_trace_json(&b"[]".to_vec())).1.len(), 0);
    assert_eq!(compute_trace(parse_trace_json(&b"{}".to_vec())).1.len(), 0);
    assert_eq!(
        compute_trace(parse_trace_json(&b"{\"timestamp\": 1.0}".to_vec())).1.len(),
        0
    );
    assert_eq!(
        compute_trace(parse_trace_json(&b"{\"timestamp\": 1.0, \"trace\": {}}".to_vec()))
            .1
            .len(),
        0
    );
}

#[test]
fn trace_rows_decode_into_positions() {
    let payload = "{\"timestamp\": 1697155200.000, \"trace\": [[0.00, 52.365, 13.501, \"ground\"], [12.52, 52.401, 13.522, 1200], [20.00, 52.412, 13.533, \"climbing\"], [30.75, 52.433, 13.544, 2500.5]]}";
    let doc = parse_trace_json(&payload.as_bytes().to_vec());
    let (ts, rows) = compute_trace(doc);
    let ps = compute_positions(ts, &rows);
    // the third row has an altitude that is neither a number nor `ground`
    assert_eq!(ps.len(), 3);
    assert_eq!(ps[0].datetime_ms, 1_697_155_200_000);
    assert_eq!(ps[0].latitude_udeg, 52_365_000);
    assert_eq!(ps[0].longitude_udeg, 13_501_000);
    assert_eq!(ps[0].altitude_ft, None);
    assert_eq!(ps[1].datetime_ms, 1_697_155_212_520);
    assert_eq!(ps[1].altitude_ft, Some(1200));
    assert_eq!(ps[2].datetime_ms, 1_697_155_230_750);
    assert_eq!(ps[2].altitude_ft, Some(2500));
}

#[test]
fn scaled_numbers_parse_exactly() {
    assert_eq!(parse_scaled("52.365", 6), Some(52_365_000));
    assert_eq!(parse_scaled("-13.5", 6), Some(-13_500_000));
    assert_eq!(parse_scaled("7", 3), Some(7000));
    assert_eq!(parse_scaled("1.0009", 3), Some(1000));
    assert_eq!(parse_scaled("", 3), None);
    assert_eq!(parse_scaled("1.2.3", 3), None);
    assert_eq!(parse_scaled("abc", 3), None);
}

#[test]
fn country_texts() {
    assert_eq!(Country::Denmark.name(), "Denmark");
    assert_eq!(Country::Denmark.plural(), "Danes");
    assert_eq!(Country::Denmark.possessive(), "Danish");
    assert_eq!(Country::Denmark.tail_number(), "OY-");
    assert_eq!(Location::Davos.name(), "Davos airport (LSZR)");
}

#[test]
fn boxes_contain_their_points() {
    let region = Location::Davos.region();
    let inside = Position {
        datetime_ms: 0,
        latitude_udeg: 47_485_000,
        longitude_udeg: 9_550_000,
        altitude_ft: None,
    };
    let outside = Position {
        datetime_ms: 0,
        latitude_udeg: 40_000_000,
        longitude_udeg: 9_550_000,
        altitude_ft: None,
    };
    assert!(in_box(&inside, region));
    assert!(!in_box(&outside, region));
}
