use flights::codec::{decode_positions, encode_positions};
use flights::date::{date_range, today_utc, Date, DateIter};
use flights::serde::{hive_to_map, month_to_part, parse_month};
use flights::trace_month::{
    blob_name_to_pk, first_of_next_month, pk_to_blob_name, sort_positions,
};
use flights::Position;

fn d(year: i32, month: u8, day: u8) -> Date {
    Date { year, month, day }
}

#[test]
fn lib_work() {
    let mut it = DateIter::new(d(2022, 1, 1), d(2022, 1, 3));
    let mut collected = Vec::new();
    while let Some(x) = it.next() {
        collected.push(x);
    }
    assert_eq!(collected, vec![d(2022, 1, 1), d(2022, 1, 2)]);
}

#[test]
fn serde_work() {
    let a = hive_to_map("a=1/b=2/");
    assert_eq!(
        a,
        vec![
            ("a".to_string(), "1".to_string()),
            ("b".to_string(), "2".to_string())
        ]
    );
}

#[test]
fn roundtrip() {
    let month = d(2022, 2, 1);
    let name = pk_to_blob_name("aa", month);
    assert_eq!(name, "position/icao_number=aa/month=2022-02/data.json");
    assert_eq!(blob_name_to_pk(&name), Some(("aa".to_string(), month)));
}

#[test]
fn _first_of_next_month() {
    assert_eq!(first_of_next_month(&d(2022, 2, 1)), d(2022, 3, 1));
    assert_eq!(first_of_next_month(&d(2023, 12, 1)), d(2024, 1, 1));
}

#[test]
fn csv_lines_round_trip() {
    let rows = vec![vec![
        "45d2ed".to_string(),
        "OY-GFS".to_string(),
        "F2TH".to_string(),
    ]];
    let text = flights::csv::serialize(&rows);
    assert_eq!(text, "45d2ed,OY-GFS,F2TH\n");
    let fields = flights::csv::split_line(text.lines().next().unwrap());
    assert_eq!(fields, rows[0]);
    assert_eq!(flights::csv::split_line(""), vec!["".to_string()]);
    assert_eq!(
        flights::csv::split_line("a,,b"),
        vec!["a".to_string(), "".to_string(), "b".to_string()]
    );
}

#[test]
fn rfc3339_renders_instants() {
    assert_eq!(flights::serde::rfc3339(0), "1970-01-01T00:00:00.000Z");
    assert_eq!(
        flights::serde::rfc3339(1_697_155_200_000),
        "2023-10-13T00:00:00.000Z"
    );
    assert_eq!(
        flights::serde::rfc3339(1_696_122_123_456),
        "2023-10-01T01:02:03.456Z"
    );
    assert_eq!(flights::serde::rfc3339(-1), "1969-12-31T23:59:59.999Z");
    // a leap day
    assert_eq!(
        flights::serde::rfc3339(1_582_934_400_000),
        "2020-02-29T00:00:00.000Z"
    );
}

#[test]
fn day_numbers_round_trip() {
    for date in [d(2023, 10, 13), d(2020, 2, 29), d(1, 1, 1), d(9999, 12, 31)] {
        assert_eq!(flights::date::date_from_day_number(date.day_number()), date);
    }
}

#[test]
fn fixed_point_texts() {
    assert_eq!(flights::text::i64_to_fixed6(52_365_000), "52.365000");
    assert_eq!(flights::text::i64_to_fixed6(-1_500), "-0.001500");
    assert_eq!(flights::text::u64_to_fixed6(1_000_000), "1.000000");
}

#[test]
fn month_text_roundtrip() {
    let m = d(2023, 1, 1);
    let part = month_to_part(m);
    assert_eq!(part, "2023-01");
    assert_eq!(parse_month(&part), m);
}

#[test]
fn date_range_is_exclusive() {
    let days = date_range(d(2022, 2, 27), d(2022, 3, 2));
    assert_eq!(
        days,
        vec![d(2022, 2, 27), d(2022, 2, 28), d(2022, 3, 1)]
    );
}

#[test]
fn leap_years_have_a_longer_second_month() {
    let days = date_range(d(2024, 2, 27), d(2024, 3, 1));
    assert_eq!(days.len(), 3);
}

#[test]
fn today_is_in_bounds() {
    let t = today_utc();
    assert!(t.month >= 1 && t.month <= 12);
    assert!(t.day >= 1 && t.day <= 31);
}

fn p(t: i64, lat: i64, lon: i64, alt: Option<i64>) -> Position {
    Position {
        datetime_ms: t,
        latitude_udeg: lat,
        longitude_udeg: lon,
        altitude_ft: alt,
    }
}

#[test]
fn positions_codec_roundtrip() {
    let ps = vec![
        p(0, 52_365_000, 13_501_000, None),
        p(1_697_155_200_000, -1, -180_000_000, Some(38_000)),
        p(-5, 90_000_000, 2, Some(0)),
    ];
    let bytes = encode_positions(&ps);
    let text = String::from_utf8(bytes.clone()).unwrap();
    assert!(text.starts_with(
        "[{\"datetime\":\"1970-01-01T00:00:00.000Z\",\"latitude\":52.365000,\"longitude\":13.501000}"
    ));
    assert!(text.contains(
        "{\"datetime\":\"2023-10-13T00:00:00.000Z\",\"latitude\":-0.000001,\"longitude\":-180.000000,\"altitude\":38000}"
    ));
    assert!(text.ends_with("}]"));
    assert_eq!(decode_positions(&bytes), Some(ps));
}

#[test]
fn month_blobs_parse_foreign_number_texts() {
    // shorter number texts, as a float-backed writer renders them
    let foreign =
        b"[{\"datetime\":\"2023-10-01T00:00:00.000Z\",\"latitude\":52.365,\"longitude\":13.5,\"altitude\":1200}]"
        .to_vec();
    let ps = decode_positions(&foreign).unwrap();
    assert_eq!(ps.len(), 1);
    assert_eq!(ps[0].datetime_ms, 1_696_118_400_000);
    assert_eq!(ps[0].latitude_udeg, 52_365_000);
    assert_eq!(ps[0].longitude_udeg, 13_500_000);
    assert_eq!(ps[0].altitude_ft, Some(1200));
}

#[test]
fn positions_codec_rejects_noise() {
    assert_eq!(decode_positions(&vec![0u8; 45]), None);
    assert_eq!(decode_positions(&vec![b'x'; 46]), None);
    assert_eq!(decode_positions(&Vec::new()), None);
    assert_eq!(decode_positions(&b"[]".to_vec()), Some(Vec::new()));
    assert_eq!(
        decode_positions(&b"[{\"latitude\":1.0,\"longitude\":2.0}]".to_vec()),
        None
    );
}

#[test]
fn sorting_orders_by_timestamp() {
    let ps = vec![
        p(5, 0, 0, None),
        p(1, 0, 0, Some(2)),
        p(3, 0, 0, None),
    ];
    let sorted = sort_positions(ps);
    let times: Vec<i64> = sorted.iter().map(|x| x.datetime_ms).collect();
    assert_eq!(times, vec![1, 3, 5]);
}

#[test]
fn position_accessors_read_the_fields() {
    let x = p(5, 10, 20, Some(300));
    assert!(x.flying());
    assert!(!x.grounded());
    assert_eq!(x.latitude(), 10);
    assert_eq!(x.longitude(), 20);
    assert_eq!(x.pos(), (10, 20));
    assert_eq!(x.altitude(), 300);
    assert_eq!(x.datetime(), 5);
    let g = p(5, 10, 20, None);
    assert!(g.grounded());
    assert_eq!(g.altitude(), 0);
}

#[test]
fn day_numbers_count_days() {
    let a = d(1970, 1, 1);
    let b = d(1970, 1, 2);
    assert_eq!(b.day_number() - a.day_number(), 1);
    let c = d(1971, 1, 1);
    assert_eq!(c.day_number() - a.day_number(), 365);
}
