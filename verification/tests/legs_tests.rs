use flights::legs::{filter_legs, Leg, Legs};
use flights::Position;

fn pos(t: i64, altitude: Option<i64>) -> Position {
    Position {
        datetime_ms: t * 1000,
        latitude_udeg: 0,
        longitude_udeg: 0,
        altitude_ft: altitude,
    }
}

fn run(positions: Vec<(i64, Option<i64>)>, expected: Vec<Vec<(i64, Option<i64>)>>) {
    let input: Vec<Position> = positions.into_iter().map(|(t, a)| pos(t, a)).collect();
    let legs = Legs::new(input).into_legs();
    let expected: Vec<Leg> = expected
        .into_iter()
        .map(|ps| Leg::new(ps.into_iter().map(|(t, a)| pos(t, a)).collect()))
        .collect();
    assert_eq!(legs, expected);
}

#[test]
fn positions() {
    let empty: &[Position] = &[];
    assert_eq!(Leg::new(vec![]).positions(), empty);
}

#[test]
fn empty_leg() {
    assert_eq!(Legs::new(vec![]).into_legs().len(), 0);
}

#[test]
fn basic() {
    run(
        vec![(0, None), (1, Some(2)), (2, Some(2)), (3, None)],
        vec![vec![(0, None), (1, Some(2)), (2, Some(2)), (3, None)]],
    );
}

#[test]
fn grounded_is_ignored() {
    run(
        vec![
            (0, None),
            (1, None),
            (10, Some(2)),
            (20, Some(2)),
            (30, None),
            (40, None),
            (50, None),
        ],
        vec![vec![(1, None), (10, Some(2)), (20, Some(2)), (30, None)]],
    );
}

#[test]
fn not_landed_is_a_leg() {
    run(
        vec![(0, None), (1, Some(2)), (2, Some(2))],
        vec![vec![(0, None), (1, Some(2)), (2, Some(2))]],
    );
}

#[test]
fn low_and_5m_is_new_leg() {
    run(
        vec![
            (0, None),
            (10, Some(2)),
            (10 + 5 * 60 + 1, Some(2)),
            (10 + 5 * 60 + 2, Some(2)),
            (10 + 5 * 60 + 3, Some(2)),
        ],
        vec![
            vec![(0, None), (10, Some(2))],
            vec![
                (10 + 5 * 60 + 1, Some(2)),
                (10 + 5 * 60 + 2, Some(2)),
                (10 + 5 * 60 + 3, Some(2)),
            ],
        ],
    );
}

#[test]
fn high_and_10h_is_new_leg() {
    let alt = 10001;
    let delta = 10 * 60 * 60;
    run(
        vec![
            (0, None),
            (10, Some(alt)),
            (10 + delta + 1, Some(alt)),
            (10 + delta + 2, Some(alt)),
            (10 + delta + 3, Some(alt)),
        ],
        vec![
            vec![(0, None), (10, Some(alt))],
            vec![
                (10 + delta + 1, Some(alt)),
                (10 + delta + 2, Some(alt)),
                (10 + delta + 3, Some(alt)),
            ],
        ],
    );
}

#[test]
fn post_filter_keeps_long_and_far_legs() {
    // one leg of 6 minutes: kept only when its distance exceeds 3 km
    let input = vec![pos(0, None), pos(120, Some(5000)), pos(6 * 60 + 1, None)];
    let raw = Legs::new(input).into_legs();
    assert_eq!(raw.len(), 1);
    let kept = filter_legs(&raw, &vec![4000]);
    assert_eq!(kept.len(), 1);
    let dropped_near = filter_legs(&raw, &vec![2999]);
    assert_eq!(dropped_near.len(), 0);
}

#[test]
fn post_filter_keeps_the_boundary() {
    // exactly five minutes and exactly three kilometres stay in
    let input = vec![pos(0, None), pos(120, Some(5000)), pos(5 * 60, None)];
    let raw = Legs::new(input).into_legs();
    assert_eq!(raw.len(), 1);
    let kept = filter_legs(&raw, &vec![3000]);
    assert_eq!(kept.len(), 1);
}

#[test]
fn post_filter_drops_short_legs() {
    // a leg of four minutes falls below the five-minute rule
    let input = vec![pos(0, None), pos(120, Some(5000)), pos(4 * 60, None)];
    let raw = Legs::new(input).into_legs();
    assert_eq!(raw.len(), 1);
    let kept = filter_legs(&raw, &vec![1_000_000]);
    assert_eq!(kept.len(), 0);
}

#[test]
fn legs_iterate_in_order() {
    let input = vec![
        pos(0, None),
        pos(10, Some(2)),
        pos(10 + 301, Some(2)),
        pos(10 + 302, Some(2)),
    ];
    let mut it = Legs::new(input);
    let first = it.next().unwrap();
    assert_eq!(first.positions().len(), 2);
    let second = it.next().unwrap();
    assert_eq!(second.positions().len(), 2);
    assert!(it.next().is_none());
}
