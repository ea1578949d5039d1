use geo::Distance;
use geo::Haversine;
use geo::Point;
use location_history::Coordinates;
use location_history::Location;
use location_history::LocationsExt;
use location_history::Timestamp;

fn sample(seconds: i64, latitude_e7: i64, longitude_e7: i64) -> Location {
    Location {
        timestamp: Timestamp::new(seconds, 0, 0).unwrap(),
        latitude_e7,
        longitude_e7,
        accuracy: None,
        altitude: None,
        activities: None,
    }
}

fn haversine_mm(a: Coordinates, b: Coordinates) -> u64 {
    let p = Point::new(a.longitude_e7 as f64 / 1e7, a.latitude_e7 as f64 / 1e7);
    let q = Point::new(b.longitude_e7 as f64 / 1e7, b.latitude_e7 as f64 / 1e7);
    (Haversine.distance(p, q) * 1000.0).floor() as u64
}

/// A metric on a line: the longitudes are millimetres.
fn line_mm(a: Coordinates, b: Coordinates) -> u64 {
    (a.longitude_e7 - b.longitude_e7).unsigned_abs()
}

fn seconds_of(history: &Vec<Location>) -> Vec<i64> {
    history.iter().map(|l| l.timestamp.seconds()).collect()
}

#[test]
fn speed_is_whole_kilometres_per_hour() {
    let here = sample(60, 0, 0);
    let there = sample(0, 0, 0);
    // 1000 m in 60 s are 60 km/h
    assert_eq!(here.speed_kmh(&there, 1_000_000), Some(60));
    // 8333.333 m in 60 s are just under 500 km/h
    assert_eq!(here.speed_kmh(&there, 8_333_333), Some(499));
    assert_eq!(here.speed_kmh(&there, 8_333_334), Some(500));
    assert_eq!(here.speed_kmh(&there, 0), Some(0));
    assert_eq!(here.speed_kmh(&there, 16_665), Some(0));
    assert_eq!(here.speed_kmh(&there, 16_667), Some(1));
}

#[test]
fn speed_is_unknown_outside_the_window() {
    let origin = sample(1000, 0, 0);
    assert_eq!(sample(1000, 0, 0).speed_kmh(&origin, 5), None);
    assert_eq!(sample(999, 0, 0).speed_kmh(&origin, 5), None);
    assert_eq!(sample(1601, 0, 0).speed_kmh(&origin, 5), None);
    assert_eq!(sample(1600, 0, 0).speed_kmh(&origin, 1_000_000), Some(6));
    assert_eq!(sample(1001, 0, 0).speed_kmh(&origin, 1_000), Some(3));
}

#[test]
fn speed_does_not_overflow_on_the_longest_distance() {
    let here = sample(1, 0, 0);
    let there = sample(0, 0, 0);
    assert_eq!(here.speed_kmh(&there, u64::MAX), Some(66_408_278_665_354_385));
}

#[test]
fn plausible_below_three_hundred_kilometres_per_hour() {
    let origin = sample(0, 0, 0);
    let later = sample(60, 0, 0);
    // 300 km/h over 60 s are 5000 m
    assert!(later.plausible_after(&origin, 4_999_999));
    assert!(!later.plausible_after(&origin, 5_000_000));
    assert!(!later.plausible_after(&origin, 5_000_001));
    // over one second the limit lies between 83.333 m and 83.334 m
    let next = sample(1, 0, 0);
    assert!(next.plausible_after(&origin, 83_333));
    assert!(!next.plausible_after(&origin, 83_334));
}

#[test]
fn plausible_whatever_the_distance_across_a_wide_gap() {
    let origin = sample(0, 0, 0);
    assert!(sample(601, 0, 0).plausible_after(&origin, u64::MAX));
    assert!(sample(0, 0, 0).plausible_after(&origin, u64::MAX));
    assert!(sample(-1, 0, 0).plausible_after(&origin, u64::MAX));
    assert!(!sample(600, 0, 0).plausible_after(&origin, u64::MAX));
}

#[test]
fn filter_outliers_drops_the_implausible_sample() {
    // B lies 8333 m east of A, a minute later: 500 km/h.
    // C lies 833 m east of B, a minute after B: 50 km/h from B, 275 km/h from A.
    let a = sample(0, 0, 0);
    let b = sample(60, 0, 749_430);
    let c = sample(120, 0, 824_373);
    let from_a_to_b = haversine_mm(b.coordinates(), a.coordinates());
    assert!(from_a_to_b > 8_300_000 && from_a_to_b < 8_350_000);
    assert_eq!(b.speed_kmh(&a, from_a_to_b), Some(499));
    let from_b_to_c = haversine_mm(c.coordinates(), b.coordinates());
    assert_eq!(c.speed_kmh(&b, from_b_to_c), Some(49));
    let out = vec![a, b, c].filter_outliers(haversine_mm).unwrap();
    assert_eq!(seconds_of(&out), vec![0, 120]);
    assert_eq!(out[0].longitude_e7, 0);
    assert_eq!(out[1].longitude_e7, 824_373);
}

#[test]
fn filter_outliers_keeps_a_sample_after_601_seconds() {
    let a = sample(0, 0, 0);
    let far = sample(601, 0, 1_800_000_000);
    let out = vec![a, far].filter_outliers(haversine_mm).unwrap();
    assert_eq!(seconds_of(&out), vec![0, 601]);
    let out = vec![sample(0, 0, 0), sample(601, 0, 5)]
        .filter_outliers(|_a: Coordinates, _b: Coordinates| u64::MAX)
        .unwrap();
    assert_eq!(seconds_of(&out), vec![0, 601]);
}

#[test]
fn filter_outliers_judges_a_sample_after_600_seconds() {
    let out = vec![sample(0, 0, 0), sample(600, 0, 5)]
        .filter_outliers(|_a: Coordinates, _b: Coordinates| u64::MAX)
        .unwrap();
    assert_eq!(seconds_of(&out), vec![0]);
    // 300 km/h over 600 s are 50 km
    let out = vec![sample(0, 0, 0), sample(600, 0, 49_999_999)].filter_outliers(line_mm).unwrap();
    assert_eq!(seconds_of(&out), vec![0, 600]);
    let out = vec![sample(0, 0, 0), sample(600, 0, 50_000_000)].filter_outliers(line_mm).unwrap();
    assert_eq!(seconds_of(&out), vec![0]);
}

#[test]
fn filter_outliers_of_nothing_is_an_error() {
    let nothing: Vec<Location> = Vec::new();
    let result = nothing.filter_outliers(haversine_mm);
    assert!(result.is_err());
    assert_eq!(result.unwrap_err().message(), "the history holds no samples");
}

#[test]
fn filter_outliers_of_one_sample_keeps_it() {
    let out = vec![sample(5, 1, 2)].filter_outliers(haversine_mm).unwrap();
    assert_eq!(seconds_of(&out), vec![5]);
}

#[test]
fn filter_outliers_holds_each_sample_against_the_last_kept() {
    // on the line, 5 km per minute is the limit
    let history = vec![
        sample(0, 0, 0),
        sample(60, 0, 6_000_000),
        sample(120, 0, 9_000_000),
        sample(180, 0, 12_000_000),
        sample(240, 0, 40_000_000),
    ];
    let out = history.filter_outliers(line_mm).unwrap();
    // 60 is dropped (6 km in a minute from 0); 120 is held against 0 (9 km
    // in two minutes) and kept; 180 against 120; 240 against 180 and dropped
    assert_eq!(seconds_of(&out), vec![0, 120, 180]);
}

#[test]
fn filter_outliers_runs_in_arrival_order_and_returns_chronological_order() {
    let history = vec![
        sample(100, 0, 0),
        sample(40, 0, 900_000_000),
        sample(160, 0, 1_000_000),
        sample(100, 1, 0),
        sample(130, 0, 400_000_000),
    ];
    let out = history.filter_outliers(line_mm).unwrap();
    // 40 is earlier than the first sample: kept at once, and the reference
    // from then on; 160 is two minutes after it and 899 km away: dropped;
    // the second 100 is one minute after 40 and 900 km away: dropped;
    // 130 is 90 s after 40 and 500 km away: dropped
    assert_eq!(seconds_of(&out), vec![40, 100]);
    assert_eq!(out[0].longitude_e7, 900_000_000);
    assert_eq!(out[1].latitude_e7, 0);
}

#[test]
fn filter_outliers_asks_the_metric_once_for_each_later_sample() {
    let calls = std::cell::Cell::new(0u32);
    let out = vec![sample(0, 0, 0), sample(10, 0, 1), sample(20, 0, 2), sample(30, 0, 3)]
        .filter_outliers(|a: Coordinates, b: Coordinates| {
            calls.set(calls.get() + 1);
            line_mm(a, b)
        })
        .unwrap();
    assert_eq!(out.len(), 4);
    assert_eq!(calls.get(), 3);
}
