use geo::Distance;
use geo::Haversine;
use geo::Point;
use location_history::decode::decode_all;
use location_history::decode::decode_document;
use location_history::decode::decode_location;
use location_history::decode::decode_metres;
use location_history::decode::decode_timestamp;
use location_history::decode::Field;
use location_history::decode::FieldList;
use location_history::decode::RawLocation;
use location_history::decode::RawObservation;
use location_history::decode::RawReading;
use location_history::ingest::after_send;
use location_history::ingest::collect;
use location_history::ingest::produce;
use location_history::ingest::producer_start;
use location_history::ingest::producer_step;
use location_history::ingest::Collector;
use location_history::ingest::Completion;
use location_history::ingest::ProducerEvent;
use location_history::ingest::ProducerStep;
use location_history::ingest::Progress;
use location_history::ingest::Window;
use location_history::Coordinates;
use location_history::DecodeError;
use location_history::FieldParseError;
use location_history::IngestError;
use location_history::Location;
use location_history::LocationsExt;
use location_history::Timestamp;

fn text(s: &str) -> Field {
    Field::Text(s.to_string())
}

fn raw(timestamp: &str, latitude_e7: i64, longitude_e7: i64) -> RawLocation {
    RawLocation {
        timestamp: text(timestamp),
        latitude_e7: Field::Number(latitude_e7),
        longitude_e7: Field::Number(longitude_e7),
        accuracy: Field::Missing,
        altitude: Field::Missing,
        observations: FieldList::Missing,
    }
}

fn raw_reading(label: &str, confidence: i64) -> RawReading {
    RawReading { kind: text(label), confidence: Field::Number(confidence) }
}

fn sample(seconds: i64, offset_seconds: i32) -> Location {
    Location {
        timestamp: Timestamp::new(seconds, 0, offset_seconds).unwrap(),
        latitude_e7: 0,
        longitude_e7: 0,
        accuracy: None,
        altitude: None,
        activities: None,
    }
}

fn seconds_of(history: &Vec<Location>) -> Vec<i64> {
    history.iter().map(|l| l.timestamp.seconds()).collect()
}

fn haversine_mm(a: Coordinates, b: Coordinates) -> u64 {
    let p = Point::new(a.longitude_e7 as f64 / 1e7, a.latitude_e7 as f64 / 1e7);
    let q = Point::new(b.longitude_e7 as f64 / 1e7, b.latitude_e7 as f64 / 1e7);
    (Haversine.distance(p, q) * 1000.0).floor() as u64
}

fn field_of(value: Option<&serde_json::Value>) -> Field {
    match value {
        None => Field::Missing,
        Some(serde_json::Value::String(s)) => Field::Text(s.clone()),
        Some(serde_json::Value::Number(n)) => match n.as_i64() {
            Some(n) => Field::Number(n),
            None => Field::Other,
        },
        Some(_) => Field::Other,
    }
}

fn raw_readings_of(value: Option<&serde_json::Value>) -> FieldList<RawReading> {
    match value {
        None => FieldList::Missing,
        Some(serde_json::Value::Array(items)) => FieldList::Items(
            items
                .iter()
                .map(|item| RawReading { kind: field_of(item.get("type")), confidence: field_of(item.get("confidence")) })
                .collect(),
        ),
        Some(_) => FieldList::Other,
    }
}

fn raw_observations_of(value: Option<&serde_json::Value>) -> FieldList<RawObservation> {
    match value {
        None => FieldList::Missing,
        Some(serde_json::Value::Array(items)) => FieldList::Items(
            items
                .iter()
                .map(|item| RawObservation {
                    timestamp: field_of(item.get("timestamp")),
                    readings: raw_readings_of(item.get("activity")),
                })
                .collect(),
        ),
        Some(_) => FieldList::Other,
    }
}

fn raw_location_of(item: &serde_json::Value) -> RawLocation {
    RawLocation {
        timestamp: field_of(item.get("timestamp")),
        latitude_e7: field_of(item.get("latitudeE7")),
        longitude_e7: field_of(item.get("longitudeE7")),
        accuracy: field_of(item.get("accuracy")),
        altitude: field_of(item.get("altitude")),
        observations: raw_observations_of(item.get("activity")),
    }
}

fn raw_document_of(document: &str) -> FieldList<RawLocation> {
    let root: serde_json::Value = match serde_json::from_str(document) {
        Ok(root) => root,
        Err(_) => return FieldList::Other,
    };
    match root.get("locations") {
        None => FieldList::Missing,
        Some(serde_json::Value::Array(items)) => FieldList::Items(items.iter().map(raw_location_of).collect()),
        Some(_) => FieldList::Other,
    }
}

fn raw_locations_of(document: &str) -> Vec<RawLocation> {
    match raw_document_of(document) {
        FieldList::Items(items) => items,
        _ => panic!("the document holds a list of records"),
    }
}

#[test]
fn it_works() {
    let test_data = r#"{"locations" : [ {
                            "timestamp" : "2016-08-07T04:54:00.678Z",
                            "latitudeE7" : 500373489,
                            "longitudeE7" : 83320934,
                            "accuracy" : 19,
                            "activitys" : [ {
                                "timestamp" : "2016-08-07T04:54:00.678Z",
                                "activities" : [ {
                                    "type" : "still",
                                    "confidence" : 100
                                } ]
                                }, {
                                "timestamp" : "2016-08-07T04:54:00.678Z",
                                "activities" : [ {
                                "type" : "still",
                                "confidence" : 100
                                } ]
                            } ]
                            }]}"#;
    let _locations = decode_document(&raw_document_of(test_data)).unwrap().filter_outliers(haversine_mm);
}

#[test]
fn a_document_is_decoded_into_chronological_order() {
    let document = r#"{"settings" : { "locations" : 3 }, "locations" : [
        { "timestamp" : "2016-08-07T04:54:02Z", "latitudeE7" : 1, "longitudeE7" : 10 },
        { "timestamp" : "2016-08-07T04:54:00Z", "latitudeE7" : 2, "longitudeE7" : 20 },
        { "timestamp" : "2016-08-07T06:54:01+02:00", "latitudeE7" : 3, "longitudeE7" : 30 },
        { "timestamp" : "2016-08-07T04:54:00.000Z", "latitudeE7" : 4, "longitudeE7" : 40 }
    ], "more" : [ ] }"#;
    let samples = decode_document(&raw_document_of(document)).unwrap();
    let order: Vec<i64> = samples.iter().map(|l| l.latitude_e7).collect();
    assert_eq!(order, vec![2, 4, 3, 1]);
    assert_eq!(seconds_of(&samples), vec![1470545640, 1470545640, 1470545641, 1470545642]);
    let none = decode_document(&raw_document_of(r#"{"locations" : [ ]}"#)).unwrap();
    assert!(none.is_empty());
}

#[test]
fn a_document_without_the_list_is_a_decode_error() {
    assert_eq!(
        decode_document(&raw_document_of(r#"{"records" : [ ]}"#)).unwrap_err(),
        IngestError::Decode(DecodeError::MissingField)
    );
    assert_eq!(
        decode_document(&raw_document_of(r#"[ ]"#)).unwrap_err(),
        IngestError::Decode(DecodeError::MissingField)
    );
    assert_eq!(
        decode_document(&raw_document_of(r#"{"locations" : { "0" : 1 }}"#)).unwrap_err(),
        IngestError::Decode(DecodeError::WrongShape)
    );
    assert_eq!(
        decode_document(&raw_document_of(r#"{"locations" : ["#)).unwrap_err(),
        IngestError::Decode(DecodeError::WrongShape)
    );
    assert_eq!(
        decode_document(&FieldList::Missing).unwrap_err(),
        IngestError::Decode(DecodeError::MissingField)
    );
    assert_eq!(decode_document(&FieldList::Other).unwrap_err(), IngestError::Decode(DecodeError::WrongShape));
}

#[test]
fn a_document_with_a_bad_record_gives_the_first_failure() {
    let document = r#"{"locations" : [
        { "timestamp" : "2016-08-07T04:54:02Z", "latitudeE7" : 1, "longitudeE7" : 10 },
        { "timestamp" : "2016-08-07T04:54:00Z", "latitudeE7" : 1.5, "longitudeE7" : 20 },
        { "timestamp" : "sometime", "latitudeE7" : 3, "longitudeE7" : 30 }
    ]}"#;
    assert_eq!(
        decode_document(&raw_document_of(document)).unwrap_err(),
        IngestError::FieldParse(FieldParseError::Coordinate)
    );
}

#[test]
fn decodes_the_fields_of_a_record() {
    let document = r#"{"locations" : [ {
        "timestamp" : "2016-08-07T04:54:00.678Z",
        "latitudeE7" : 500373489,
        "longitudeE7" : -83320934,
        "accuracy" : 19,
        "altitude" : -7,
        "source" : "WIFI",
        "activity" : [ {
            "timestamp" : "2016-08-07T06:55:01+02:00",
            "activity" : [ { "type" : "STILL", "confidence" : 62 }, { "type" : "ON_FOOT", "confidence" : 38 } ]
        }, {
            "timestamp" : "2016-08-07T04:56:00Z",
            "activity" : [ ]
        } ]
    } ]}"#;
    let locations = decode_all(&raw_locations_of(document)).unwrap();
    assert_eq!(locations.len(), 1);
    let location = &locations[0];
    assert_eq!(location.timestamp.seconds(), 1470545640);
    assert_eq!(location.timestamp.subsec_nanos(), 678_000_000);
    assert_eq!(location.timestamp.offset_seconds(), 0);
    assert_eq!(location.latitude_e7, 500373489);
    assert_eq!(location.longitude_e7, -83320934);
    assert_eq!(location.accuracy, Some(19));
    assert_eq!(location.altitude, Some(-7));
    let observations = location.activities.as_ref().unwrap();
    assert_eq!(observations.len(), 2);
    assert_eq!(observations[0].timestamp.seconds(), 1470545701);
    assert_eq!(observations[0].timestamp.offset_seconds(), 7200);
    assert_eq!(observations[0].activities.len(), 2);
    assert_eq!(observations[0].activities[0].activity_type, "STILL");
    assert_eq!(observations[0].activities[0].confidence, 62);
    assert_eq!(observations[0].activities[1].activity_type, "ON_FOOT");
    assert_eq!(observations[0].activities[1].confidence, 38);
    assert_eq!(observations[1].timestamp.seconds(), 1470545760);
    assert!(observations[1].activities.is_empty());
}

#[test]
fn timestamps_are_read_as_rfc3339() {
    let t = Timestamp::parse_rfc3339("2016-08-07T04:54:00.678Z").unwrap();
    assert_eq!(t.seconds(), 1470545640);
    assert_eq!(t.subsec_nanos(), 678_000_000);
    assert_eq!(t.offset_seconds(), 0);
    let t = Timestamp::parse_rfc3339("1970-01-01T00:00:00+00:00").unwrap();
    assert_eq!((t.seconds(), t.subsec_nanos(), t.offset_seconds()), (0, 0, 0));
    let t = Timestamp::parse_rfc3339("1970-01-01T01:00:00+01:00").unwrap();
    assert_eq!((t.seconds(), t.subsec_nanos(), t.offset_seconds()), (0, 0, 3600));
    let t = Timestamp::parse_rfc3339("1969-12-31T18:59:59.000000001-05:00").unwrap();
    assert_eq!((t.seconds(), t.subsec_nanos(), t.offset_seconds()), (-1, 1, -18000));
    assert!(Timestamp::parse_rfc3339("").is_none());
    assert!(Timestamp::parse_rfc3339("2016-08-07").is_none());
    assert!(Timestamp::parse_rfc3339("2016-08-07T04:54:00").is_none());
    assert!(Timestamp::parse_rfc3339("2016-13-07T04:54:00Z").is_none());
    assert!(Timestamp::parse_rfc3339("1470545640").is_none());
    assert!(Timestamp::parse_rfc3339("yesterday").is_none());
}

#[test]
fn timestamps_are_built_within_range_only() {
    assert!(Timestamp::new(0, 0, 0).is_some());
    assert!(Timestamp::new(-8_334_601_228_800, 0, 0).is_some());
    assert!(Timestamp::new(-8_334_601_228_801, 0, 0).is_none());
    assert!(Timestamp::new(8_210_266_876_799, 1_999_999_999, 86_399).is_some());
    assert!(Timestamp::new(8_210_266_876_800, 0, 0).is_none());
    assert!(Timestamp::new(0, 2_000_000_000, 0).is_none());
    assert!(Timestamp::new(0, 0, 86_400).is_none());
    assert!(Timestamp::new(0, 0, -86_400).is_none());
    assert!(Timestamp::new(0, 0, -86_399).is_some());
    assert!(Timestamp::new(i64::MAX, 0, 0).is_none());
    assert!(Timestamp::new(i64::MIN, 0, 0).is_none());
}

#[test]
fn timestamps_compare_on_the_time_line_and_on_the_wall_clock() {
    let noon_utc = Timestamp::new(43_200, 0, 0).unwrap();
    let same_in_paris = Timestamp::new(43_200, 0, 3600).unwrap();
    let a_little_later = Timestamp::new(43_200, 1, -3600).unwrap();
    assert!(noon_utc.is_same_instant(&same_in_paris));
    assert!(!noon_utc.is_before(&same_in_paris));
    assert!(!same_in_paris.is_before(&noon_utc));
    assert!(noon_utc.is_before(&a_little_later));
    assert!(!a_little_later.is_before(&noon_utc));
    assert!(!noon_utc.is_same_instant(&a_little_later));
    assert!(noon_utc.is_locally_before(&same_in_paris));
    assert!(!same_in_paris.is_locally_before(&noon_utc));
    assert!(a_little_later.is_locally_before(&noon_utc));
    assert!(!noon_utc.is_locally_before(&noon_utc));
    assert_eq!(a_little_later.seconds_since(&noon_utc), 0);
    assert_eq!(Timestamp::new(100, 0, 0).unwrap().seconds_since(&Timestamp::new(-50, 999, 0).unwrap()), 150);
    assert_eq!(
        Timestamp::new(-8_334_601_228_800, 0, 0)
            .unwrap()
            .seconds_since(&Timestamp::new(8_210_266_876_799, 0, 0).unwrap()),
        -16_544_868_105_599
    );
}

#[test]
fn a_missing_timestamp_is_a_decode_error() {
    let mut record = raw("2016-08-07T04:54:00Z", 1, 2);
    record.timestamp = Field::Missing;
    assert_eq!(decode_location(&record).unwrap_err(), IngestError::Decode(DecodeError::MissingField));
    assert_eq!(decode_timestamp(&Field::Missing).unwrap_err(), IngestError::Decode(DecodeError::MissingField));
}

#[test]
fn a_bad_timestamp_is_a_field_parse_error() {
    let record = raw("the day before yesterday", 1, 2);
    assert_eq!(decode_location(&record).unwrap_err(), IngestError::FieldParse(FieldParseError::Timestamp));
    let mut record = raw("2016-08-07T04:54:00Z", 1, 2);
    record.timestamp = Field::Number(1470545640);
    assert_eq!(decode_location(&record).unwrap_err(), IngestError::FieldParse(FieldParseError::Timestamp));
    record.timestamp = Field::Other;
    assert_eq!(decode_location(&record).unwrap_err(), IngestError::FieldParse(FieldParseError::Timestamp));
}

#[test]
fn a_bad_coordinate_is_a_field_parse_error() {
    let mut record = raw("2016-08-07T04:54:00Z", 1, 2);
    record.latitude_e7 = text("50.0373489");
    assert_eq!(decode_location(&record).unwrap_err(), IngestError::FieldParse(FieldParseError::Coordinate));
    let mut record = raw("2016-08-07T04:54:00Z", 1, 2);
    record.longitude_e7 = Field::Other;
    assert_eq!(decode_location(&record).unwrap_err(), IngestError::FieldParse(FieldParseError::Coordinate));
    let mut record = raw("2016-08-07T04:54:00Z", 1, 2);
    record.longitude_e7 = Field::Missing;
    assert_eq!(decode_location(&record).unwrap_err(), IngestError::Decode(DecodeError::MissingField));
}

#[test]
fn the_first_bad_field_gives_the_error() {
    let record = RawLocation {
        timestamp: text("never"),
        latitude_e7: Field::Missing,
        longitude_e7: Field::Other,
        accuracy: text("good"),
        altitude: Field::Other,
        observations: FieldList::Other,
    };
    assert_eq!(decode_location(&record).unwrap_err(), IngestError::FieldParse(FieldParseError::Timestamp));
    let record = RawLocation {
        timestamp: text("2016-08-07T04:54:00Z"),
        latitude_e7: Field::Missing,
        longitude_e7: Field::Other,
        accuracy: text("good"),
        altitude: Field::Other,
        observations: FieldList::Other,
    };
    assert_eq!(decode_location(&record).unwrap_err(), IngestError::Decode(DecodeError::MissingField));
    let record = RawLocation {
        timestamp: text("2016-08-07T04:54:00Z"),
        latitude_e7: Field::Number(0),
        longitude_e7: Field::Other,
        accuracy: text("good"),
        altitude: Field::Other,
        observations: FieldList::Other,
    };
    assert_eq!(decode_location(&record).unwrap_err(), IngestError::FieldParse(FieldParseError::Coordinate));
}

#[test]
fn optional_fields_of_the_wrong_shape_are_decode_errors() {
    let mut record = raw("2016-08-07T04:54:00Z", 1, 2);
    record.accuracy = text("19");
    assert_eq!(decode_location(&record).unwrap_err(), IngestError::Decode(DecodeError::WrongShape));
    let mut record = raw("2016-08-07T04:54:00Z", 1, 2);
    record.altitude = Field::Number(2_147_483_648);
    assert_eq!(decode_location(&record).unwrap_err(), IngestError::Decode(DecodeError::WrongShape));
    let mut record = raw("2016-08-07T04:54:00Z", 1, 2);
    record.observations = FieldList::Other;
    assert_eq!(decode_location(&record).unwrap_err(), IngestError::Decode(DecodeError::WrongShape));
    assert_eq!(decode_metres(&Field::Number(2_147_483_647)).unwrap(), Some(2_147_483_647));
    assert_eq!(decode_metres(&Field::Number(-2_147_483_648)).unwrap(), Some(-2_147_483_648));
    assert_eq!(decode_metres(&Field::Number(-2_147_483_649)).unwrap_err(), IngestError::Decode(DecodeError::WrongShape));
    assert_eq!(decode_metres(&Field::Missing).unwrap(), None);
}

#[test]
fn observations_are_decoded_in_full() {
    let mut record = raw("2016-08-07T04:54:00Z", 1, 2);
    record.observations = FieldList::Items(vec![RawObservation {
        timestamp: text("2016-08-07T04:55:00Z"),
        readings: FieldList::Missing,
    }]);
    assert_eq!(decode_location(&record).unwrap_err(), IngestError::Decode(DecodeError::MissingField));
    record.observations = FieldList::Items(vec![RawObservation {
        timestamp: text("2016-08-07T04:55:00Z"),
        readings: FieldList::Other,
    }]);
    assert_eq!(decode_location(&record).unwrap_err(), IngestError::Decode(DecodeError::WrongShape));
    record.observations = FieldList::Items(vec![
        RawObservation {
            timestamp: text("2016-08-07T04:55:00Z"),
            readings: FieldList::Items(vec![raw_reading("STILL", 100)]),
        },
        RawObservation { timestamp: text("soon"), readings: FieldList::Items(Vec::new()) },
    ]);
    assert_eq!(decode_location(&record).unwrap_err(), IngestError::FieldParse(FieldParseError::Timestamp));
    record.observations = FieldList::Items(vec![RawObservation {
        timestamp: text("2016-08-07T04:55:00Z"),
        readings: FieldList::Items(vec![
            raw_reading("STILL", 100),
            RawReading { kind: Field::Number(3), confidence: Field::Number(1) },
        ]),
    }]);
    assert_eq!(decode_location(&record).unwrap_err(), IngestError::Decode(DecodeError::WrongShape));
    record.observations = FieldList::Items(vec![RawObservation {
        timestamp: text("2016-08-07T04:55:00Z"),
        readings: FieldList::Items(vec![RawReading { kind: text("STILL"), confidence: Field::Missing }]),
    }]);
    assert_eq!(decode_location(&record).unwrap_err(), IngestError::Decode(DecodeError::MissingField));
    record.observations = FieldList::Items(vec![RawObservation {
        timestamp: text("2016-08-07T04:55:00Z"),
        readings: FieldList::Items(vec![raw_reading("STILL", 4_000_000_000)]),
    }]);
    assert_eq!(decode_location(&record).unwrap_err(), IngestError::Decode(DecodeError::WrongShape));
    record.observations = FieldList::Items(vec![RawObservation {
        timestamp: text("2016-08-07T04:55:00Z"),
        readings: FieldList::Items(vec![raw_reading("made up", -3)]),
    }]);
    let location = decode_location(&record).unwrap();
    let observations = location.activities.unwrap();
    assert_eq!(observations[0].activities[0].activity_type, "made up");
    assert_eq!(observations[0].activities[0].confidence, -3);
}

#[test]
fn errors_say_what_went_wrong() {
    assert_eq!(IngestError::Decode(DecodeError::MissingField).message(), "a required field is missing");
    assert_eq!(IngestError::Decode(DecodeError::WrongShape).message(), "a field has the wrong shape");
    assert_eq!(IngestError::FieldParse(FieldParseError::Timestamp).message(), "a timestamp is not RFC 3339");
    assert_eq!(IngestError::FieldParse(FieldParseError::Coordinate).message(), "a coordinate is not an integer");
}

#[test]
fn decoding_gives_one_sample_for_each_record() {
    let mut records = Vec::new();
    let mut k: i64 = 0;
    while k < 250 {
        records.push(raw(&format!("2016-08-07T04:{:02}:{:02}Z", (k / 60) % 60, k % 60), k, -k));
        k += 1;
    }
    let samples = decode_all(&records).unwrap();
    assert_eq!(samples.len(), 250);
    assert_eq!(samples[249].latitude_e7, 249);
    assert_eq!(samples[61].timestamp.seconds(), 1470545640 - 54 * 60 + 61);
    let kept = collect(Window { start: None, end: None }, None, samples);
    assert_eq!(kept.len(), 250);
    assert_eq!(kept[0].latitude_e7, 0);
    assert_eq!(kept[249].longitude_e7, -249);
    assert!(decode_all(&Vec::new()).unwrap().is_empty());
}

#[test]
fn decoding_stops_at_the_first_bad_record() {
    let records = vec![
        raw("2016-08-07T04:54:00Z", 1, 2),
        raw("2016-08-07T04:54:01Z", 1, 2),
        raw("not a time", 1, 2),
        RawLocation {
            timestamp: Field::Missing,
            latitude_e7: Field::Missing,
            longitude_e7: Field::Missing,
            accuracy: Field::Missing,
            altitude: Field::Missing,
            observations: FieldList::Missing,
        },
    ];
    assert_eq!(decode_all(&records).unwrap_err(), IngestError::FieldParse(FieldParseError::Timestamp));
}

#[test]
fn the_producer_sends_what_it_decodes() {
    let record = raw("2016-08-07T04:54:00Z", 5, 6);
    match producer_step(ProducerEvent::Record(record)) {
        ProducerStep::Send(sample) => {
            assert_eq!(sample.timestamp.seconds(), 1470545640);
            assert_eq!(sample.latitude_e7, 5);
        },
        ProducerStep::Finish(_) => panic!("a readable record is sent"),
    }
    let broken = raw("2016-08-07 04:54:00", 5, 6);
    match producer_step(ProducerEvent::Record(broken)) {
        ProducerStep::Finish(completion) => {
            assert_eq!(completion, Completion::Failed(IngestError::FieldParse(FieldParseError::Timestamp)));
            assert!(completion.is_failure());
        },
        ProducerStep::Send(_) => panic!("an unreadable record ends the run"),
    }
    match producer_step(ProducerEvent::EndOfList) {
        ProducerStep::Finish(completion) => {
            assert_eq!(completion, Completion::EndOfStream);
            assert!(!completion.is_failure());
        },
        ProducerStep::Send(_) => panic!("the end of the list ends the run"),
    }
    match producer_step(ProducerEvent::Malformed) {
        ProducerStep::Finish(completion) => {
            assert_eq!(completion, Completion::Failed(IngestError::Decode(DecodeError::WrongShape)));
            assert!(completion.is_failure());
        },
        ProducerStep::Send(_) => panic!("a break in the document ends the run"),
    }
}

#[test]
fn a_run_over_readable_records_sends_each_in_order() {
    let (tx, rx) = std::sync::mpsc::channel();
    let mut events = Vec::new();
    let mut k: i64 = 0;
    while k < 40 {
        events.push(ProducerEvent::Record(raw(&format!("2016-08-07T04:54:{:02}Z", 59 - k), k, 0)));
        k += 1;
    }
    events.push(ProducerEvent::EndOfList);
    let (tried, completion) = produce(events, |sample| tx.send(sample).is_ok());
    assert_eq!(tried, 40);
    assert_eq!(completion, Some(Completion::EndOfStream));
    drop(tx);
    let received: Vec<Location> = rx.iter().collect();
    assert_eq!(received.len(), 40);
    let order: Vec<i64> = received.iter().map(|l| l.latitude_e7).collect();
    assert_eq!(order, (0..40).collect::<Vec<i64>>());
    assert_eq!(received[0].timestamp.seconds(), 1470545640 + 59);
    assert_eq!(received[39].timestamp.seconds(), 1470545640 + 20);
}

#[test]
fn a_run_stops_when_the_consumer_is_gone() {
    let (tx, rx) = std::sync::mpsc::channel();
    drop(rx);
    let events = vec![
        ProducerEvent::Record(raw("2016-08-07T04:54:00Z", 1, 0)),
        ProducerEvent::Record(raw("2016-08-07T04:54:01Z", 2, 0)),
        ProducerEvent::EndOfList,
    ];
    let (tried, completion) = produce(events, |sample| tx.send(sample).is_ok());
    assert_eq!(tried, 1);
    assert_eq!(completion, Some(Completion::ChannelDisconnected));
    // the consumer leaves after two samples
    let delivered = std::cell::Cell::new(0u32);
    let events = vec![
        ProducerEvent::Record(raw("2016-08-07T04:54:00Z", 1, 0)),
        ProducerEvent::Record(raw("2016-08-07T04:54:01Z", 2, 0)),
        ProducerEvent::Record(raw("2016-08-07T04:54:02Z", 3, 0)),
        ProducerEvent::Record(raw("2016-08-07T04:54:03Z", 4, 0)),
        ProducerEvent::EndOfList,
    ];
    let (tried, completion) = produce(events, |_sample| {
        delivered.set(delivered.get() + 1);
        delivered.get() <= 2
    });
    assert_eq!(tried, 3);
    assert_eq!(completion, Some(Completion::ChannelDisconnected));
}

#[test]
fn a_run_fails_at_the_first_record_that_cannot_be_read() {
    let (tx, rx) = std::sync::mpsc::channel();
    let events = vec![
        ProducerEvent::Record(raw("2016-08-07T04:54:00Z", 1, 0)),
        ProducerEvent::Record(raw("2016-08-07T04:54:01Z", 2, 0)),
        ProducerEvent::Record(raw("half past five", 3, 0)),
        ProducerEvent::Record(raw("2016-08-07T04:54:03Z", 4, 0)),
        ProducerEvent::EndOfList,
    ];
    let (tried, completion) = produce(events, |sample| tx.send(sample).is_ok());
    assert_eq!(tried, 2);
    assert_eq!(completion, Some(Completion::Failed(IngestError::FieldParse(FieldParseError::Timestamp))));
    drop(tx);
    assert_eq!(rx.iter().count(), 2);
    let events = vec![ProducerEvent::Record(raw("2016-08-07T04:54:00Z", 1, 0)), ProducerEvent::Malformed];
    let (tried, completion) = produce(events, |_sample| true);
    assert_eq!(tried, 1);
    assert_eq!(completion, Some(Completion::Failed(IngestError::Decode(DecodeError::WrongShape))));
}

#[test]
fn a_run_that_uses_up_its_events_is_not_over() {
    let events = vec![
        ProducerEvent::Record(raw("2016-08-07T04:54:00Z", 1, 0)),
        ProducerEvent::Record(raw("2016-08-07T04:54:01Z", 2, 0)),
    ];
    assert_eq!(produce(events, |_sample| true), (2, None));
    assert_eq!(produce(Vec::new(), |_sample| true), (0, None));
    // events after the end of the list are not looked at
    let events = vec![ProducerEvent::EndOfList, ProducerEvent::Record(raw("2016-08-07T04:54:01Z", 2, 0))];
    assert_eq!(produce(events, |_sample| false), (0, Some(Completion::EndOfStream)));
}

#[test]
fn the_producer_starts_only_on_a_list_under_the_key() {
    assert_eq!(producer_start(true, true), None);
    assert_eq!(
        producer_start(false, false),
        Some(Completion::Failed(IngestError::Decode(DecodeError::MissingField)))
    );
    assert_eq!(
        producer_start(false, true),
        Some(Completion::Failed(IngestError::Decode(DecodeError::MissingField)))
    );
    assert_eq!(
        producer_start(true, false),
        Some(Completion::Failed(IngestError::Decode(DecodeError::WrongShape)))
    );
}

#[test]
fn the_producer_stops_when_the_consumer_is_gone() {
    assert_eq!(after_send(true), None);
    assert_eq!(after_send(false), Some(Completion::ChannelDisconnected));
    assert!(!Completion::ChannelDisconnected.is_failure());
}

#[test]
fn a_window_holds_wall_clock_times_from_start_to_before_end() {
    let window = Window {
        start: Some(Timestamp::new(1000, 0, 0).unwrap()),
        end: Some(Timestamp::new(2000, 0, 0).unwrap()),
    };
    assert!(window.contains(&Timestamp::new(1000, 0, 0).unwrap()));
    assert!(window.contains(&Timestamp::new(1999, 999_999_999, 0).unwrap()));
    assert!(!window.contains(&Timestamp::new(999, 999_999_999, 0).unwrap()));
    assert!(!window.contains(&Timestamp::new(2000, 0, 0).unwrap()));
    // the sample's own offset decides: 500 s UTC at +600 s reads 1100 s
    assert!(window.contains(&Timestamp::new(500, 0, 600).unwrap()));
    assert!(!window.contains(&Timestamp::new(1500, 0, 600).unwrap()));
    assert!(!window.contains(&Timestamp::new(1500, 0, -600).unwrap()));
    let open = Window { start: None, end: None };
    assert!(open.contains(&Timestamp::new(-8_334_601_228_800, 0, 0).unwrap()));
    assert!(open.contains(&Timestamp::new(8_210_266_876_799, 0, 0).unwrap()));
    let from = Window { start: Some(Timestamp::new(0, 0, 0).unwrap()), end: None };
    assert!(from.contains(&Timestamp::new(0, 0, 0).unwrap()));
    assert!(!from.contains(&Timestamp::new(-1, 0, 0).unwrap()));
    let until = Window { start: None, end: Some(Timestamp::new(0, 0, 0).unwrap()) };
    assert!(!until.contains(&Timestamp::new(0, 0, 0).unwrap()));
    assert!(until.contains(&Timestamp::new(-1, 0, 0).unwrap()));
}

#[test]
fn the_consumer_counts_everything_and_keeps_what_the_window_holds() {
    let window = Window {
        start: Some(Timestamp::new(10, 0, 0).unwrap()),
        end: Some(Timestamp::new(20, 0, 0).unwrap()),
    };
    let mut collector = Collector::new(window, None);
    assert_eq!(collector.offer(sample(5, 0)), Progress::Continue);
    assert_eq!(collector.offer(sample(10, 0)), Progress::Continue);
    assert_eq!(collector.offer(sample(25, 0)), Progress::Continue);
    assert_eq!(collector.offer(sample(19, 0)), Progress::Continue);
    assert_eq!(collector.offer(sample(20, 0)), Progress::Continue);
    assert_eq!(collector.parsed, 5);
    assert_eq!(seconds_of(&collector.locations), vec![10, 19]);
    assert_eq!(seconds_of(&collector.into_locations()), vec![10, 19]);
}

#[test]
fn the_consumer_stops_at_the_cap() {
    let open = Window { start: None, end: None };
    let mut collector = Collector::new(open, Some(2));
    assert_eq!(collector.offer(sample(3, 0)), Progress::Continue);
    assert_eq!(collector.offer(sample(1, 0)), Progress::Stop);
    assert_eq!(collector.parsed, 2);
    assert_eq!(seconds_of(&collector.locations), vec![3, 1]);
    // a cap of nothing is looked at after the first sample is kept
    let mut collector = Collector::new(open, Some(0));
    assert_eq!(collector.offer(sample(3, 0)), Progress::Stop);
    assert_eq!(seconds_of(&collector.locations), vec![3]);
    // samples outside the window do not count towards the cap
    let from = Window { start: Some(Timestamp::new(10, 0, 0).unwrap()), end: None };
    let mut collector = Collector::new(from, Some(1));
    assert_eq!(collector.offer(sample(3, 0)), Progress::Continue);
    assert_eq!(collector.offer(sample(4, 0)), Progress::Continue);
    assert_eq!(collector.offer(sample(11, 0)), Progress::Stop);
    assert_eq!(collector.parsed, 3);
}

#[test]
fn the_consumer_counter_stays_at_its_greatest() {
    let open = Window { start: None, end: None };
    let mut collector = Collector::new(open, None);
    collector.parsed = u64::MAX - 1;
    collector.offer(sample(1, 0));
    assert_eq!(collector.parsed, u64::MAX);
    collector.offer(sample(2, 0));
    assert_eq!(collector.parsed, u64::MAX);
    assert_eq!(collector.locations.len(), 2);
}

#[test]
fn collecting_a_batch_is_offering_until_stop() {
    let window = Window { start: Some(Timestamp::new(10, 0, 0).unwrap()), end: None };
    let batch = vec![sample(30, 0), sample(5, 0), sample(20, 0), sample(40, 0), sample(50, 0)];
    assert_eq!(seconds_of(&collect(window, Some(2), batch)), vec![30, 20]);
    let batch = vec![sample(30, 0), sample(5, 0), sample(20, 0), sample(40, 0), sample(50, 0)];
    assert_eq!(seconds_of(&collect(window, None, batch)), vec![30, 20, 40, 50]);
    let batch = vec![sample(30, 0), sample(5, 0), sample(20, 0)];
    assert_eq!(seconds_of(&collect(window, Some(0), batch)), vec![30]);
    let batch = vec![sample(3, 0), sample(5, 0)];
    assert!(collect(window, Some(1), batch).is_empty());
    assert!(collect(window, Some(1), Vec::new()).is_empty());
}
