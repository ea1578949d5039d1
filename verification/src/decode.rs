//! From the fields of a record, as they stand in the document, to a sample.

use vstd::prelude::*;
use crate::activity::Activities;
use crate::activity::Activity;
use crate::error::DecodeError;
use crate::error::FieldParseError;
use crate::error::IngestError;
use crate::location::Location;
use crate::sorting::is_stable_sort_of;
use crate::sorting::stable_sort;
use crate::timestamp::rfc3339_moment;
use crate::timestamp::Timestamp;

verus! {

/// What the document holds for one field of a record.
#[derive(Debug)]
pub enum Field {
    /// The record has no such field.
    Missing,
    /// A text.
    Text(String),
    /// An integer.
    Number(i64),
    /// Anything else: a fraction, a truth value, a list, an object, null.
    Other,
}

/// What the document holds for a field that is a list of records.
#[derive(Debug)]
pub enum FieldList<T> {
    /// The record has no such field.
    Missing,
    /// A list with these items.
    Items(Vec<T>),
    /// Anything but a list.
    Other,
}

/// One reading as it stands in the document.
#[derive(Debug)]
pub struct RawReading {
    /// The field `type`.
    pub kind: Field,
    /// The field `confidence`.
    pub confidence: Field,
}

/// One observation as it stands in the document.
#[derive(Debug)]
pub struct RawObservation {
    /// The field `timestamp`.
    pub timestamp: Field,
    /// The field `activity`.
    pub readings: FieldList<RawReading>,
}

/// One sample as it stands in the document.
#[derive(Debug)]
pub struct RawLocation {
    /// The field `timestamp`.
    pub timestamp: Field,
    /// The field `latitudeE7`.
    pub latitude_e7: Field,
    /// The field `longitudeE7`.
    pub longitude_e7: Field,
    /// The field `accuracy`.
    pub accuracy: Field,
    /// The field `altitude`.
    pub altitude: Field,
    /// The field `activity`.
    pub observations: FieldList<RawObservation>,
}

/// Why a timestamp field cannot be read, if it cannot: it must be there,
/// and be an RFC 3339 text within range.
pub open spec fn timestamp_failure(field: Field) -> Option<IngestError> {
    match field {
        Field::Missing => Some(IngestError::Decode(DecodeError::MissingField)),
        Field::Text(text) => if rfc3339_moment(text@) is Some {
            None
        } else {
            Some(IngestError::FieldParse(FieldParseError::Timestamp))
        },
        _ => Some(IngestError::FieldParse(FieldParseError::Timestamp)),
    }
}

/// Why a coordinate field cannot be read, if it cannot: it must be there,
/// and be an integer.
pub open spec fn coordinate_failure(field: Field) -> Option<IngestError> {
    match field {
        Field::Missing => Some(IngestError::Decode(DecodeError::MissingField)),
        Field::Number(_) => None,
        _ => Some(IngestError::FieldParse(FieldParseError::Coordinate)),
    }
}

/// Why an optional field of whole metres cannot be read, if it cannot:
/// where it is there, it must be an integer of 32 bits.
pub open spec fn metres_failure(field: Field) -> Option<IngestError> {
    match field {
        Field::Missing => None,
        Field::Number(n) => if i32::MIN <= n <= i32::MAX {
            None
        } else {
            Some(IngestError::Decode(DecodeError::WrongShape))
        },
        _ => Some(IngestError::Decode(DecodeError::WrongShape)),
    }
}

/// The metres an optional field holds.
pub open spec fn metres_of(field: Field) -> Option<int> {
    match field {
        Field::Number(n) => Some(n as int),
        _ => None,
    }
}

/// The first of two failures.
pub open spec fn or_else(first: Option<IngestError>, second: Option<IngestError>) -> Option<
    IngestError,
> {
    if first is Some {
        first
    } else {
        second
    }
}

/// The first failure in a list of outcomes.
pub open spec fn first_failure(outcomes: Seq<Option<IngestError>>) -> Option<IngestError>
    decreases outcomes.len(),
{
    if outcomes.len() == 0 {
        None
    } else {
        or_else(first_failure(outcomes.drop_last()), outcomes.last())
    }
}

/// Why a reading cannot be read, if it cannot: its label must be a text and
/// its confidence an integer of 32 bits.
pub open spec fn reading_failure(raw: RawReading) -> Option<IngestError> {
    or_else(
        match raw.kind {
            Field::Missing => Some(IngestError::Decode(DecodeError::MissingField)),
            Field::Text(_) => None,
            _ => Some(IngestError::Decode(DecodeError::WrongShape)),
        },
        match raw.confidence {
            Field::Missing => Some(IngestError::Decode(DecodeError::MissingField)),
            Field::Number(n) => if i32::MIN <= n <= i32::MAX {
                None
            } else {
                Some(IngestError::Decode(DecodeError::WrongShape))
            },
            _ => Some(IngestError::Decode(DecodeError::WrongShape)),
        },
    )
}

/// Why a list of readings cannot be read, if it cannot: the first failure
/// among its readings.
pub open spec fn readings_failure(raws: Seq<RawReading>) -> Option<IngestError> {
    first_failure(Seq::new(raws.len(), |i: int| reading_failure(raws[i])))
}

/// Why an observation cannot be read, if it cannot: its timestamp must be
/// readable and its list of readings must be there.
pub open spec fn observation_failure(raw: RawObservation) -> Option<IngestError> {
    or_else(
        timestamp_failure(raw.timestamp),
        match raw.readings {
            FieldList::Missing => Some(IngestError::Decode(DecodeError::MissingField)),
            FieldList::Items(items) => readings_failure(items@),
            FieldList::Other => Some(IngestError::Decode(DecodeError::WrongShape)),
        },
    )
}

/// Why a list of observations cannot be read, if it cannot.
pub open spec fn observations_failure(raws: Seq<RawObservation>) -> Option<IngestError> {
    first_failure(Seq::new(raws.len(), |i: int| observation_failure(raws[i])))
}

/// Why a sample cannot be read, if it cannot: the first failure among its
/// fields, taken in the order timestamp, latitude, longitude, accuracy,
/// altitude, observations. Timestamp and coordinates must be there; the
/// others may be missing.
pub open spec fn location_failure(raw: RawLocation) -> Option<IngestError> {
    or_else(
        timestamp_failure(raw.timestamp),
        or_else(
            coordinate_failure(raw.latitude_e7),
            or_else(
                coordinate_failure(raw.longitude_e7),
                or_else(
                    metres_failure(raw.accuracy),
                    or_else(
                        metres_failure(raw.altitude),
                        match raw.observations {
                            FieldList::Missing => None,
                            FieldList::Items(items) => observations_failure(items@),
                            FieldList::Other => Some(IngestError::Decode(DecodeError::WrongShape)),
                        },
                    ),
                ),
            ),
        ),
    )
}

/// Why a document's records cannot be read, if they cannot: the first
/// failure among them.
pub open spec fn history_failure(raws: Seq<RawLocation>) -> Option<IngestError> {
    first_failure(Seq::new(raws.len(), |i: int| location_failure(raws[i])))
}

/// The timestamp is what the field's text stands for.
pub open spec fn timestamp_decodes(field: Field, timestamp: Timestamp) -> bool {
    field matches Field::Text(text) && rfc3339_moment(text@) == Some(timestamp@)
}

/// The reading holds the label and the confidence of the raw reading.
pub open spec fn reading_decodes(raw: RawReading, reading: Activity) -> bool {
    &&& raw.kind matches Field::Text(text) && reading.activity_type@ == text@
    &&& raw.confidence matches Field::Number(n) && reading.confidence == n
}

/// The readings are those of the raw list, one for one.
pub open spec fn readings_decode(raws: Seq<RawReading>, readings: Seq<Activity>) -> bool {
    &&& readings.len() == raws.len()
    &&& forall|i: int| 0 <= i < raws.len() ==> reading_decodes(raws[i], #[trigger] readings[i])
}

/// The observation holds what the raw observation holds.
pub open spec fn observation_decodes(raw: RawObservation, observation: Activities) -> bool {
    &&& timestamp_decodes(raw.timestamp, observation.timestamp)
    &&& raw.readings matches FieldList::Items(items) && readings_decode(
        items@,
        observation.activities@,
    )
}

/// The observations are those of the raw list, one for one.
pub open spec fn observations_decode(
    raws: Seq<RawObservation>,
    observations: Seq<Activities>,
) -> bool {
    &&& observations.len() == raws.len()
    &&& forall|i: int|
        0 <= i < raws.len() ==> observation_decodes(raws[i], #[trigger] observations[i])
}

/// The sample holds what the raw sample holds: the instant its timestamp
/// stands for, the coordinates as they are, accuracy and altitude where
/// given, and the observations where there is a list of them.
pub open spec fn location_decodes(raw: RawLocation, sample: Location) -> bool {
    &&& timestamp_decodes(raw.timestamp, sample.timestamp)
    &&& raw.latitude_e7 == Field::Number(sample.latitude_e7)
    &&& raw.longitude_e7 == Field::Number(sample.longitude_e7)
    &&& sample@.accuracy == metres_of(raw.accuracy)
    &&& sample@.altitude == metres_of(raw.altitude)
    &&& match raw.observations {
        FieldList::Items(items) => sample.activities matches Some(observations)
            && observations_decode(items@, observations@),
        _ => sample.activities is None,
    }
}

/// The samples are those of the raw records, one for one.
pub open spec fn history_decodes(raws: Seq<RawLocation>, samples: Seq<Location>) -> bool {
    &&& samples.len() == raws.len()
    &&& forall|i: int| 0 <= i < raws.len() ==> location_decodes(raws[i], #[trigger] samples[i])
}

/// The samples are those of the raw records in chronological order;
/// samples at the same instant stand in the order of their records.
pub open spec fn is_sorted_decoding_of(raws: Seq<RawLocation>, samples: Seq<Location>) -> bool {
    exists|decoded: Seq<Location>| #[trigger]
        history_decodes(raws, decoded) && is_stable_sort_of(samples, decoded)
}

/// Where the outcomes before a place are all successes, the first failure
/// of the whole list is the first failure from that place on; in particular
/// a failure at that place is the first failure.
pub proof fn lemma_first_failure_at(outcomes: Seq<Option<IngestError>>, i: int)
    requires
        0 <= i < outcomes.len(),
        first_failure(outcomes.take(i)) is None,
        outcomes[i] is Some,
    ensures
        first_failure(outcomes) == outcomes[i],
    decreases outcomes.len(),
{
    if i == outcomes.len() - 1 {
        assert(outcomes.drop_last() =~= outcomes.take(i));
    } else {
        let front = outcomes.drop_last();
        assert(front.take(i) =~= outcomes.take(i));
        lemma_first_failure_at(front, i);
    }
}

/// In a list of outcomes without a first failure, no outcome is a failure.
pub proof fn lemma_no_failure_anywhere(outcomes: Seq<Option<IngestError>>, i: int)
    requires
        0 <= i < outcomes.len(),
        first_failure(outcomes) is None,
    ensures
        outcomes[i] is None,
    decreases outcomes.len(),
{
    if i < outcomes.len() - 1 {
        lemma_no_failure_anywhere(outcomes.drop_last(), i);
    }
}

/// One more success leaves a list of successes without failure.
pub proof fn lemma_first_failure_step(outcomes: Seq<Option<IngestError>>, i: int)
    requires
        0 <= i < outcomes.len(),
        first_failure(outcomes.take(i)) is None,
        outcomes[i] is None,
    ensures
        first_failure(outcomes.take(i + 1)) is None,
{
    assert(outcomes.take(i + 1).drop_last() =~= outcomes.take(i));
}

/// Reads a timestamp field.
pub fn decode_timestamp(field: &Field) -> (r: Result<Timestamp, IngestError>)
    ensures
        match r {
            Ok(timestamp) => timestamp_failure(*field) is None && timestamp_decodes(
                *field,
                timestamp,
            ),
            Err(e) => timestamp_failure(*field) == Some(e),
        },
{
    match field {
        Field::Missing => Err(IngestError::Decode(DecodeError::MissingField)),
        Field::Text(text) => match Timestamp::parse_rfc3339(text.as_str()) {
            Some(timestamp) => Ok(timestamp),
            None => Err(IngestError::FieldParse(FieldParseError::Timestamp)),
        },
        _ => Err(IngestError::FieldParse(FieldParseError::Timestamp)),
    }
}

/// Reads a coordinate field.
pub fn decode_coordinate(field: &Field) -> (r: Result<i64, IngestError>)
    ensures
        match r {
            Ok(n) => coordinate_failure(*field) is None && *field == Field::Number(n),
            Err(e) => coordinate_failure(*field) == Some(e),
        },
{
    match field {
        Field::Missing => Err(IngestError::Decode(DecodeError::MissingField)),
        Field::Number(n) => Ok(*n),
        _ => Err(IngestError::FieldParse(FieldParseError::Coordinate)),
    }
}

/// Reads an optional field of whole metres.
pub fn decode_metres(field: &Field) -> (r: Result<Option<i32>, IngestError>)
    ensures
        match r {
            Ok(Some(n)) => metres_failure(*field) is None && metres_of(*field) == Some(n as int),
            Ok(None) => metres_failure(*field) is None && metres_of(*field) is None,
            Err(e) => metres_failure(*field) == Some(e),
        },
{
    match field {
        Field::Missing => Ok(None),
        Field::Number(n) => {
            if -0x8000_0000 <= *n && *n <= 0x7fff_ffff {
                Ok(Some(*n as i32))
            } else {
                Err(IngestError::Decode(DecodeError::WrongShape))
            }
        },
        _ => Err(IngestError::Decode(DecodeError::WrongShape)),
    }
}

/// Reads one reading.
pub fn decode_reading(raw: &RawReading) -> (r: Result<Activity, IngestError>)
    ensures
        match r {
            Ok(reading) => reading_failure(*raw) is None && reading_decodes(*raw, reading),
            Err(e) => reading_failure(*raw) == Some(e),
        },
{
    let label: String = match &raw.kind {
        Field::Missing => {
            return Err(IngestError::Decode(DecodeError::MissingField));
        },
        Field::Text(text) => text.clone(),
        _ => {
            return Err(IngestError::Decode(DecodeError::WrongShape));
        },
    };
    match &raw.confidence {
        Field::Missing => Err(IngestError::Decode(DecodeError::MissingField)),
        Field::Number(n) => {
            if -0x8000_0000 <= *n && *n <= 0x7fff_ffff {
                Ok(Activity { activity_type: label, confidence: *n as i32 })
            } else {
                Err(IngestError::Decode(DecodeError::WrongShape))
            }
        },
        _ => Err(IngestError::Decode(DecodeError::WrongShape)),
    }
}

/// Reads a list of readings; stops at the first that cannot be read.
pub fn decode_readings(raws: &Vec<RawReading>) -> (r: Result<Vec<Activity>, IngestError>)
    ensures
        match r {
            Ok(readings) => readings_failure(raws@) is None && readings_decode(raws@, readings@),
            Err(e) => readings_failure(raws@) == Some(e),
        },
{
    let ghost outcomes = Seq::new(raws@.len(), |i: int| reading_failure(raws@[i]));
    let mut out: Vec<Activity> = Vec::new();
    let count: usize = raws.len();
    let mut i: usize = 0;
    assert(outcomes.take(0) =~= Seq::<Option<IngestError>>::empty());
    while i < count
        invariant
            0 <= i <= count,
            count == raws@.len(),
            outcomes == Seq::new(raws@.len(), |i: int| reading_failure(raws@[i])),
            first_failure(outcomes.take(i as int)) is None,
            out@.len() == i,
            forall|j: int| 0 <= j < i ==> reading_decodes(raws@[j], #[trigger] out@[j]),
        decreases count - i,
    {
        match decode_reading(&raws[i]) {
            Ok(reading) => {
                proof {
                    lemma_first_failure_step(outcomes, i as int);
                }
                out.push(reading);
            },
            Err(e) => {
                proof {
                    lemma_first_failure_at(outcomes, i as int);
                }
                return Err(e);
            },
        }
        i = i + 1;
    }
    assert(outcomes.take(count as int) =~= outcomes);
    Ok(out)
}

/// Reads one observation.
pub fn decode_observation(raw: &RawObservation) -> (r: Result<Activities, IngestError>)
    ensures
        match r {
            Ok(observation) => observation_failure(*raw) is None && observation_decodes(
                *raw,
                observation,
            ),
            Err(e) => observation_failure(*raw) == Some(e),
        },
{
    let timestamp: Timestamp = match decode_timestamp(&raw.timestamp) {
        Ok(timestamp) => timestamp,
        Err(e) => {
            return Err(e);
        },
    };
    match &raw.readings {
        FieldList::Missing => Err(IngestError::Decode(DecodeError::MissingField)),
        FieldList::Items(items) => match decode_readings(items) {
            Ok(activities) => Ok(Activities { timestamp, activities }),
            Err(e) => Err(e),
        },
        FieldList::Other => Err(IngestError::Decode(DecodeError::WrongShape)),
    }
}

/// Reads a list of observations; stops at the first that cannot be read.
pub fn decode_observations(raws: &Vec<RawObservation>) -> (r: Result<
    Vec<Activities>,
    IngestError,
>)
    ensures
        match r {
            Ok(observations) => observations_failure(raws@) is None && observations_decode(
                raws@,
                observations@,
            ),
            Err(e) => observations_failure(raws@) == Some(e),
        },
{
    let ghost outcomes = Seq::new(raws@.len(), |i: int| observation_failure(raws@[i]));
    let mut out: Vec<Activities> = Vec::new();
    let count: usize = raws.len();
    let mut i: usize = 0;
    assert(outcomes.take(0) =~= Seq::<Option<IngestError>>::empty());
    while i < count
        invariant
            0 <= i <= count,
            count == raws@.len(),
            outcomes == Seq::new(raws@.len(), |i: int| observation_failure(raws@[i])),
            first_failure(outcomes.take(i as int)) is None,
            out@.len() == i,
            forall|j: int| 0 <= j < i ==> observation_decodes(raws@[j], #[trigger] out@[j]),
        decreases count - i,
    {
        match decode_observation(&raws[i]) {
            Ok(observation) => {
                proof {
                    lemma_first_failure_step(outcomes, i as int);
                }
                out.push(observation);
            },
            Err(e) => {
                proof {
                    lemma_first_failure_at(outcomes, i as int);
                }
                return Err(e);
            },
        }
        i = i + 1;
    }
    assert(outcomes.take(count as int) =~= outcomes);
    Ok(out)
}

/// Reads one sample. A field that cannot be read is fatal: the first such
/// field, in the order timestamp, latitude, longitude, accuracy, altitude,
/// observations, gives the error.
pub fn decode_location(raw: &RawLocation) -> (r: Result<Location, IngestError>)
    ensures
        match r {
            Ok(sample) => location_failure(*raw) is None && location_decodes(*raw, sample),
            Err(e) => location_failure(*raw) == Some(e),
        },
{
    let timestamp: Timestamp = match decode_timestamp(&raw.timestamp) {
        Ok(timestamp) => timestamp,
        Err(e) => {
            return Err(e);
        },
    };
    let latitude_e7: i64 = match decode_coordinate(&raw.latitude_e7) {
        Ok(n) => n,
        Err(e) => {
            return Err(e);
        },
    };
    let longitude_e7: i64 = match decode_coordinate(&raw.longitude_e7) {
        Ok(n) => n,
        Err(e) => {
            return Err(e);
        },
    };
    let accuracy: Option<i32> = match decode_metres(&raw.accuracy) {
        Ok(metres) => metres,
        Err(e) => {
            return Err(e);
        },
    };
    let altitude: Option<i32> = match decode_metres(&raw.altitude) {
        Ok(metres) => metres,
        Err(e) => {
            return Err(e);
        },
    };
    let activities: Option<Vec<Activities>> = match &raw.observations {
        FieldList::Missing => None,
        FieldList::Items(items) => match decode_observations(items) {
            Ok(observations) => Some(observations),
            Err(e) => {
                return Err(e);
            },
        },
        FieldList::Other => {
            return Err(IngestError::Decode(DecodeError::WrongShape));
        },
    };
    Ok(Location { timestamp, latitude_e7, longitude_e7, accuracy, altitude, activities })
}

/// Reads the records of a document in order; stops at the first record
/// that cannot be read. Where all can be read there is one sample for each
/// record.
pub fn decode_all(raws: &Vec<RawLocation>) -> (r: Result<Vec<Location>, IngestError>)
    ensures
        match r {
            Ok(samples) => history_failure(raws@) is None && history_decodes(raws@, samples@),
            Err(e) => history_failure(raws@) == Some(e),
        },
{
    let ghost outcomes = Seq::new(raws@.len(), |i: int| location_failure(raws@[i]));
    let mut out: Vec<Location> = Vec::new();
    let count: usize = raws.len();
    let mut i: usize = 0;
    assert(outcomes.take(0) =~= Seq::<Option<IngestError>>::empty());
    while i < count
        invariant
            0 <= i <= count,
            count == raws@.len(),
            outcomes == Seq::new(raws@.len(), |i: int| location_failure(raws@[i])),
            first_failure(outcomes.take(i as int)) is None,
            out@.len() == i,
            forall|j: int| 0 <= j < i ==> location_decodes(raws@[j], #[trigger] out@[j]),
        decreases count - i,
    {
        match decode_location(&raws[i]) {
            Ok(sample) => {
                proof {
                    lemma_first_failure_step(outcomes, i as int);
                }
                out.push(sample);
            },
            Err(e) => {
                proof {
                    lemma_first_failure_at(outcomes, i as int);
                }
                return Err(e);
            },
        }
        i = i + 1;
    }
    assert(outcomes.take(count as int) =~= outcomes);
    Ok(out)
}

/// Reads a document from what stands under its key `locations`, and returns
/// the samples in chronological order. A document without the key, or with
/// something other than a list under it, is not a history; a record that
/// cannot be read is fatal, and the first such record gives the error.
pub fn decode_document(list: &FieldList<RawLocation>) -> (r: Result<Vec<Location>, IngestError>)
    ensures
        match r {
            Ok(samples) => *list matches FieldList::Items(raws) && history_failure(raws@) is None
                && is_sorted_decoding_of(raws@, samples@),
            Err(e) => match *list {
                FieldList::Missing => e == IngestError::Decode(DecodeError::MissingField),
                FieldList::Other => e == IngestError::Decode(DecodeError::WrongShape),
                FieldList::Items(raws) => history_failure(raws@) == Some(e),
            },
        },
{
    match list {
        FieldList::Missing => Err(IngestError::Decode(DecodeError::MissingField)),
        FieldList::Other => Err(IngestError::Decode(DecodeError::WrongShape)),
        FieldList::Items(raws) => match decode_all(raws) {
            Ok(decoded) => {
                let ghost unsorted = decoded@;
                let samples: Vec<Location> = stable_sort(decoded);
                assert(history_decodes(raws@, unsorted) && is_stable_sort_of(samples@, unsorted));
                Ok(samples)
            },
            Err(e) => Err(e),
        },
    }
}

} // verus!
