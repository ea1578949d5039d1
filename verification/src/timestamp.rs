//! Points in time: a count of seconds since the Unix epoch, the nanoseconds
//! within that second, and the offset from UTC the instant was written with.

use vstd::prelude::*;

verus! {

/// The earliest second a timestamp can hold (the first second of the year -262143).
pub const MIN_SECONDS: i64 = -8_334_601_228_800;

/// The latest second a timestamp can hold (the last second of the year 262142).
pub const MAX_SECONDS: i64 = 8_210_266_876_799;

/// Nanoseconds stay below this; values from one thousand million upwards
/// stand for a leap second.
pub const NANOS_LIMIT: u32 = 2_000_000_000;

/// An offset from UTC is strictly less than one day, in either direction.
pub const OFFSET_LIMIT: i32 = 86_400;

/// The mathematical value of a [`Timestamp`].
pub struct Moment {
    /// Whole seconds since 1970-01-01T00:00:00 UTC, leap seconds not counted.
    pub seconds: int,
    /// Nanoseconds since the start of that second.
    pub nanos: int,
    /// Seconds to add to UTC to get the local time the instant was written in.
    pub offset_seconds: int,
}

impl Moment {
    /// The ranges every timestamp stays in.
    pub open spec fn in_range(self) -> bool {
        &&& MIN_SECONDS <= self.seconds <= MAX_SECONDS
        &&& 0 <= self.nanos < NANOS_LIMIT
        &&& -OFFSET_LIMIT < self.offset_seconds < OFFSET_LIMIT
    }

    /// The place of the instant on the time line: seconds and nanoseconds
    /// folded into one number, with room in every second for a leap second.
    /// The offset plays no part.
    pub open spec fn timeline_key(self) -> int {
        self.seconds * NANOS_LIMIT + self.nanos
    }

    /// Strictly earlier on the time line.
    pub open spec fn precedes(self, other: Moment) -> bool {
        self.timeline_key() < other.timeline_key()
    }

    /// The same point on the time line, whatever the offsets.
    pub open spec fn same_instant(self, other: Moment) -> bool {
        self.timeline_key() == other.timeline_key()
    }

    /// Not later on the time line.
    pub open spec fn at_or_before(self, other: Moment) -> bool {
        self.timeline_key() <= other.timeline_key()
    }

    /// Seconds of the wall clock at the instant's own offset.
    pub open spec fn local_seconds(self) -> int {
        self.seconds + self.offset_seconds
    }

    /// Strictly earlier on the wall clock, each instant read at its own offset.
    pub open spec fn local_precedes(self, other: Moment) -> bool {
        self.local_seconds() < other.local_seconds() || (self.local_seconds()
            == other.local_seconds() && self.nanos < other.nanos)
    }
}

/// An instant with an explicit offset from UTC.
#[derive(Clone, Copy, Debug)]
pub struct Timestamp {
    seconds: i64,
    nanos: u32,
    offset_seconds: i32,
}

impl View for Timestamp {
    type V = Moment;

    closed spec fn view(&self) -> Moment {
        Moment {
            seconds: self.seconds as int,
            nanos: self.nanos as int,
            offset_seconds: self.offset_seconds as int,
        }
    }
}

/// What an RFC 3339 text denotes according to chrono: seconds since the epoch,
/// nanoseconds within the second and offset from UTC in seconds, or nothing
/// where chrono rejects the text.
pub uninterp spec fn rfc3339_reading(text: Seq<char>) -> Option<(i64, u32, i32)>;

#[verifier::external_type_specification]
#[verifier::external_body]
pub struct ExParseError(chrono::format::ParseError);

/// Calls `chrono::DateTime::parse_from_rfc3339` and takes the parsed value
/// apart with `timestamp`, `timestamp_subsec_nanos` and
/// `offset().local_minus_utc()`. Trusted: the outcome depends on the text
/// alone, so it is the named reading of that text; nothing is claimed about
/// which texts are accepted or what they denote.
#[verifier::external_body]
fn read_rfc3339(text: &str) -> (r: Result<(i64, u32, i32), chrono::format::ParseError>)
    ensures
        r matches Ok(parts) ==> rfc3339_reading(text@) == Some(parts),
        r is Err ==> rfc3339_reading(text@) is None,
{
    match chrono::DateTime::parse_from_rfc3339(text) {
        Ok(t) => Ok((t.timestamp(), t.timestamp_subsec_nanos(), t.offset().local_minus_utc())),
        Err(e) => Err(e),
    }
}

/// The timestamp an RFC 3339 text stands for: the reading of the text where
/// there is one and it lies in range.
pub open spec fn rfc3339_moment(text: Seq<char>) -> Option<Moment> {
    match rfc3339_reading(text) {
        Some((seconds, nanos, offset_seconds)) => {
            let moment = Moment {
                seconds: seconds as int,
                nanos: nanos as int,
                offset_seconds: offset_seconds as int,
            };
            if moment.in_range() {
                Some(moment)
            } else {
                None
            }
        },
        None => None,
    }
}

/// Within range, the time line orders instants by their seconds first and by
/// their nanoseconds within the same second.
pub proof fn lemma_timeline_order(a: Moment, b: Moment)
    requires
        a.in_range(),
        b.in_range(),
    ensures
        a.precedes(b) <==> (a.seconds < b.seconds || (a.seconds == b.seconds && a.nanos
            < b.nanos)),
        a.same_instant(b) <==> (a.seconds == b.seconds && a.nanos == b.nanos),
{
}

impl Timestamp {
    #[verifier::type_invariant]
    spec fn well_formed(self) -> bool {
        self@.in_range()
    }

    /// Builds a timestamp from its parts; `None` exactly when a part is out of range.
    pub fn new(seconds: i64, nanos: u32, offset_seconds: i32) -> (r: Option<Timestamp>)
        ensures
            r is Some <==> (Moment {
                seconds: seconds as int,
                nanos: nanos as int,
                offset_seconds: offset_seconds as int,
            }).in_range(),
            r matches Some(t) ==> t@ == (Moment {
                seconds: seconds as int,
                nanos: nanos as int,
                offset_seconds: offset_seconds as int,
            }),
    {
        if MIN_SECONDS <= seconds && seconds <= MAX_SECONDS && nanos < NANOS_LIMIT && -OFFSET_LIMIT
            < offset_seconds && offset_seconds < OFFSET_LIMIT {
            Some(Timestamp { seconds, nanos, offset_seconds })
        } else {
            None
        }
    }

    /// Reads an RFC 3339 date and time. `None` exactly when the text has no
    /// reading or the reading is out of range.
    pub fn parse_rfc3339(text: &str) -> (r: Option<Timestamp>)
        ensures
            r is Some <==> rfc3339_moment(text@) is Some,
            r matches Some(t) ==> rfc3339_moment(text@) == Some(t@),
    {
        match read_rfc3339(text) {
            Ok((seconds, nanos, offset_seconds)) => Timestamp::new(seconds, nanos, offset_seconds),
            Err(_) => None,
        }
    }

    /// Whole seconds since the Unix epoch.
    pub fn seconds(&self) -> (r: i64)
        ensures
            r == self@.seconds,
            self@.in_range(),
    {
        proof {
            use_type_invariant(self);
        }
        self.seconds
    }

    /// Nanoseconds within the second.
    pub fn subsec_nanos(&self) -> (r: u32)
        ensures
            r == self@.nanos,
            self@.in_range(),
    {
        proof {
            use_type_invariant(self);
        }
        self.nanos
    }

    /// Offset from UTC in seconds, positive to the east.
    pub fn offset_seconds(&self) -> (r: i32)
        ensures
            r == self@.offset_seconds,
            self@.in_range(),
    {
        proof {
            use_type_invariant(self);
        }
        self.offset_seconds
    }

    /// Whether this instant is strictly earlier than `other`.
    pub fn is_before(&self, other: &Timestamp) -> (r: bool)
        ensures
            r == self@.precedes(other@),
    {
        proof {
            use_type_invariant(self);
            use_type_invariant(other);
        }
        self.seconds < other.seconds || (self.seconds == other.seconds && self.nanos < other.nanos)
    }

    /// Whether both are the same instant, whatever their offsets.
    pub fn is_same_instant(&self, other: &Timestamp) -> (r: bool)
        ensures
            r == self@.same_instant(other@),
    {
        proof {
            use_type_invariant(self);
            use_type_invariant(other);
        }
        self.seconds == other.seconds && self.nanos == other.nanos
    }

    /// Whether this instant's wall clock reads strictly earlier than `other`'s,
    /// each at its own offset.
    pub fn is_locally_before(&self, other: &Timestamp) -> (r: bool)
        ensures
            r == self@.local_precedes(other@),
    {
        proof {
            use_type_invariant(self);
            use_type_invariant(other);
        }
        let mine: i64 = self.seconds + self.offset_seconds as i64;
        let theirs: i64 = other.seconds + other.offset_seconds as i64;
        mine < theirs || (mine == theirs && self.nanos < other.nanos)
    }

    /// Whole seconds from `other` to this instant: later minus earlier,
    /// negative where this instant is the earlier one. Nanoseconds are ignored.
    pub fn seconds_since(&self, other: &Timestamp) -> (r: i64)
        ensures
            r == self@.seconds - other@.seconds,
    {
        proof {
            use_type_invariant(self);
            use_type_invariant(other);
        }
        self.seconds - other.seconds
    }
}

} // verus!
