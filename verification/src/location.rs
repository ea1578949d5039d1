//! One sample of the history: where, when, how exact, and what motion was
//! inferred nearby.

use vstd::prelude::*;
use crate::activity::Activities;
use crate::activity::is_observation_outcome;
use crate::activity::is_settled_observation;
use crate::activity::lemma_settled_observation_has_one_outcome;
use crate::activity::ActivitiesView;
use crate::activity::Activity;
use crate::sorting::is_stable_sort_of;
use crate::sorting::stable_sort;
use crate::tally::is_ranking_of;
use crate::tally::kinds_present;
use crate::tally::lemma_nothing_fits;
use crate::tally::lemma_prefix_fits;
use crate::tally::running_totals_fit;
use crate::tally::Tally;
use crate::sorting::SortKey;
use crate::timestamp::Moment;
use crate::timestamp::Timestamp;

verus! {

/// A position in degrees times ten million, the fixed-point form the
/// history is recorded in.
#[derive(Clone, Copy, Debug, PartialEq, Eq, Structural)]
pub struct Coordinates {
    /// Latitude in units of 1e-7 degrees.
    pub latitude_e7: i64,
    /// Longitude in units of 1e-7 degrees.
    pub longitude_e7: i64,
}

/// The mathematical value of a [`Location`].
pub struct LocationView {
    /// When the sample was taken.
    pub timestamp: Moment,
    /// Latitude in units of 1e-7 degrees.
    pub latitude_e7: int,
    /// Longitude in units of 1e-7 degrees.
    pub longitude_e7: int,
    /// Accuracy in metres, where known.
    pub accuracy: Option<int>,
    /// Altitude in metres, where known.
    pub altitude: Option<int>,
    /// The observations recorded with the sample, where there are any.
    pub activities: Option<Seq<ActivitiesView>>,
}

/// A location sample.
#[derive(Debug)]
pub struct Location {
    /// When the sample was taken.
    pub timestamp: Timestamp,
    /// Latitude in units of 1e-7 degrees.
    pub latitude_e7: i64,
    /// Longitude in units of 1e-7 degrees.
    pub longitude_e7: i64,
    /// Accuracy of the sample in metres, where known.
    pub accuracy: Option<i32>,
    /// Altitude in metres, where known.
    pub altitude: Option<i32>,
    /// The observations recorded with the sample, where there are any.
    pub activities: Option<Vec<Activities>>,
}

/// The values of a sequence of observations, one for one.
pub open spec fn observation_views(observations: Seq<Activities>) -> Seq<ActivitiesView> {
    Seq::new(observations.len(), |i: int| observations[i]@)
}

impl View for Location {
    type V = LocationView;

    open spec fn view(&self) -> LocationView {
        LocationView {
            timestamp: self.timestamp@,
            latitude_e7: self.latitude_e7 as int,
            longitude_e7: self.longitude_e7 as int,
            accuracy: match self.accuracy {
                Some(metres) => Some(metres as int),
                None => None,
            },
            altitude: match self.altitude {
                Some(metres) => Some(metres as int),
                None => None,
            },
            activities: match self.activities {
                Some(observations) => Some(observation_views(observations@)),
                None => None,
            },
        }
    }
}

impl Clone for Location {
    fn clone(&self) -> (r: Self)
        ensures
            r@ == self@,
    {
        let activities: Option<Vec<Activities>> = match &self.activities {
            Some(observations) => {
                let copies: Vec<Activities> = observations.clone();
                assert(observation_views(copies@) =~= observation_views(observations@));
                Some(copies)
            },
            None => None,
        };
        Location {
            timestamp: self.timestamp,
            latitude_e7: self.latitude_e7,
            longitude_e7: self.longitude_e7,
            accuracy: self.accuracy,
            altitude: self.altitude,
            activities,
        }
    }
}

impl SortKey for Location {
    /// Samples are ordered by their place on the time line.
    open spec fn sort_key(&self) -> int {
        self.timestamp@.timeline_key()
    }

    fn sorts_before(&self, other: &Self) -> (r: bool) {
        self.timestamp.is_before(&other.timestamp)
    }
}

/// Speeds are judged only across gaps of at most this many seconds.
pub const SPEED_WINDOW_SECONDS: i64 = 600;

/// A sample that implies this speed or more, in kilometres per hour, is an
/// outlier.
pub const SPEED_LIMIT_KMH: u64 = 300;

/// The speed in whole kilometres per hour, rounded down, of a move over
/// `distance_mm` millimetres in `elapsed` seconds. A gap of no time, of
/// negative time, or of more than ten minutes tells no speed.
pub open spec fn speed_over(elapsed: int, distance_mm: int) -> Option<int> {
    if 0 < elapsed <= SPEED_WINDOW_SECONDS {
        Some((distance_mm * 9) / (2500 * elapsed))
    } else {
        None
    }
}

/// A move is plausible where it tells no speed, or one below the limit.
pub open spec fn is_plausible_move(elapsed: int, distance_mm: int) -> bool {
    match speed_over(elapsed, distance_mm) {
        Some(speed) => speed < SPEED_LIMIT_KMH,
        None => true,
    }
}

/// A move across more than ten minutes is plausible whatever its length,
/// and so is one across no time or backwards in time.
pub proof fn lemma_wide_gap_is_plausible(elapsed: int, distance_mm: int)
    requires
        elapsed <= 0 || elapsed > SPEED_WINDOW_SECONDS,
    ensures
        is_plausible_move(elapsed, distance_mm),
{
}

/// Within the window, rounding the speed down loses nothing at the limit:
/// a move is plausible exactly when its true speed, distance over time, is
/// below 300 km/h.
pub proof fn lemma_plausible_is_exact(elapsed: int, distance_mm: int)
    requires
        0 < elapsed <= SPEED_WINDOW_SECONDS,
        0 <= distance_mm,
    ensures
        is_plausible_move(elapsed, distance_mm) <==> 3 * distance_mm < 250_000 * elapsed,
{
    let numerator = distance_mm * 9;
    let denominator = 2500 * elapsed;
    vstd::arithmetic::div_mod::lemma_fundamental_div_mod(numerator, denominator);
    vstd::arithmetic::div_mod::lemma_mod_bound(numerator, denominator);
    let quotient = numerator / denominator;
    assert(numerator == denominator * quotient + numerator % denominator);
    if quotient < 300 {
        assert(denominator * quotient <= denominator * 299) by (nonlinear_arith)
            requires
                quotient <= 299,
                denominator > 0,
        ;
    } else {
        assert(denominator * quotient >= denominator * 300) by (nonlinear_arith)
            requires
                quotient >= 300,
                denominator > 0,
        ;
    }
}

/// All readings of the observations, in stored order.
pub open spec fn observation_entries(observations: Seq<Activities>) -> Seq<Activity>
    decreases observations.len(),
{
    if observations.len() == 0 {
        Seq::empty()
    } else {
        observation_entries(observations.drop_last()) + observations.last().activities@
    }
}

/// `flat` is the rankings of the observations, one after the other.
pub open spec fn is_ranking_by_observation(
    flat: Seq<Activity>,
    observations: Seq<Activities>,
) -> bool
    decreases observations.len(),
{
    if observations.len() == 0 {
        flat.len() == 0
    } else {
        // the last observation's ranking has one entry for each kind in it
        let cut = flat.len() - kinds_present(observations.last().activities@);
        &&& 0 <= cut
        &&& is_ranking_by_observation(flat.take(cut), observations.drop_last())
        &&& is_ranking_of(flat.skip(cut), observations.last().activities@)
    }
}

/// `list` is the top list of the observations: their rankings, one after
/// the other, put in descending order of confidence; entries of equal
/// confidence keep their order.
pub open spec fn is_top_list_of(list: Seq<Activity>, observations: Seq<Activities>) -> bool {
    exists|flat: Seq<Activity>| #[trigger]
        is_ranking_by_observation(flat, observations) && is_stable_sort_of(list, flat)
}

/// Every observation by itself can be added up within 32 bits.
pub open spec fn each_observation_fits(observations: Seq<Activities>) -> bool {
    forall|o: int|
        0 <= o < observations.len() ==> running_totals_fit(#[trigger] observations[o].activities@)
}

/// The readings of the first observations are a beginning of the readings
/// of all of them.
pub proof fn lemma_observation_entries_prefix(observations: Seq<Activities>, o: int)
    requires
        0 <= o <= observations.len(),
    ensures
        observation_entries(observations.take(o)).len() <= observation_entries(observations).len(),
        observation_entries(observations.take(o)) == observation_entries(observations).take(
            observation_entries(observations.take(o)).len() as int,
        ),
    decreases observations.len(),
{
    if o == observations.len() {
        assert(observations.take(o) =~= observations);
        assert(observation_entries(observations).take(observation_entries(observations).len() as int)
            =~= observation_entries(observations));
    } else {
        let front = observations.drop_last();
        lemma_observation_entries_prefix(front, o);
        assert(front.take(o) =~= observations.take(o));
        let part = observation_entries(observations.take(o));
        assert(observation_entries(front).take(part.len() as int) =~= observation_entries(
            observations,
        ).take(part.len() as int));
    }
}

/// `matched` is an answer that matching the pattern against a sample with
/// these observations can give: `true` where one of the observations can
/// answer so, `false` where each of them can answer so. A sample without
/// observations matches nothing.
pub open spec fn is_sample_outcome(
    pattern: Seq<char>,
    observations: Seq<Activities>,
    matched: bool,
) -> bool {
    &&& matched ==> exists|o: int|
        0 <= o < observations.len() && #[trigger] is_observation_outcome(
            pattern,
            observations[o].activities@,
            true,
        )
    &&& !matched ==> forall|o: int|
        0 <= o < observations.len() ==> #[trigger] is_observation_outcome(
            pattern,
            observations[o].activities@,
            false,
        )
}

/// The match against a sample with these observations is settled
/// beforehand: the match against each observation is.
pub open spec fn is_settled_sample(pattern: Seq<char>, observations: Seq<Activities>) -> bool {
    forall|o: int|
        0 <= o < observations.len() ==> #[trigger] is_settled_observation(
            pattern,
            observations[o].activities@,
        )
}

/// Where the match against a sample is settled beforehand, as it is where
/// no dominant label holds a backslash, it has one answer only.
pub proof fn lemma_settled_sample_has_one_outcome(
    pattern: Seq<char>,
    observations: Seq<Activities>,
    first: bool,
    second: bool,
)
    requires
        is_settled_sample(pattern, observations),
        is_sample_outcome(pattern, observations, first),
        is_sample_outcome(pattern, observations, second),
    ensures
        first == second,
{
    if first && !second {
        let o = choose|o: int|
            0 <= o < observations.len() && #[trigger] is_observation_outcome(
                pattern,
                observations[o].activities@,
                true,
            );
        assert(is_settled_observation(pattern, observations[o].activities@));
        lemma_settled_observation_has_one_outcome(pattern, observations[o].activities@, true, false);
    }
    if second && !first {
        let o = choose|o: int|
            0 <= o < observations.len() && #[trigger] is_observation_outcome(
                pattern,
                observations[o].activities@,
                true,
            );
        assert(is_settled_observation(pattern, observations[o].activities@));
        lemma_settled_observation_has_one_outcome(pattern, observations[o].activities@, true, false);
    }
}

impl Location {
    /// `matched` is an answer that matching the pattern against the sample
    /// can give.
    pub open spec fn is_activity_outcome(self, pattern: Seq<char>, matched: bool) -> bool {
        is_sample_outcome(pattern, self.observations(), matched)
    }

    /// Whether the pattern matches the dominant reading of one of the
    /// sample's observations.
    pub fn matches_activity(&self, pattern: &str) -> (r: bool)
        ensures
            self.is_activity_outcome(pattern@, r),
    {
        match &self.activities {
            Some(observations) => {
                let count: usize = observations.len();
                let mut o: usize = 0;
                while o < count
                    invariant
                        0 <= o <= count,
                        count == observations@.len(),
                        self.activities == Some(*observations),
                        forall|p: int|
                            0 <= p < o ==> #[trigger] is_observation_outcome(
                                pattern@,
                                observations@[p].activities@,
                                false,
                            ),
                    decreases count - o,
                {
                    if observations[o].matches_pattern(pattern) {
                        assert(is_observation_outcome(
                            pattern@,
                            observations@[o as int].activities@,
                            true,
                        ));
                        return true;
                    }
                    o = o + 1;
                }
                false
            },
            None => false,
        }
    }

    /// All readings recorded with the sample, in stored order.
    pub open spec fn readings(self) -> Seq<Activity> {
        match self.activities {
            Some(observations) => observation_entries(observations@),
            None => Seq::empty(),
        }
    }

    /// The observations recorded with the sample; none where there is no list.
    pub open spec fn observations(self) -> Seq<Activities> {
        match self.activities {
            Some(observations) => observations@,
            None => Seq::empty(),
        }
    }

    /// The rankings of the sample's observations in one list, the highest
    /// confidence first. A kind appears once for each observation it occurs
    /// in; entries of equal confidence keep the order of their observations.
    pub fn top_activities(&self) -> (r: Vec<Activity>)
        requires
            each_observation_fits(self.observations()),
        ensures
            is_top_list_of(r@, self.observations()),
    {
        let mut flat: Vec<Activity> = Vec::new();
        match &self.activities {
            Some(observations) => {
                let count: usize = observations.len();
                let mut o: usize = 0;
                assert(observations@.take(0) =~= Seq::<Activities>::empty());
                while o < count
                    invariant
                        0 <= o <= count,
                        count == observations@.len(),
                        each_observation_fits(observations@),
                        is_ranking_by_observation(flat@, observations@.take(o as int)),
                    decreases count - o,
                {
                    let mut part: Vec<Activity> = observations[o].top_activities();
                    let ghost before = flat@;
                    let ghost ranking = part@;
                    flat.append(&mut part);
                    proof {
                        let next = observations@.take(o + 1);
                        assert(next.drop_last() =~= observations@.take(o as int));
                        assert(next.last() == observations@[o as int]);
                        assert(flat@.take(before.len() as int) =~= before);
                        assert(flat@.skip(before.len() as int) =~= ranking);
                        assert(is_ranking_by_observation(
                            flat@.take(before.len() as int),
                            next.drop_last(),
                        ));
                        assert(is_ranking_of(
                            flat@.skip(before.len() as int),
                            next.last().activities@,
                        ));
                        assert(is_ranking_by_observation(flat@, next));
                    }
                    o = o + 1;
                }
                assert(observations@.take(count as int) =~= observations@);
            },
            None => {},
        }
        let ghost unsorted = flat@;
        let sorted: Vec<Activity> = stable_sort(flat);
        assert(is_ranking_by_observation(unsorted, self.observations()));
        sorted
    }

    /// All readings of the sample merged into one observation at the
    /// sample's instant: one entry for each kind that occurs in any
    /// observation, with the sum of the kind's confidences over all of them,
    /// the highest sum first.
    pub fn merged_activities(&self) -> (r: Activities)
        requires
            running_totals_fit(self.readings()),
        ensures
            r.timestamp == self.timestamp,
            is_ranking_of(r.activities@, self.readings()),
    {
        match self.tally() {
            Some(tally) => {
                let activities: Vec<Activity> = tally.ranking(Ghost(self.readings()));
                Activities { timestamp: self.timestamp, activities }
            },
            None => Activities { timestamp: self.timestamp, activities: Vec::new() },
        }
    }

    /// Whether all readings of the sample can be added up kind by kind, in
    /// stored order, without a sum leaving the range of 32 bits.
    pub fn readings_fit(&self) -> (r: bool)
        ensures
            r == running_totals_fit(self.readings()),
    {
        self.tally().is_some()
    }

    /// Whether each observation of the sample can be added up by itself.
    pub fn observations_fit(&self) -> (r: bool)
        ensures
            r == each_observation_fits(self.observations()),
    {
        match &self.activities {
            Some(observations) => {
                let count: usize = observations.len();
                let mut o: usize = 0;
                while o < count
                    invariant
                        0 <= o <= count,
                        count == observations@.len(),
                        self.activities == Some(*observations),
                        forall|p: int|
                            0 <= p < o ==> running_totals_fit(
                                #[trigger] observations@[p].activities@,
                            ),
                    decreases count - o,
                {
                    if !observations[o].totals_fit() {
                        return false;
                    }
                    o = o + 1;
                }
                true
            },
            None => true,
        }
    }

    /// The sums over all readings of the sample; `None` exactly when a
    /// running sum leaves the range of 32 bits.
    fn tally(&self) -> (r: Option<Tally>)
        ensures
            match r {
                Some(tally) => running_totals_fit(self.readings()) && tally.represents(
                    self.readings(),
                ),
                None => !running_totals_fit(self.readings()),
            },
    {
        let mut tally: Tally = Tally::new();
        proof {
            lemma_nothing_fits();
        }
        match &self.activities {
            Some(observations) => {
                let count: usize = observations.len();
                let mut o: usize = 0;
                assert(observations@.take(0) =~= Seq::<Activities>::empty());
                while o < count
                    invariant
                        0 <= o <= count,
                        count == observations@.len(),
                        self.activities == Some(*observations),
                        running_totals_fit(observation_entries(observations@.take(o as int))),
                        tally.represents(observation_entries(observations@.take(o as int))),
                    decreases count - o,
                {
                    let ghost before = observation_entries(observations@.take(o as int));
                    let ghost next = observations@.take(o + 1);
                    proof {
                        assert(next.drop_last() =~= observations@.take(o as int));
                        assert(next.last() == observations@[o as int]);
                        assert(observation_entries(next) == before + observations@[o as int].activities@);
                    }
                    match tally.absorb(&observations[o].activities, Ghost(before)) {
                        Some(grown) => {
                            tally = grown;
                        },
                        None => {
                            proof {
                                if running_totals_fit(observation_entries(observations@)) {
                                    lemma_observation_entries_prefix(observations@, o + 1);
                                    lemma_prefix_fits(
                                        observation_entries(observations@),
                                        observation_entries(next).len() as int,
                                    );
                                }
                            }
                            return None;
                        },
                    }
                    o = o + 1;
                }
                assert(observations@.take(count as int) =~= observations@);
            },
            None => {},
        }
        Some(tally)
    }

    /// The speed, in whole kilometres per hour, that reaching this sample
    /// from `other` implies when the two are `distance_mm` millimetres apart.
    pub open spec fn speed_from(self, other: Location, distance_mm: int) -> Option<int> {
        speed_over(self.timestamp@.seconds - other.timestamp@.seconds, distance_mm)
    }

    /// Whether reaching this sample from `reference` is a plausible move.
    pub open spec fn is_plausible_after(self, reference: Location, distance_mm: int) -> bool {
        is_plausible_move(self.timestamp@.seconds - reference.timestamp@.seconds, distance_mm)
    }

    /// The speed in whole kilometres per hour, rounded down, from `other` to
    /// this sample, given their distance in millimetres; `None` where this
    /// sample is not later than `other` or more than ten minutes later.
    pub fn speed_kmh(&self, other: &Location, distance_mm: u64) -> (r: Option<u64>)
        ensures
            match self.speed_from(*other, distance_mm as int) {
                Some(speed) => r == Some(speed as u64) && speed <= u64::MAX,
                None => r is None,
            },
    {
        let elapsed: i64 = self.timestamp.seconds_since(&other.timestamp);
        if 0 < elapsed && elapsed <= SPEED_WINDOW_SECONDS {
            let numerator: u128 = (distance_mm as u128) * 9;
            let denominator: u128 = 2500 * (elapsed as u128);
            proof {
                vstd::arithmetic::div_mod::lemma_div_is_ordered_by_denominator(
                    numerator as int,
                    2500,
                    denominator as int,
                );
            }
            let speed: u128 = numerator / denominator;
            Some(speed as u64)
        } else {
            None
        }
    }

    /// Whether reaching this sample from `reference` is a plausible move,
    /// given their distance in millimetres.
    pub fn plausible_after(&self, reference: &Location, distance_mm: u64) -> (r: bool)
        ensures
            r == self.is_plausible_after(*reference, distance_mm as int),
    {
        match self.speed_kmh(reference, distance_mm) {
            Some(speed) => speed < SPEED_LIMIT_KMH,
            None => true,
        }
    }

    /// Where the sample was taken.
    pub open spec fn position(self) -> Coordinates {
        Coordinates { latitude_e7: self.latitude_e7, longitude_e7: self.longitude_e7 }
    }

    /// Where the sample was taken.
    pub fn coordinates(&self) -> (r: Coordinates)
        ensures
            r == self.position(),
    {
        Coordinates { latitude_e7: self.latitude_e7, longitude_e7: self.longitude_e7 }
    }
}

} // verus!
