//! Motion states: the closed set of activity kinds, single confidence
//! readings, and the observations that group readings taken at one instant.

use vstd::prelude::*;
use crate::pattern::is_match_outcome;
use crate::pattern::is_settled;
use crate::pattern::lemma_settled_match_has_one_outcome;
use crate::sorting::SortKey;
use crate::tally::is_ranked_entry;
use crate::tally::is_ranking_of;
use crate::tally::is_similar;
use crate::tally::is_top_kind;
use crate::tally::lemma_first_place_unique;
use crate::tally::lemma_no_kind_occurs;
use crate::tally::lemma_nothing_fits;
use crate::tally::lemma_some_kind_occurs;
use crate::tally::occurs;
use crate::tally::place;
use crate::tally::running_totals_fit;
use crate::tally::Tally;
use crate::pattern::matches_label;
use crate::timestamp::Moment;
use crate::timestamp::Timestamp;

verus! {

/// The kinds of motion an observation can report.
#[allow(non_camel_case_types)]
#[derive(Debug, Clone, Copy, PartialEq, Eq, Hash, Structural)]
pub enum ActivityType {
    IN_VEHICLE,
    EXITING_VEHICLE,
    ON_BICYCLE,
    ON_FOOT,
    RUNNING,
    STILL,
    TILTING,
    UNKNOWN,
    WALKING,
}

/// How many kinds there are.
pub const KIND_COUNT: usize = 9;

/// The kind at a place in the order of declaration.
pub open spec fn kind_at(ordinal: int) -> ActivityType {
    if ordinal == 0 {
        ActivityType::IN_VEHICLE
    } else if ordinal == 1 {
        ActivityType::EXITING_VEHICLE
    } else if ordinal == 2 {
        ActivityType::ON_BICYCLE
    } else if ordinal == 3 {
        ActivityType::ON_FOOT
    } else if ordinal == 4 {
        ActivityType::RUNNING
    } else if ordinal == 5 {
        ActivityType::STILL
    } else if ordinal == 6 {
        ActivityType::TILTING
    } else if ordinal == 7 {
        ActivityType::UNKNOWN
    } else {
        ActivityType::WALKING
    }
}

/// The kind a raw label stands for. A label that names no kind stands for
/// `UNKNOWN`; reading a label never fails.
pub open spec fn kind_of_label(label: Seq<char>) -> ActivityType {
    if label == "IN_VEHICLE"@ {
        ActivityType::IN_VEHICLE
    } else if label == "EXITING_VEHICLE"@ {
        ActivityType::EXITING_VEHICLE
    } else if label == "ON_BICYCLE"@ {
        ActivityType::ON_BICYCLE
    } else if label == "ON_FOOT"@ {
        ActivityType::ON_FOOT
    } else if label == "RUNNING"@ {
        ActivityType::RUNNING
    } else if label == "STILL"@ {
        ActivityType::STILL
    } else if label == "TILTING"@ {
        ActivityType::TILTING
    } else if label == "WALKING"@ {
        ActivityType::WALKING
    } else {
        ActivityType::UNKNOWN
    }
}

/// Whether the string holds exactly this text.
fn holds(label: &String, text: &str) -> (r: bool)
    ensures
        r == (label@ == text@),
{
    *label == text.to_owned()
}

impl ActivityType {
    /// The place of the kind in the order of declaration, from 0.
    pub open spec fn ordinal(self) -> int {
        match self {
            ActivityType::IN_VEHICLE => 0,
            ActivityType::EXITING_VEHICLE => 1,
            ActivityType::ON_BICYCLE => 2,
            ActivityType::ON_FOOT => 3,
            ActivityType::RUNNING => 4,
            ActivityType::STILL => 5,
            ActivityType::TILTING => 6,
            ActivityType::UNKNOWN => 7,
            ActivityType::WALKING => 8,
        }
    }

    /// The label the kind is written with.
    pub open spec fn label_text(self) -> Seq<char> {
        match self {
            ActivityType::IN_VEHICLE => "IN_VEHICLE"@,
            ActivityType::EXITING_VEHICLE => "EXITING_VEHICLE"@,
            ActivityType::ON_BICYCLE => "ON_BICYCLE"@,
            ActivityType::ON_FOOT => "ON_FOOT"@,
            ActivityType::RUNNING => "RUNNING"@,
            ActivityType::STILL => "STILL"@,
            ActivityType::TILTING => "TILTING"@,
            ActivityType::UNKNOWN => "UNKNOWN"@,
            ActivityType::WALKING => "WALKING"@,
        }
    }

    /// The place of the kind in the order of declaration.
    pub fn index(&self) -> (r: usize)
        ensures
            r == self.ordinal(),
            r < KIND_COUNT,
    {
        match self {
            ActivityType::IN_VEHICLE => 0,
            ActivityType::EXITING_VEHICLE => 1,
            ActivityType::ON_BICYCLE => 2,
            ActivityType::ON_FOOT => 3,
            ActivityType::RUNNING => 4,
            ActivityType::STILL => 5,
            ActivityType::TILTING => 6,
            ActivityType::UNKNOWN => 7,
            ActivityType::WALKING => 8,
        }
    }

    /// The kind at a place in the order of declaration; `None` from 9 on.
    pub fn from_index(index: usize) -> (r: Option<ActivityType>)
        ensures
            index < KIND_COUNT ==> r == Some(kind_at(index as int)),
            index >= KIND_COUNT ==> r is None,
    {
        match index {
            0 => Some(ActivityType::IN_VEHICLE),
            1 => Some(ActivityType::EXITING_VEHICLE),
            2 => Some(ActivityType::ON_BICYCLE),
            3 => Some(ActivityType::ON_FOOT),
            4 => Some(ActivityType::RUNNING),
            5 => Some(ActivityType::STILL),
            6 => Some(ActivityType::TILTING),
            7 => Some(ActivityType::UNKNOWN),
            8 => Some(ActivityType::WALKING),
            _ => None,
        }
    }

    /// Reads a raw label. Any label that names no kind reads as `UNKNOWN`.
    pub fn from_label(label: &str) -> (r: ActivityType)
        ensures
            r == kind_of_label(label@),
    {
        let owned: String = label.to_owned();
        ActivityType::of_label(&owned)
    }

    /// Reads a raw label held in a string.
    pub fn of_label(label: &String) -> (r: ActivityType)
        ensures
            r == kind_of_label(label@),
    {
        if holds(label, "IN_VEHICLE") {
            ActivityType::IN_VEHICLE
        } else if holds(label, "EXITING_VEHICLE") {
            ActivityType::EXITING_VEHICLE
        } else if holds(label, "ON_BICYCLE") {
            ActivityType::ON_BICYCLE
        } else if holds(label, "ON_FOOT") {
            ActivityType::ON_FOOT
        } else if holds(label, "RUNNING") {
            ActivityType::RUNNING
        } else if holds(label, "STILL") {
            ActivityType::STILL
        } else if holds(label, "TILTING") {
            ActivityType::TILTING
        } else if holds(label, "WALKING") {
            ActivityType::WALKING
        } else {
            ActivityType::UNKNOWN
        }
    }

    /// The label the kind is written with.
    pub fn label(&self) -> (r: String)
        ensures
            r@ == self.label_text(),
    {
        match self {
            ActivityType::IN_VEHICLE => "IN_VEHICLE".to_owned(),
            ActivityType::EXITING_VEHICLE => "EXITING_VEHICLE".to_owned(),
            ActivityType::ON_BICYCLE => "ON_BICYCLE".to_owned(),
            ActivityType::ON_FOOT => "ON_FOOT".to_owned(),
            ActivityType::RUNNING => "RUNNING".to_owned(),
            ActivityType::STILL => "STILL".to_owned(),
            ActivityType::TILTING => "TILTING".to_owned(),
            ActivityType::UNKNOWN => "UNKNOWN".to_owned(),
            ActivityType::WALKING => "WALKING".to_owned(),
        }
    }
}

impl From<String> for ActivityType {
    /// Reads a raw label.
    fn from(value: String) -> (r: ActivityType) {
        ActivityType::of_label(&value)
    }
}

impl vstd::std_specs::convert::FromSpecImpl<String> for ActivityType {
    open spec fn obeys_from_spec() -> bool {
        true
    }

    open spec fn from_spec(value: String) -> ActivityType {
        kind_of_label(value@)
    }
}

impl From<Activity> for ActivityType {
    /// The kind the reading's label stands for.
    fn from(value: Activity) -> (r: ActivityType) {
        value.kind()
    }
}

impl vstd::std_specs::convert::FromSpecImpl<Activity> for ActivityType {
    open spec fn obeys_from_spec() -> bool {
        true
    }

    open spec fn from_spec(value: Activity) -> ActivityType {
        value.kind_spec()
    }
}

/// Every kind is the kind at its own place, and places stay below the count.
pub proof fn lemma_kind_at_ordinal(kind: ActivityType)
    ensures
        0 <= kind.ordinal() < KIND_COUNT,
        kind_at(kind.ordinal()) == kind,
{
}

/// Writing a kind as its label and reading the label back gives the kind.
pub proof fn lemma_label_round_trip(kind: ActivityType)
    ensures
        kind_of_label(kind.label_text()) == kind,
{
    reveal_strlit("IN_VEHICLE");
    reveal_strlit("EXITING_VEHICLE");
    reveal_strlit("ON_BICYCLE");
    reveal_strlit("ON_FOOT");
    reveal_strlit("RUNNING");
    reveal_strlit("STILL");
    reveal_strlit("TILTING");
    reveal_strlit("UNKNOWN");
    reveal_strlit("WALKING");
    // the labels differ in their first character or in their length
    assert("IN_VEHICLE"@[0] == 'I');
    assert("EXITING_VEHICLE"@[0] == 'E');
    assert("ON_BICYCLE"@[0] == 'O' && "ON_BICYCLE"@.len() == 10);
    assert("ON_FOOT"@[0] == 'O' && "ON_FOOT"@.len() == 7);
    assert("RUNNING"@[0] == 'R');
    assert("STILL"@[0] == 'S');
    assert("TILTING"@[0] == 'T');
    assert("UNKNOWN"@[0] == 'U');
    assert("WALKING"@[0] == 'W');
}

/// One reading: a raw label and the confidence given to it.
#[derive(Debug)]
pub struct Activity {
    /// The label as it was recorded.
    pub activity_type: String,
    /// Confidence in percent for a single reading; sums of readings may exceed 100.
    pub confidence: i32,
}

impl Clone for Activity {
    fn clone(&self) -> (r: Self)
        ensures
            r == *self,
    {
        Activity { activity_type: self.activity_type.clone(), confidence: self.confidence }
    }
}

impl SortKey for Activity {
    /// Readings are ordered by confidence, the highest first.
    open spec fn sort_key(&self) -> int {
        -(self.confidence as int)
    }

    fn sorts_before(&self, other: &Self) -> (r: bool) {
        self.confidence > other.confidence
    }
}

impl Activity {
    /// The kind the reading's label stands for.
    pub open spec fn kind_spec(self) -> ActivityType {
        kind_of_label(self.activity_type@)
    }

    /// The kind the reading's label stands for.
    pub fn kind(&self) -> (r: ActivityType)
        ensures
            r == self.kind_spec(),
    {
        ActivityType::of_label(&self.activity_type)
    }
}

/// The mathematical value of an observation.
pub struct ActivitiesView {
    /// When the readings were taken.
    pub timestamp: Moment,
    /// The readings, in stored order.
    pub activities: Seq<Activity>,
}

/// Readings that describe the motion state near one instant.
#[derive(Debug)]
pub struct Activities {
    /// When the readings were taken.
    pub timestamp: Timestamp,
    /// The readings, in stored order.
    pub activities: Vec<Activity>,
}

impl View for Activities {
    type V = ActivitiesView;

    open spec fn view(&self) -> ActivitiesView {
        ActivitiesView { timestamp: self.timestamp@, activities: self.activities@ }
    }
}

/// The reading at `i` is the dominant one: none has a higher confidence,
/// and every reading stored before it has a lower one.
pub open spec fn is_dominant(entries: Seq<Activity>, i: int) -> bool {
    &&& 0 <= i < entries.len()
    &&& forall|j: int| 0 <= j < entries.len() ==> entries[j].confidence <= entries[i].confidence
    &&& forall|j: int| 0 <= j < i ==> entries[j].confidence < entries[i].confidence
}

/// An observation has at most one dominant reading.
pub proof fn lemma_dominant_unique(entries: Seq<Activity>, i: int, j: int)
    requires
        is_dominant(entries, i),
        is_dominant(entries, j),
    ensures
        i == j,
{
    if i < j {
        assert(entries[i].confidence < entries[j].confidence);
        assert(entries[j].confidence <= entries[i].confidence);
    } else if j < i {
        assert(entries[j].confidence < entries[i].confidence);
        assert(entries[i].confidence <= entries[j].confidence);
    }
}

/// An observation with readings has a dominant one.
pub proof fn lemma_dominant_exists(entries: Seq<Activity>)
    requires
        entries.len() > 0,
    ensures
        exists|i: int| is_dominant(entries, i),
    decreases entries.len(),
{
    if entries.len() == 1 {
        assert(is_dominant(entries, 0));
    } else {
        let rest = entries.drop_last();
        lemma_dominant_exists(rest);
        let p = choose|p: int| is_dominant(rest, p);
        let last = entries.len() - 1;
        assert forall|j: int| 0 <= j < rest.len() implies rest[j] == entries[j] by {}
        if entries[last].confidence > entries[p].confidence {
            assert forall|j: int| 0 <= j < last implies entries[j].confidence
                < entries[last].confidence by {
                assert(rest[j].confidence <= rest[p].confidence);
            }
            assert(is_dominant(entries, last));
        } else {
            assert forall|j: int| 0 <= j < entries.len() implies entries[j].confidence
                <= entries[p].confidence by {
                if j < last {
                    assert(rest[j].confidence <= rest[p].confidence);
                }
            }
            assert forall|j: int| 0 <= j < p implies entries[j].confidence
                < entries[p].confidence by {
                assert(rest[j].confidence < rest[p].confidence);
            }
            assert(is_dominant(entries, p));
        }
    }
}

/// `matched` is an answer that matching the pattern against the
/// observation can give: an answer of matching it against the label of the
/// dominant reading. An observation without readings matches nothing.
pub open spec fn is_observation_outcome(
    pattern: Seq<char>,
    entries: Seq<Activity>,
    matched: bool,
) -> bool {
    &&& entries.len() == 0 ==> !matched
    &&& forall|i: int| #[trigger]
        is_dominant(entries, i) ==> is_match_outcome(pattern, entries[i].activity_type@, matched)
}

/// The match against the observation is settled beforehand: the match
/// against the label of its dominant reading is.
pub open spec fn is_settled_observation(pattern: Seq<char>, entries: Seq<Activity>) -> bool {
    forall|i: int| #[trigger] is_dominant(entries, i) ==> is_settled(
        pattern,
        entries[i].activity_type@,
    )
}

/// Where the match against an observation is settled beforehand, it has
/// one answer only.
pub proof fn lemma_settled_observation_has_one_outcome(
    pattern: Seq<char>,
    entries: Seq<Activity>,
    first: bool,
    second: bool,
)
    requires
        is_settled_observation(pattern, entries),
        is_observation_outcome(pattern, entries, first),
        is_observation_outcome(pattern, entries, second),
    ensures
        first == second,
{
    if entries.len() > 0 {
        lemma_dominant_exists(entries);
        let i = choose|i: int| is_dominant(entries, i);
        lemma_settled_match_has_one_outcome(pattern, entries[i].activity_type@, first, second);
    }
}

impl Activities {
    /// The place of the dominant reading: the first among those with the
    /// highest confidence. `None` exactly when there are no readings.
    pub fn dominant_index(&self) -> (r: Option<usize>)
        ensures
            match r {
                Some(i) => is_dominant(self.activities@, i as int),
                None => self.activities@.len() == 0,
            },
    {
        let count: usize = self.activities.len();
        if count == 0 {
            return None;
        }
        let mut best: usize = 0;
        let mut i: usize = 1;
        while i < count
            invariant
                1 <= i <= count,
                count == self.activities@.len(),
                0 <= best < i,
                forall|j: int|
                    0 <= j < i ==> self.activities@[j].confidence
                        <= self.activities@[best as int].confidence,
                forall|j: int|
                    0 <= j < best ==> self.activities@[j].confidence
                        < self.activities@[best as int].confidence,
            decreases count - i,
        {
            if self.activities[i].confidence > self.activities[best].confidence {
                best = i;
            }
            i = i + 1;
        }
        Some(best)
    }

    /// The readings merged by kind and ranked: one entry for each kind that
    /// occurs, with the sum of the kind's confidences, the highest sum
    /// first; kinds with equal sums stand in the order of declaration.
    pub fn top_activities(&self) -> (r: Vec<Activity>)
        requires
            running_totals_fit(self.activities@),
        ensures
            is_ranking_of(r@, self.activities@),
    {
        let ghost none = Seq::<Activity>::empty();
        proof {
            assert(none + self.activities@ =~= self.activities@);
            lemma_nothing_fits();
        }
        match Tally::new().absorb(&self.activities, Ghost(none)) {
            Some(tally) => tally.ranking(Ghost(self.activities@)),
            None => Vec::new(),
        }
    }

    /// Whether the readings can be added up kind by kind, in stored order,
    /// without a sum leaving the range of 32 bits.
    pub fn totals_fit(&self) -> (r: bool)
        ensures
            r == running_totals_fit(self.activities@),
    {
        let ghost none = Seq::<Activity>::empty();
        proof {
            assert(none + self.activities@ =~= self.activities@);
            lemma_nothing_fits();
        }
        Tally::new().absorb(&self.activities, Ghost(none)).is_some()
    }

    /// The first entry of the ranking, or `UNKNOWN` with confidence 0 where
    /// there are no readings.
    pub fn top_activity(&self) -> (r: Activity)
        requires
            running_totals_fit(self.activities@),
        ensures
            self.activities@.len() == 0 ==> r.activity_type@ == "UNKNOWN"@ && r.confidence == 0,
            self.activities@.len() > 0 ==> is_ranked_entry(r, self.activities@, 0),
    {
        let ranking: Vec<Activity> = self.top_activities();
        proof {
            if self.activities@.len() == 0 {
                lemma_no_kind_occurs(self.activities@);
            } else {
                lemma_some_kind_occurs(self.activities@);
            }
        }
        if ranking.len() > 0 {
            ranking[0].clone()
        } else {
            Activity { activity_type: "UNKNOWN".to_owned(), confidence: 0 }
        }
    }

    /// The kind in the first place of the ranking, or `UNKNOWN` where there
    /// are no readings.
    pub fn top_activity_type(&self) -> (r: ActivityType)
        requires
            running_totals_fit(self.activities@),
        ensures
            is_top_kind(self.activities@, r),
    {
        let top: Activity = self.top_activity();
        proof {
            lemma_label_round_trip(ActivityType::UNKNOWN);
        }
        top.kind()
    }

    /// Whole seconds from `other`'s instant to this observation's.
    pub fn seconds_delta(&self, other: &Activities) -> (r: i64)
        ensures
            r == self.timestamp@.seconds - other.timestamp@.seconds,
    {
        self.timestamp.seconds_since(&other.timestamp)
    }

    /// Whether this observation's top kind is among the first three kinds of
    /// `other`'s ranking. Confidences and instants play no part.
    pub fn is_similar_type(&self, other: &Activities) -> (r: bool)
        requires
            running_totals_fit(self.activities@),
            running_totals_fit(other.activities@),
        ensures
            r == is_similar(self.activities@, other.activities@),
    {
        let top: Activity = self.top_activity();
        let ranking: Vec<Activity> = other.top_activities();
        let ghost top_kind = top.kind_spec();
        proof {
            lemma_label_round_trip(ActivityType::UNKNOWN);
            assert(is_top_kind(self.activities@, top_kind));
            assert(top.activity_type@ == top_kind.label_text());
        }
        let limit: usize = if ranking.len() < 3 {
            ranking.len()
        } else {
            3
        };
        let mut i: usize = 0;
        while i < limit
            invariant
                0 <= i <= limit <= ranking@.len(),
                limit <= 3,
                limit == 3 || limit == ranking@.len(),
                is_ranking_of(ranking@, other.activities@),
                top.activity_type@ == top_kind.label_text(),
                top_kind == top.kind_spec(),
                is_top_kind(self.activities@, top_kind),
                forall|j: int| 0 <= j < i ==> (#[trigger] ranking@[j]).kind_spec() != top_kind,
            decreases limit - i,
        {
            if ranking[i].activity_type == top.activity_type {
                proof {
                    assert(is_ranked_entry(ranking@[i as int], other.activities@, i as int));
                    assert(ranking@[i as int].kind_spec() == top_kind);
                    assert(is_top_kind(self.activities@, top_kind) && occurs(
                        other.activities@,
                        top_kind,
                    ) && place(other.activities@, top_kind) < 3);
                }
                return true;
            }
            proof {
                assert(is_ranked_entry(ranking@[i as int], other.activities@, i as int));
            }
            i = i + 1;
        }
        proof {
            assert forall|kind: ActivityType| #[trigger]
                is_top_kind(self.activities@, kind) implies !(occurs(other.activities@, kind)
                && place(other.activities@, kind) < 3) by {
                if self.activities@.len() > 0 {
                    lemma_first_place_unique(self.activities@, kind, top_kind);
                }
                assert(kind == top_kind);
                if occurs(other.activities@, kind) && place(other.activities@, kind) < 3 {
                    let at = place(other.activities@, kind);
                    assert(ranking@[at].kind_spec() == kind);
                }
            }
        }
        false
    }

    /// Whether the pattern matches the label of the dominant reading.
    pub fn matches_pattern(&self, pattern: &str) -> (r: bool)
        ensures
            is_observation_outcome(pattern@, self.activities@, r),
    {
        match self.dominant_index() {
            Some(i) => {
                let verdict: bool = matches_label(pattern, self.activities[i].activity_type.as_str());
                proof {
                    assert forall|j: int| #[trigger]
                        is_dominant(self.activities@, j) implies is_match_outcome(
                        pattern@,
                        self.activities@[j].activity_type@,
                        verdict,
                    ) by {
                        lemma_dominant_unique(self.activities@, i as int, j);
                    }
                }
                verdict
            },
            None => false,
        }
    }
}

impl Clone for Activities {
    fn clone(&self) -> (r: Self)
        ensures
            r@ == self@,
    {
        let copy = Activities { timestamp: self.timestamp, activities: self.activities.clone() };
        assert(copy.activities@ =~= self.activities@);
        copy
    }
}

} // verus!
