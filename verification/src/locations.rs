//! The history as a whole: a growable sequence of samples, put in
//! chronological order and then searched, measured and filtered.

use vstd::prelude::*;
use crate::error::EmptyInputError;
use crate::labels::distinct;
use crate::labels::distinct_labels;
use crate::labels::history_labels;
use crate::labels::texts;
use crate::location::Coordinates;
use crate::location::is_settled_sample;
use crate::location::lemma_settled_sample_has_one_outcome;
use crate::location::Location;
use crate::location::SPEED_WINDOW_SECONDS;
use crate::sorting::reversed;
use crate::sorting::is_sorted;
use crate::sorting::is_stable_sort_of;
use crate::sorting::lemma_stable_sort_unique;
use crate::sorting::stable_sort;
use crate::sorting::SortKey;
use crate::timestamp::Moment;
use crate::timestamp::Timestamp;

verus! {

/// A history: samples in the order they arrived, or in chronological order
/// once sorted.
pub type Locations = Vec<Location>;

/// How many samples lie strictly before the instant `t`.
pub open spec fn earlier_count(s: Seq<Location>, t: Moment) -> int
    decreases s.len(),
{
    if s.len() == 0 {
        0
    } else if s.last().timestamp@.precedes(t) {
        earlier_count(s.drop_last(), t) + 1
    } else {
        earlier_count(s.drop_last(), t)
    }
}

/// The sample that answers a lookup of `t` in a chronological history: the
/// first sample at exactly `t` where there is one; else the sample right
/// after `t`, but only where `t` falls strictly between two samples. A `t`
/// that no sample is at and that lies before the first sample or after the
/// last has no answer.
pub open spec fn closest_index(s: Seq<Location>, t: Moment) -> Option<int> {
    let i = earlier_count(s, t);
    if i < s.len() && (s[i].timestamp@.same_instant(t) || 0 < i) {
        Some(i)
    } else {
        None
    }
}

/// The sum, over each pair of neighbours, of the seconds from the earlier
/// sample in the sequence to the later one.
pub open spec fn gap_sum(s: Seq<Location>) -> int
    decreases s.len(),
{
    if s.len() <= 1 {
        0
    } else {
        gap_sum(s.drop_last()) + (s[s.len() - 1].timestamp@.seconds - s[s.len()
            - 2].timestamp@.seconds)
    }
}

/// The quotient rounded towards zero, as machine division rounds it.
pub open spec fn truncated_quotient(total: int, count: int) -> int
    recommends
        count > 0,
{
    if total >= 0 {
        total / count
    } else {
        -((-total) / count)
    }
}

/// The mean gap between neighbouring samples: the sum of the gaps divided by
/// their number, which is one less than the number of samples, and rounded
/// towards zero. A single sample has no gap, and its mean gap is nothing.
pub open spec fn mean_gap(s: Seq<Location>) -> int {
    if s.len() <= 1 {
        0
    } else {
        truncated_quotient(gap_sum(s), s.len() - 1)
    }
}

/// In a history where the samples up to a place precede `t` and the others do
/// not, that place is the number of samples before `t`.
pub proof fn lemma_earlier_count_is_split(s: Seq<Location>, t: Moment, i: int)
    requires
        0 <= i <= s.len(),
        forall|j: int| 0 <= j < i ==> s[j].timestamp@.precedes(t),
        forall|j: int| i <= j < s.len() ==> !s[j].timestamp@.precedes(t),
    ensures
        earlier_count(s, t) == i,
    decreases s.len(),
{
    if s.len() > 0 {
        let rest = s.drop_last();
        assert(s.last() == s[s.len() - 1]);
        assert forall|j: int| 0 <= j < rest.len() implies rest[j] == s[j] by {}
        if i == s.len() {
            lemma_earlier_count_is_split(rest, t, i - 1);
        } else {
            lemma_earlier_count_is_split(rest, t, i);
        }
    }
}

/// The gaps between neighbours add up to the seconds from the first sample
/// to the last.
pub proof fn lemma_gap_sum_telescopes(s: Seq<Location>)
    requires
        s.len() > 0,
    ensures
        gap_sum(s) == s.last().timestamp@.seconds - s.first().timestamp@.seconds,
    decreases s.len(),
{
    if s.len() > 1 {
        let rest = s.drop_last();
        lemma_gap_sum_telescopes(rest);
        assert(rest.last() == s[s.len() - 2]);
        assert(rest.first() == s.first());
    }
}

/// In a chronological history of instants within range, no gap is negative,
/// and so the gaps do not add up to less than nothing.
pub proof fn lemma_gap_sum_of_sorted(s: Seq<Location>)
    requires
        is_sorted(s),
        forall|i: int| 0 <= i < s.len() ==> (#[trigger] s[i]).timestamp@.in_range(),
    ensures
        gap_sum(s) >= 0,
{
    if s.len() > 0 {
        lemma_gap_sum_telescopes(s);
        assert(s.first().sort_key() <= s.last().sort_key());
        assert(s[0].timestamp@.in_range());
        assert(s[s.len() - 1].timestamp@.in_range());
    }
}

/// Of the first `n` samples, those whose mark is set, in order. A sample
/// without a mark counts as not marked.
pub open spec fn marked_upto(s: Seq<Location>, marks: Seq<bool>, n: nat) -> Seq<Location>
    decreases n,
{
    if n == 0 {
        Seq::empty()
    } else {
        let rest = marked_upto(s, marks, (n - 1) as nat);
        if n - 1 < marks.len() && marks[n - 1] {
            rest.push(s[n - 1])
        } else {
            rest
        }
    }
}

/// The samples whose mark is set, in order.
pub open spec fn marked(s: Seq<Location>, marks: Seq<bool>) -> Seq<Location> {
    marked_upto(s, marks, s.len())
}

/// Marks beyond the first `n` play no part in what is selected among the
/// first `n` samples.
pub proof fn lemma_marked_upto_agrees(s: Seq<Location>, a: Seq<bool>, b: Seq<bool>, n: nat)
    requires
        forall|j: int| 0 <= j < n ==> (j < a.len() && a[j]) == (j < b.len() && b[j]),
    ensures
        marked_upto(s, a, n) == marked_upto(s, b, n),
    decreases n,
{
    if n > 0 {
        lemma_marked_upto_agrees(s, a, b, (n - 1) as nat);
    }
}

/// A sample is selected among the first `n` exactly when it stands at a
/// place below `n` whose mark is set.
pub proof fn lemma_marked_upto_members(s: Seq<Location>, marks: Seq<bool>, n: nat, x: Location)
    ensures
        marked_upto(s, marks, n).contains(x) <==> exists|i: int|
            0 <= i < n && i < marks.len() && #[trigger] marks[i] && s[i] == x,
    decreases n,
{
    if n > 0 {
        let rest = marked_upto(s, marks, (n - 1) as nat);
        let all = marked_upto(s, marks, n);
        lemma_marked_upto_members(s, marks, (n - 1) as nat, x);
        let last_marked = n - 1 < marks.len() && marks[n - 1];
        if all.contains(x) {
            let j = choose|j: int| 0 <= j < all.len() && all[j] == x;
            if last_marked && j == rest.len() {
                assert(marks[n - 1] && s[n - 1] == x);
            } else {
                assert(rest[j] == x);
                assert(rest.contains(x));
                let i = choose|i: int|
                    0 <= i < n - 1 && i < marks.len() && #[trigger] marks[i] && s[i] == x;
                assert(0 <= i < n && marks[i] && s[i] == x);
            }
        }
        if exists|i: int| 0 <= i < n && i < marks.len() && #[trigger] marks[i] && s[i] == x {
            let i = choose|i: int| 0 <= i < n && i < marks.len() && #[trigger] marks[i] && s[i] == x;
            if i == n - 1 {
                assert(all[rest.len() as int] == x);
            } else {
                assert(0 <= i < n - 1 && marks[i] && s[i] == x);
                assert(rest.contains(x));
                let j = choose|j: int| 0 <= j < rest.len() && rest[j] == x;
                assert(all[j] == x);
            }
        }
    }
}

/// With the same distances, a wider radius keeps every sample that a
/// narrower one keeps.
pub proof fn lemma_wider_radius_keeps_more(
    s: Seq<Location>,
    distances: Seq<u64>,
    narrow: u64,
    wide: u64,
)
    requires
        narrow <= wide,
    ensures
        forall|x: Location| #[trigger]
            marked(s, nearer_than(distances, narrow)).contains(x) ==> marked(
                s,
                nearer_than(distances, wide),
            ).contains(x),
{
    let few = nearer_than(distances, narrow);
    let many = nearer_than(distances, wide);
    assert forall|x: Location| #[trigger] marked(s, few).contains(x) implies marked(
        s,
        many,
    ).contains(x) by {
        lemma_marked_upto_members(s, few, s.len(), x);
        lemma_marked_upto_members(s, many, s.len(), x);
        let i = choose|i: int| 0 <= i < s.len() && i < few.len() && #[trigger] few[i] && s[i] == x;
        assert(many[i] && s[i] == x);
    }
}

/// What the outlier pass has kept once the first `n` samples went through
/// it. The first sample is always kept. Each later sample is held against
/// the sample kept last before it: `distances[i - 1]` is the distance in
/// millimetres between sample `i` and that sample, and sample `i` is kept
/// where the move is plausible.
pub open spec fn retained_upto(input: Seq<Location>, distances: Seq<u64>, n: nat) -> Seq<Location>
    decreases n,
{
    if n == 0 {
        Seq::empty()
    } else if n == 1 {
        seq![input[0]]
    } else {
        let kept = retained_upto(input, distances, (n - 1) as nat);
        if input[n - 1].is_plausible_after(kept.last(), distances[n - 2] as int) {
            kept.push(input[n - 1])
        } else {
            kept
        }
    }
}

/// What the outlier pass keeps of the whole input, in arrival order.
pub open spec fn retained(input: Seq<Location>, distances: Seq<u64>) -> Seq<Location> {
    retained_upto(input, distances, input.len())
}

/// The sample that sample `i` of the input is held against: the one kept
/// last before it.
pub open spec fn reference_for(input: Seq<Location>, distances: Seq<u64>, i: int) -> Location {
    retained_upto(input, distances, i as nat).last()
}

/// Every distance is what the metric gave for the sample and the sample it
/// was held against.
pub open spec fn measured_by<F: Fn(Coordinates, Coordinates) -> u64>(
    metric: F,
    input: Seq<Location>,
    distances: Seq<u64>,
) -> bool {
    &&& distances.len() + 1 == input.len()
    &&& forall|m: int|
        0 <= m < distances.len() ==> call_ensures(
            metric,
            (input[m + 1].position(), reference_for(input, distances, m + 1).position()),
            #[trigger] distances[m],
        )
}

/// Whether each sample lies nearer than the radius, given its distance.
pub open spec fn nearer_than(distances: Seq<u64>, radius_mm: u64) -> Seq<bool> {
    Seq::new(distances.len(), |i: int| distances[i] < radius_mm)
}

/// Every distance is what the metric gave for the sample and the centre.
pub open spec fn measured_from<F: Fn(Coordinates, Coordinates) -> u64>(
    metric: F,
    input: Seq<Location>,
    center: Coordinates,
    distances: Seq<u64>,
) -> bool {
    &&& distances.len() == input.len()
    &&& forall|i: int|
        0 <= i < distances.len() ==> call_ensures(
            metric,
            (input[i].position(), center),
            #[trigger] distances[i],
        )
}

/// Each mark is an answer that matching the pattern against the sample at
/// its place can give.
pub open spec fn are_activity_outcomes(
    pattern: Seq<char>,
    s: Seq<Location>,
    marks: Seq<bool>,
) -> bool {
    &&& marks.len() == s.len()
    &&& forall|i: int| 0 <= i < s.len() ==> s[i].is_activity_outcome(pattern, #[trigger] marks[i])
}

/// `out` is what the activity filter gives for `input`: for some answers
/// of matching the pattern against the samples, those that matched, in
/// chronological order.
pub open spec fn is_activity_filtering(
    pattern: Seq<char>,
    input: Seq<Location>,
    out: Seq<Location>,
) -> bool {
    exists|marks: Seq<bool>| #[trigger]
        are_activity_outcomes(pattern, input, marks) && is_stable_sort_of(
            out,
            marked(input, marks),
        )
}

/// Where the match against every sample is settled beforehand, as it is in
/// a history without a backslash in its labels, the activity filter has one
/// result only.
pub proof fn lemma_settled_filtering_is_unique(
    pattern: Seq<char>,
    input: Seq<Location>,
    first: Seq<Location>,
    second: Seq<Location>,
)
    requires
        forall|i: int|
            0 <= i < input.len() ==> is_settled_sample(pattern, (#[trigger] input[i]).observations()),
        is_activity_filtering(pattern, input, first),
        is_activity_filtering(pattern, input, second),
    ensures
        first == second,
{
    let a = choose|marks: Seq<bool>| #[trigger]
        are_activity_outcomes(pattern, input, marks) && is_stable_sort_of(
            first,
            marked(input, marks),
        );
    let b = choose|marks: Seq<bool>| #[trigger]
        are_activity_outcomes(pattern, input, marks) && is_stable_sort_of(
            second,
            marked(input, marks),
        );
    assert forall|i: int| 0 <= i < input.len() implies a[i] == b[i] by {
        assert(is_settled_sample(pattern, input[i].observations()));
        assert(input[i].is_activity_outcome(pattern, a[i]));
        assert(input[i].is_activity_outcome(pattern, b[i]));
        lemma_settled_sample_has_one_outcome(pattern, input[i].observations(), a[i], b[i]);
    }
    assert(a =~= b);
    lemma_stable_sort_unique(marked(input, a), first, second);
}

/// `out` is what the outlier filter gives for `input` under the metric: for
/// some distances that the metric gave, the samples kept by the pass, in
/// chronological order.
pub open spec fn is_outlier_filtering<F: Fn(Coordinates, Coordinates) -> u64>(
    metric: F,
    input: Seq<Location>,
    out: Seq<Location>,
) -> bool {
    exists|distances: Seq<u64>| #[trigger]
        measured_by(metric, input, distances) && is_stable_sort_of(
            out,
            retained(input, distances),
        )
}

/// `out` is what the distance filter gives for `input` under the metric: for
/// some distances that the metric gave, the samples nearer than the radius.
pub open spec fn is_distance_filtering<F: Fn(Coordinates, Coordinates) -> u64>(
    metric: F,
    input: Seq<Location>,
    center: Coordinates,
    radius_mm: u64,
    out: Seq<Location>,
) -> bool {
    exists|distances: Seq<u64>| #[trigger]
        measured_from(metric, input, center, distances) && out == marked(
            input,
            nearer_than(distances, radius_mm),
        )
}

/// Distances offered for later samples play no part in what the pass keeps
/// of the first `n`.
pub proof fn lemma_retained_upto_agrees(
    input: Seq<Location>,
    a: Seq<u64>,
    b: Seq<u64>,
    n: nat,
)
    requires
        forall|j: int| 0 <= j < n - 1 ==> a[j] == b[j],
    ensures
        retained_upto(input, a, n) == retained_upto(input, b, n),
    decreases n,
{
    if n > 1 {
        lemma_retained_upto_agrees(input, a, b, (n - 1) as nat);
    }
}

/// The pass keeps at least the first sample, and what it keeps last is one
/// of the samples it has seen.
pub proof fn lemma_retained_upto_last(input: Seq<Location>, distances: Seq<u64>, n: nat)
    requires
        1 <= n <= input.len(),
    ensures
        retained_upto(input, distances, n).len() >= 1,
        retained_upto(input, distances, n).first() == input[0],
        exists|j: int| 0 <= j < n && retained_upto(input, distances, n).last() == input[j],
    decreases n,
{
    if n > 1 {
        lemma_retained_upto_last(input, distances, (n - 1) as nat);
        let kept = retained_upto(input, distances, (n - 1) as nat);
        if input[n - 1].is_plausible_after(kept.last(), distances[n - 2] as int) {
            assert(retained_upto(input, distances, n).last() == input[n - 1]);
        } else {
            let j = choose|j: int| 0 <= j < n - 1 && kept.last() == input[j];
            assert(retained_upto(input, distances, n).last() == input[j]);
        }
    } else {
        assert(retained_upto(input, distances, n).last() == input[0]);
    }
}

/// A sample more than ten minutes later than the sample kept last before it
/// is kept, whatever the distance; so is one that is not later at all.
pub proof fn lemma_wide_gap_is_retained(input: Seq<Location>, distances: Seq<u64>, n: nat)
    requires
        2 <= n <= input.len(),
        ({
            let elapsed = input[n - 1].timestamp@.seconds - reference_for(
                input,
                distances,
                n - 1,
            ).timestamp@.seconds;
            elapsed <= 0 || elapsed > SPEED_WINDOW_SECONDS
        }),
    ensures
        retained_upto(input, distances, n) == retained_upto(input, distances, (n - 1) as nat).push(
            input[n - 1],
        ),
{
}

/// Keeps the samples whose mark is set, in order; a sample without a mark
/// is dropped.
pub fn select_marked(v: Vec<Location>, marks: &Vec<bool>) -> (out: Vec<Location>)
    ensures
        out@ == marked(v@, marks@),
{
    let count: usize = v.len();
    let mut stack: Vec<Location> = reversed(v);
    let mut out: Vec<Location> = Vec::new();
    let mut i: usize = 0;
    while i < count
        invariant
            0 <= i <= count,
            count == v@.len(),
            stack@.len() == count - i,
            forall|p: int| 0 <= p < stack@.len() ==> stack@[p] == v@[count - 1 - p],
            out@ == marked_upto(v@, marks@, i as nat),
        decreases count - i,
    {
        let next = stack.pop();
        match next {
            Some(sample) => {
                if i < marks.len() && marks[i] {
                    out.push(sample);
                }
            },
            None => {},
        }
        i = i + 1;
    }
    out
}

/// Whether the samples are in chronological order.
pub fn is_chronological(samples: &Vec<Location>) -> (r: bool)
    ensures
        r == is_sorted(samples@),
{
    let count: usize = samples.len();
    let mut i: usize = 1;
    while i < count
        invariant
            1 <= i,
            i <= count || count == 0,
            count == samples@.len(),
            forall|a: int, b: int|
                0 <= a <= b < i && b < count ==> samples@[a].sort_key() <= samples@[b].sort_key(),
        decreases count - i,
    {
        if samples[i].sorts_before(&samples[i - 1]) {
            return false;
        }
        assert forall|a: int, b: int| 0 <= a <= b < i + 1 && b < count implies samples@[a].sort_key()
            <= samples@[b].sort_key() by {
            if b == i && a < i {
                assert(samples@[a].sort_key() <= samples@[i - 1].sort_key());
            }
        }
        i = i + 1;
    }
    true
}

/// What a history offers beyond a plain vector.
pub trait LocationsExt: Sized + View<V = Seq<Location>> {
    /// The mean gap in seconds between neighbouring samples: each gap is
    /// the later sample of the pair minus the earlier one, so the mean is not
    /// negative in a chronological history; the sum of the gaps is divided by
    /// the number of gaps, one less than the number of samples, and rounded
    /// towards zero. A single sample has no gap, and the answer for it is 0.
    /// An empty history has no answer.
    fn average_time(&self) -> (r: i64)
        requires
            self@.len() >= 1,
        ensures
            r == mean_gap(self@),
    ;

    /// Looks a time up in a chronological history.
    fn find_closest(&self, time: Timestamp) -> (r: Option<Location>)
        requires
            is_sorted(self@),
        ensures
            match closest_index(self@, time@) {
                Some(i) => r matches Some(found) && found@ == self@[i]@,
                None => r is None,
            },
    ;

    /// Puts the samples in ascending order of time; samples at the same
    /// instant keep their order.
    fn sort_chronological(&mut self)
        ensures
            is_stable_sort_of(final(self)@, old(self)@),
    ;

    /// Drops the samples that could only have been reached at 300 km/h or
    /// more from the sample kept last before them, and returns the others in
    /// chronological order. The pass runs in arrival order and starts from
    /// the first sample, which is always kept. `distance_mm` gives the
    /// distance between two positions in millimetres; it is asked once for
    /// each sample after the first.
    fn filter_outliers<F: Fn(Coordinates, Coordinates) -> u64>(self, distance_mm: F) -> (r: Result<
        Locations,
        EmptyInputError,
    >)
        requires
            forall|a: Coordinates, b: Coordinates| call_requires(distance_mm, (a, b)),
        ensures
            match r {
                Ok(out) => self@.len() > 0 && is_outlier_filtering(distance_mm, self@, out@),
                Err(_) => self@.len() == 0,
            },
    ;

    /// Keeps the samples with an observation whose dominant reading matches
    /// the glob pattern `activity`, and returns them in chronological order.
    fn filter_by_activity(self, activity: String) -> (r: Locations)
        ensures
            is_activity_filtering(activity@, self@, r@),
    ;

    /// Every raw activity label that occurs anywhere in the history, once
    /// each, in the order of first occurrence.
    fn list_activities(&self) -> (r: Vec<String>)
        ensures
            texts(r@) == distinct(history_labels(self@)),
    ;

    /// Keeps the samples that lie strictly nearer than `radius_mm`
    /// millimetres to `center`, in the order they have. `distance_mm` gives
    /// the distance between two positions in millimetres; it is asked once
    /// for each sample.
    fn filter_by_distance<F: Fn(Coordinates, Coordinates) -> u64>(
        self,
        center: Coordinates,
        radius_mm: u64,
        distance_mm: F,
    ) -> (r: Locations)
        requires
            forall|a: Coordinates, b: Coordinates| call_requires(distance_mm, (a, b)),
        ensures
            is_distance_filtering(distance_mm, self@, center, radius_mm, r@),
    ;
}

impl LocationsExt for Vec<Location> {
    fn average_time(&self) -> (r: i64) {
        let count: usize = self.len();
        if count == 1 {
            return 0;
        }
        let first: i64 = self[0].timestamp.seconds();
        let last: i64 = self[count - 1].timestamp.seconds();
        proof {
            lemma_gap_sum_telescopes(self@);
        }
        let span: i64 = last - first;
        let gaps: u64 = (count - 1) as u64;
        if span >= 0 {
            let quotient: u64 = (span as u64) / gaps;
            quotient as i64
        } else {
            let quotient: u64 = ((-span) as u64) / gaps;
            -(quotient as i64)
        }
    }

    fn find_closest(&self, time: Timestamp) -> (r: Option<Location>) {
        let mut low: usize = 0;
        let mut high: usize = self.len();
        while low < high
            invariant
                0 <= low <= high <= self@.len(),
                is_sorted(self@),
                forall|j: int| 0 <= j < low ==> self@[j].timestamp@.precedes(time@),
                forall|j: int| high <= j < self@.len() ==> !self@[j].timestamp@.precedes(time@),
            decreases high - low,
        {
            let middle: usize = low + (high - low) / 2;
            if self[middle].timestamp.is_before(&time) {
                assert forall|j: int| 0 <= j < middle + 1 implies self@[j].timestamp@.precedes(
                    time@,
                ) by {
                    assert(self@[j].sort_key() <= self@[middle as int].sort_key());
                }
                low = middle + 1;
            } else {
                assert forall|j: int| middle <= j < self@.len() implies !self@[j].timestamp@.precedes(
                    time@,
                ) by {
                    assert(self@[middle as int].sort_key() <= self@[j].sort_key());
                }
                high = middle;
            }
        }
        proof {
            lemma_earlier_count_is_split(self@, time@, low as int);
        }
        if low < self.len() && (low > 0 || self[low].timestamp.is_same_instant(&time)) {
            Some(self[low].clone())
        } else {
            None
        }
    }

    fn sort_chronological(&mut self) {
        let mut taken: Vec<Location> = Vec::new();
        taken.append(self);
        *self = stable_sort(taken);
    }

    fn filter_outliers<F: Fn(Coordinates, Coordinates) -> u64>(self, distance_mm: F) -> (r: Result<
        Locations,
        EmptyInputError,
    >) {
        let count: usize = self.len();
        if count == 0 {
            return Err(EmptyInputError);
        }
        let mut marks: Vec<bool> = Vec::new();
        marks.push(true);
        let mut last_kept: usize = 0;
        let ghost mut distances: Seq<u64> = Seq::empty();
        let mut i: usize = 1;
        proof {
            assert(marked_upto(self@, marks@, 0) =~= Seq::<Location>::empty());
            assert(marked_upto(self@, marks@, 1) =~= seq![self@[0]]);
            assert(retained_upto(self@, distances, 1) =~= seq![self@[0]]);
        }
        while i < count
            invariant
                1 <= i <= count,
                count == self@.len(),
                forall|a: Coordinates, b: Coordinates| call_requires(distance_mm, (a, b)),
                marks@.len() == i,
                distances.len() == i - 1,
                0 <= last_kept < i,
                reference_for(self@, distances, i as int) == self@[last_kept as int],
                marked_upto(self@, marks@, i as nat) == retained_upto(self@, distances, i as nat),
                forall|m: int|
                    0 <= m < distances.len() ==> call_ensures(
                        distance_mm,
                        (self@[m + 1].position(), reference_for(self@, distances, m + 1).position()),
                        #[trigger] distances[m],
                    ),
            decreases count - i,
        {
            let distance: u64 = distance_mm(self[i].coordinates(), self[last_kept].coordinates());
            let keep: bool = self[i].plausible_after(&self[last_kept], distance);
            let ghost old_distances = distances;
            let ghost old_marks = marks@;
            marks.push(keep);
            proof {
                distances = old_distances.push(distance);
                lemma_retained_upto_agrees(self@, old_distances, distances, i as nat);
                lemma_marked_upto_agrees(self@, old_marks, marks@, i as nat);
                assert forall|m: int| 0 <= m < distances.len() implies call_ensures(
                    distance_mm,
                    (self@[m + 1].position(), reference_for(self@, distances, m + 1).position()),
                    #[trigger] distances[m],
                ) by {
                    lemma_retained_upto_agrees(self@, old_distances, distances, (m + 1) as nat);
                    if m < old_distances.len() {
                        assert(distances[m] == old_distances[m]);
                    }
                }
            }
            if keep {
                last_kept = i;
            }
            i = i + 1;
        }
        let kept: Vec<Location> = select_marked(self, &marks);
        let sorted: Vec<Location> = stable_sort(kept);
        proof {
            assert(measured_by(distance_mm, self@, distances));
            assert(is_stable_sort_of(sorted@, retained(self@, distances)));
            assert(is_outlier_filtering(distance_mm, self@, sorted@));
        }
        Ok(sorted)
    }

    fn filter_by_activity(self, activity: String) -> (r: Locations) {
        let count: usize = self.len();
        let mut marks: Vec<bool> = Vec::new();
        let mut i: usize = 0;
        while i < count
            invariant
                0 <= i <= count,
                count == self@.len(),
                marks@.len() == i,
                forall|j: int|
                    0 <= j < i ==> self@[j].is_activity_outcome(activity@, #[trigger] marks@[j]),
            decreases count - i,
        {
            let verdict: bool = self[i].matches_activity(activity.as_str());
            marks.push(verdict);
            i = i + 1;
        }
        assert(are_activity_outcomes(activity@, self@, marks@));
        let kept: Vec<Location> = select_marked(self, &marks);
        stable_sort(kept)
    }

    fn list_activities(&self) -> (r: Vec<String>) {
        distinct_labels(self)
    }

    fn filter_by_distance<F: Fn(Coordinates, Coordinates) -> u64>(
        self,
        center: Coordinates,
        radius_mm: u64,
        distance_mm: F,
    ) -> (r: Locations) {
        let count: usize = self.len();
        let mut marks: Vec<bool> = Vec::new();
        let ghost mut distances: Seq<u64> = Seq::empty();
        let mut i: usize = 0;
        while i < count
            invariant
                0 <= i <= count,
                count == self@.len(),
                forall|a: Coordinates, b: Coordinates| call_requires(distance_mm, (a, b)),
                marks@.len() == i,
                distances.len() == i,
                marks@ == nearer_than(distances, radius_mm),
                forall|j: int|
                    0 <= j < distances.len() ==> call_ensures(
                        distance_mm,
                        (self@[j].position(), center),
                        #[trigger] distances[j],
                    ),
            decreases count - i,
        {
            let distance: u64 = distance_mm(self[i].coordinates(), center);
            marks.push(distance < radius_mm);
            proof {
                distances = distances.push(distance);
                assert(marks@ =~= nearer_than(distances, radius_mm));
            }
            i = i + 1;
        }
        let kept: Vec<Location> = select_marked(self, &marks);
        proof {
            assert(measured_from(distance_mm, self@, center, distances));
            assert(kept@ == marked(self@, nearer_than(distances, radius_mm)));
            assert(is_distance_filtering(distance_mm, self@, center, radius_mm, kept@));
        }
        kept
    }
}

} // verus!
