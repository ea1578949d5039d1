//! The raw activity labels of a history, each listed once.

use vstd::prelude::*;
use crate::activity::Activities;
use crate::activity::Activity;
use crate::location::Location;

verus! {

/// The texts of a list of strings, one for one.
pub open spec fn texts(list: Seq<String>) -> Seq<Seq<char>> {
    Seq::new(list.len(), |i: int| list[i]@)
}

/// The labels of the readings, in stored order.
pub open spec fn reading_labels(entries: Seq<Activity>) -> Seq<Seq<char>> {
    Seq::new(entries.len(), |i: int| entries[i].activity_type@)
}

/// The labels of all readings of the observations, in stored order.
pub open spec fn observation_labels(observations: Seq<Activities>) -> Seq<Seq<char>>
    decreases observations.len(),
{
    if observations.len() == 0 {
        Seq::empty()
    } else {
        observation_labels(observations.drop_last()) + reading_labels(
            observations.last().activities@,
        )
    }
}

/// The labels of all readings recorded with a sample.
pub open spec fn sample_labels(sample: Location) -> Seq<Seq<char>> {
    match sample.activities {
        Some(observations) => observation_labels(observations@),
        None => Seq::empty(),
    }
}

/// The labels of all readings of a history, with repetitions, in the order
/// they are stored.
pub open spec fn history_labels(s: Seq<Location>) -> Seq<Seq<char>>
    decreases s.len(),
{
    if s.len() == 0 {
        Seq::empty()
    } else {
        history_labels(s.drop_last()) + sample_labels(s.last())
    }
}

/// `seen`, followed by the labels not in it, each where it first occurs.
pub open spec fn distinct_after(seen: Seq<Seq<char>>, labels: Seq<Seq<char>>) -> Seq<Seq<char>>
    decreases labels.len(),
{
    if labels.len() == 0 {
        seen
    } else {
        let so_far = distinct_after(seen, labels.drop_last());
        if so_far.contains(labels.last()) {
            so_far
        } else {
            so_far.push(labels.last())
        }
    }
}

/// The labels without repetitions, each where it first occurs.
pub open spec fn distinct(labels: Seq<Seq<char>>) -> Seq<Seq<char>> {
    distinct_after(Seq::empty(), labels)
}

/// Listing the distinct labels of two runs in a row is listing those of
/// their concatenation.
pub proof fn lemma_distinct_after_add(
    seen: Seq<Seq<char>>,
    a: Seq<Seq<char>>,
    b: Seq<Seq<char>>,
)
    ensures
        distinct_after(seen, a + b) == distinct_after(distinct_after(seen, a), b),
    decreases b.len(),
{
    if b.len() == 0 {
        assert(a + b =~= a);
    } else {
        lemma_distinct_after_add(seen, a, b.drop_last());
        assert((a + b).drop_last() =~= a + b.drop_last());
        assert((a + b).last() == b.last());
    }
}

/// One more label is listed if and only if it is new.
pub proof fn lemma_distinct_after_push(seen: Seq<Seq<char>>, labels: Seq<Seq<char>>, x: Seq<char>)
    ensures
        distinct_after(seen, labels.push(x)) == if distinct_after(seen, labels).contains(x) {
            distinct_after(seen, labels)
        } else {
            distinct_after(seen, labels).push(x)
        },
{
    assert(labels.push(x).drop_last() =~= labels);
}

/// The listing holds what was seen before and what the labels hold, and
/// nothing else; where nothing was seen twice before, nothing is listed
/// twice.
pub proof fn lemma_distinct_after_members(seen: Seq<Seq<char>>, labels: Seq<Seq<char>>)
    ensures
        forall|x: Seq<char>| #[trigger]
            distinct_after(seen, labels).contains(x) <==> (seen.contains(x) || labels.contains(x)),
        seen.no_duplicates() ==> distinct_after(seen, labels).no_duplicates(),
    decreases labels.len(),
{
    if labels.len() > 0 {
        let rest = labels.drop_last();
        let last = labels.last();
        lemma_distinct_after_members(seen, rest);
        let so_far = distinct_after(seen, rest);
        let all = distinct_after(seen, labels);
        assert forall|x: Seq<char>| #[trigger]
            all.contains(x) <==> (seen.contains(x) || labels.contains(x)) by {
            if labels.contains(x) {
                let i = choose|i: int| 0 <= i < labels.len() && labels[i] == x;
                if i < rest.len() {
                    assert(rest[i] == x);
                    assert(rest.contains(x));
                }
            }
            if rest.contains(x) {
                let i = choose|i: int| 0 <= i < rest.len() && rest[i] == x;
                assert(labels[i] == x);
            }
            assert(labels[labels.len() - 1] == last);
            if so_far.contains(last) {
                assert(all == so_far);
            } else {
                assert(all == so_far.push(last));
                if so_far.contains(x) {
                    let i = choose|i: int| 0 <= i < so_far.len() && so_far[i] == x;
                    assert(all[i] == x);
                }
                if all.contains(x) {
                    let i = choose|i: int| 0 <= i < all.len() && all[i] == x;
                    if i < so_far.len() {
                        assert(so_far[i] == x);
                    }
                }
                assert(all[all.len() - 1] == last);
            }
        }
        if seen.no_duplicates() && !so_far.contains(last) {
            assert forall|i: int, j: int| 0 <= i < all.len() && 0 <= j < all.len() && i
                != j implies all[i] != all[j] by {
                if i < so_far.len() && j < so_far.len() {
                    assert(so_far[i] != so_far[j]);
                } else if i < so_far.len() {
                    assert(so_far.contains(so_far[i]));
                } else {
                    assert(so_far.contains(so_far[j]));
                }
            }
        }
    }
}

/// The distinct labels are listed once each, and they are the labels that
/// occur.
pub proof fn lemma_distinct_lists_each_once(labels: Seq<Seq<char>>)
    ensures
        distinct(labels).no_duplicates(),
        forall|x: Seq<char>| #[trigger] distinct(labels).contains(x) <==> labels.contains(x),
{
    lemma_distinct_after_members(Seq::empty(), labels);
}

/// Whether the list holds a string with this text.
fn holds_text(list: &Vec<String>, text: &String) -> (r: bool)
    ensures
        r == texts(list@).contains(text@),
{
    let count: usize = list.len();
    let mut i: usize = 0;
    while i < count
        invariant
            0 <= i <= count,
            count == list@.len(),
            forall|j: int| 0 <= j < i ==> texts(list@)[j] != text@,
        decreases count - i,
    {
        if list[i] == *text {
            assert(texts(list@)[i as int] == text@);
            return true;
        }
        i = i + 1;
    }
    false
}

/// Appends the labels of the readings that the list does not hold yet.
fn absorb_readings(list: Vec<String>, entries: &Vec<Activity>) -> (out: Vec<String>)
    ensures
        texts(out@) == distinct_after(texts(list@), reading_labels(entries@)),
{
    let mut out: Vec<String> = list;
    let count: usize = entries.len();
    let mut e: usize = 0;
    assert(reading_labels(entries@).take(0) =~= Seq::<Seq<char>>::empty());
    while e < count
        invariant
            0 <= e <= count,
            count == entries@.len(),
            texts(out@) == distinct_after(texts(list@), reading_labels(entries@).take(e as int)),
        decreases count - e,
    {
        let ghost before = out@;
        let ghost labels = reading_labels(entries@).take(e as int);
        proof {
            lemma_distinct_after_push(texts(list@), labels, entries@[e as int].activity_type@);
            assert(reading_labels(entries@).take(e + 1) =~= labels.push(
                entries@[e as int].activity_type@,
            ));
        }
        if !holds_text(&out, &entries[e].activity_type) {
            let label: String = entries[e].activity_type.clone();
            out.push(label);
            assert(texts(out@) =~= texts(before).push(entries@[e as int].activity_type@));
        }
        e = e + 1;
    }
    assert(reading_labels(entries@).take(count as int) =~= reading_labels(entries@));
    out
}

/// Appends the labels of the observations that the list does not hold yet.
fn absorb_observations(list: Vec<String>, observations: &Vec<Activities>) -> (out: Vec<String>)
    ensures
        texts(out@) == distinct_after(texts(list@), observation_labels(observations@)),
{
    let mut out: Vec<String> = list;
    let count: usize = observations.len();
    let mut o: usize = 0;
    assert(observations@.take(0) =~= Seq::<Activities>::empty());
    while o < count
        invariant
            0 <= o <= count,
            count == observations@.len(),
            texts(out@) == distinct_after(
                texts(list@),
                observation_labels(observations@.take(o as int)),
            ),
        decreases count - o,
    {
        proof {
            let done = observations@.take(o as int);
            let next = observations@.take(o + 1);
            assert(next.drop_last() =~= done);
            assert(next.last() == observations@[o as int]);
            lemma_distinct_after_add(
                texts(list@),
                observation_labels(done),
                reading_labels(observations@[o as int].activities@),
            );
        }
        out = absorb_readings(out, &observations[o].activities);
        o = o + 1;
    }
    assert(observations@.take(count as int) =~= observations@);
    out
}

/// Every raw label that occurs in the history's readings, once each, in
/// the order of first occurrence.
pub fn distinct_labels(samples: &Vec<Location>) -> (out: Vec<String>)
    ensures
        texts(out@) == distinct(history_labels(samples@)),
{
    let mut out: Vec<String> = Vec::new();
    let count: usize = samples.len();
    let mut i: usize = 0;
    assert(samples@.take(0) =~= Seq::<Location>::empty());
    assert(texts(out@) =~= Seq::<Seq<char>>::empty());
    while i < count
        invariant
            0 <= i <= count,
            count == samples@.len(),
            texts(out@) == distinct(history_labels(samples@.take(i as int))),
        decreases count - i,
    {
        proof {
            let done = samples@.take(i as int);
            let next = samples@.take(i + 1);
            assert(next.drop_last() =~= done);
            assert(next.last() == samples@[i as int]);
            lemma_distinct_after_add(
                Seq::empty(),
                history_labels(done),
                sample_labels(samples@[i as int]),
            );
        }
        match &samples[i].activities {
            Some(observations) => {
                out = absorb_observations(out, observations);
            },
            None => {
                assert(history_labels(samples@.take(i + 1)) =~= history_labels(
                    samples@.take(i as int),
                ));
            },
        }
        i = i + 1;
    }
    assert(samples@.take(count as int) =~= samples@);
    out
}

} // verus!
