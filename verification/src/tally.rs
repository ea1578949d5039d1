//! Merging redundant readings: the confidence given to each kind is summed,
//! and the kinds are ranked by their sums.

use vstd::prelude::*;
use crate::activity::kind_at;
use crate::activity::lemma_kind_at_ordinal;
use crate::activity::lemma_label_round_trip;
use crate::activity::Activity;
use crate::activity::ActivityType;
use crate::activity::KIND_COUNT;

verus! {

/// The sum of the confidences of the readings of one kind.
pub open spec fn total_for(entries: Seq<Activity>, kind: ActivityType) -> int
    decreases entries.len(),
{
    if entries.len() == 0 {
        0
    } else {
        total_for(entries.drop_last(), kind) + if entries.last().kind_spec() == kind {
            entries.last().confidence as int
        } else {
            0
        }
    }
}

/// Whether some reading is of the kind.
pub open spec fn occurs(entries: Seq<Activity>, kind: ActivityType) -> bool {
    exists|i: int| 0 <= i < entries.len() && #[trigger] entries[i].kind_spec() == kind
}

/// While the readings are added up in stored order, no sum leaves the range
/// of a 32-bit confidence.
pub open spec fn running_totals_fit(entries: Seq<Activity>) -> bool {
    forall|n: int, kind: ActivityType|
        0 <= n <= entries.len() ==> i32::MIN <= #[trigger] total_for(entries.take(n), kind)
            <= i32::MAX
}

/// Kind `a` occurs and is ranked ahead of kind `b`: its sum is greater, or
/// the sums are equal and `a` is declared first.
pub open spec fn stands_before(entries: Seq<Activity>, a: ActivityType, b: ActivityType) -> bool {
    occurs(entries, a) && (total_for(entries, a) > total_for(entries, b) || (total_for(entries, a)
        == total_for(entries, b) && a.ordinal() < b.ordinal()))
}

/// How many of the numbers below `n` have the property.
pub open spec fn count_below(property: spec_fn(int) -> bool, n: int) -> int
    decreases n,
{
    if n <= 0 {
        0
    } else {
        count_below(property, n - 1) + if property(n - 1) {
            1int
        } else {
            0int
        }
    }
}

/// The place of a kind in the ranking, from 0: the number of kinds ranked
/// ahead of it.
pub open spec fn place(entries: Seq<Activity>, kind: ActivityType) -> int {
    count_below(|k: int| stands_before(entries, kind_at(k), kind), KIND_COUNT as int)
}

/// How many kinds occur among the readings.
pub open spec fn kinds_present(entries: Seq<Activity>) -> int {
    count_below(|k: int| occurs(entries, kind_at(k)), KIND_COUNT as int)
}

/// `entry` is what the ranking holds at place `i`: a kind that occurs and
/// has that place, written with its own label, with its sum as confidence.
pub open spec fn is_ranked_entry(entry: Activity, entries: Seq<Activity>, i: int) -> bool {
    let kind = entry.kind_spec();
    &&& entry.activity_type@ == kind.label_text()
    &&& occurs(entries, kind)
    &&& entry.confidence == total_for(entries, kind)
    &&& place(entries, kind) == i
}

/// `ranking` is the ranking of the readings: one entry for each kind that
/// occurs, each at the kind's place.
pub open spec fn is_ranking_of(ranking: Seq<Activity>, entries: Seq<Activity>) -> bool {
    &&& ranking.len() == kinds_present(entries)
    &&& forall|i: int| 0 <= i < ranking.len() ==> is_ranked_entry(#[trigger] ranking[i], entries, i)
    &&& forall|kind: ActivityType| #[trigger]
        occurs(entries, kind) ==> 0 <= place(entries, kind) < ranking.len() && ranking[place(
            entries,
            kind,
        )].kind_spec() == kind
}

/// `kind` is the top kind of the readings: the kind in the first place of
/// the ranking, or `UNKNOWN` where there are no readings.
pub open spec fn is_top_kind(entries: Seq<Activity>, kind: ActivityType) -> bool {
    if entries.len() == 0 {
        kind == ActivityType::UNKNOWN
    } else {
        occurs(entries, kind) && place(entries, kind) == 0
    }
}

/// The top kind of `a` is one of the first three kinds in the ranking of
/// `b`.
pub open spec fn is_similar(a: Seq<Activity>, b: Seq<Activity>) -> bool {
    exists|kind: ActivityType| #[trigger]
        is_top_kind(a, kind) && occurs(b, kind) && place(b, kind) < 3
}

/// Nothing to add up always fits.
pub proof fn lemma_nothing_fits()
    ensures
        running_totals_fit(Seq::<Activity>::empty()),
{
    assert forall|n: int, kind: ActivityType|
        0 <= n <= Seq::<Activity>::empty().len() implies i32::MIN <= #[trigger] total_for(
        Seq::<Activity>::empty().take(n),
        kind,
    ) <= i32::MAX by {}
}

/// What is a beginning of readings that fit, fits.
pub proof fn lemma_prefix_fits(all: Seq<Activity>, n: int)
    requires
        running_totals_fit(all),
        0 <= n <= all.len(),
    ensures
        running_totals_fit(all.take(n)),
{
    assert forall|m: int, kind: ActivityType| 0 <= m <= all.take(n).len() implies i32::MIN
        <= #[trigger] total_for(all.take(n).take(m), kind) <= i32::MAX by {
        assert(all.take(n).take(m) =~= all.take(m));
    }
}

/// One more reading adds its confidence to the sum of its kind.
pub proof fn lemma_total_for_push(entries: Seq<Activity>, entry: Activity, kind: ActivityType)
    ensures
        total_for(entries.push(entry), kind) == total_for(entries, kind) + if entry.kind_spec()
            == kind {
            entry.confidence as int
        } else {
            0
        },
{
    assert(entries.push(entry).drop_last() =~= entries);
}

/// One more reading makes its own kind occur and changes nothing for the
/// other kinds.
pub proof fn lemma_occurs_push(entries: Seq<Activity>, entry: Activity, kind: ActivityType)
    ensures
        occurs(entries.push(entry), kind) <==> (occurs(entries, kind) || entry.kind_spec() == kind),
{
    let longer = entries.push(entry);
    if occurs(entries, kind) {
        let i = choose|i: int| 0 <= i < entries.len() && #[trigger] entries[i].kind_spec() == kind;
        assert(longer[i].kind_spec() == kind);
    }
    if entry.kind_spec() == kind {
        assert(longer[entries.len() as int].kind_spec() == kind);
    }
    if occurs(longer, kind) {
        let i = choose|i: int| 0 <= i < longer.len() && #[trigger] longer[i].kind_spec() == kind;
        if i < entries.len() {
            assert(entries[i].kind_spec() == kind);
        }
    }
}

/// A count lies between nothing and all.
pub proof fn lemma_count_bounds(property: spec_fn(int) -> bool, n: int)
    requires
        0 <= n,
    ensures
        0 <= count_below(property, n) <= n,
    decreases n,
{
    if n > 0 {
        lemma_count_bounds(property, n - 1);
    }
}

/// Properties that agree below `n` have the same count.
pub proof fn lemma_count_agrees(p: spec_fn(int) -> bool, q: spec_fn(int) -> bool, n: int)
    requires
        forall|k: int| 0 <= k < n ==> #[trigger] p(k) == q(k),
    ensures
        count_below(p, n) == count_below(q, n),
    decreases n,
{
    if n > 0 {
        lemma_count_agrees(p, q, n - 1);
    }
}

/// Where `p` implies `q` below `n`, `q` counts at least as many; and
/// strictly more where some number has `q` without `p`.
pub proof fn lemma_count_grows(p: spec_fn(int) -> bool, q: spec_fn(int) -> bool, n: int)
    requires
        forall|k: int| 0 <= k < n ==> (#[trigger] p(k) ==> q(k)),
    ensures
        count_below(p, n) <= count_below(q, n),
        (exists|k: int| 0 <= k < n && #[trigger] q(k) && !p(k)) ==> count_below(p, n) < count_below(q, n),
        count_below(p, n) < count_below(q, n) ==> (exists|k: int| 0 <= k < n && #[trigger] q(k) && !p(k)),
    decreases n,
{
    if n > 0 {
        lemma_count_grows(p, q, n - 1);
        if exists|k: int| 0 <= k < n && #[trigger] q(k) && !p(k) {
            let k = choose|k: int| 0 <= k < n && #[trigger] q(k) && !p(k);
            if k < n - 1 {
                assert(0 <= k < n - 1 && q(k) && !p(k));
            }
        }
        if count_below(p, n) < count_below(q, n) {
            if count_below(p, n - 1) < count_below(q, n - 1) {
                let k = choose|k: int| 0 <= k < n - 1 && #[trigger] q(k) && !p(k);
                assert(0 <= k < n && q(k) && !p(k));
            } else {
                assert(q(n - 1) && !p(n - 1));
            }
        }
    }
}

/// Setting the property for one more number raises the count by one.
pub proof fn lemma_count_one_more(
    p: spec_fn(int) -> bool,
    q: spec_fn(int) -> bool,
    added: int,
    n: int,
)
    requires
        0 <= added < n,
        !p(added),
        q(added),
        forall|k: int| 0 <= k < n && k != added ==> #[trigger] p(k) == q(k),
    ensures
        count_below(q, n) == count_below(p, n) + 1,
    decreases n,
{
    if added == n - 1 {
        lemma_count_agrees(p, q, n - 1);
    } else {
        lemma_count_one_more(p, q, added, n - 1);
    }
}

/// Where some readings exist, some kind occurs, and the ranking is not
/// empty.
pub proof fn lemma_some_kind_occurs(entries: Seq<Activity>)
    requires
        entries.len() > 0,
    ensures
        kinds_present(entries) >= 1,
{
    let kind = entries[0].kind_spec();
    assert(occurs(entries, kind));
    lemma_kind_at_ordinal(kind);
    let none = |k: int| false;
    let present = |k: int| occurs(entries, kind_at(k));
    assert(present(kind.ordinal()) && !none(kind.ordinal()));
    lemma_count_grows(none, present, KIND_COUNT as int);
    lemma_count_none(KIND_COUNT as int);
}

/// Nothing has the property that never holds.
pub proof fn lemma_count_none(n: int)
    ensures
        count_below(|k: int| false, n) == 0,
    decreases n,
{
    if n > 0 {
        lemma_count_none(n - 1);
    }
}

/// Without readings no kind occurs.
pub proof fn lemma_no_kind_occurs(entries: Seq<Activity>)
    requires
        entries.len() == 0,
    ensures
        kinds_present(entries) == 0,
{
    lemma_count_none(KIND_COUNT as int);
    lemma_count_agrees(|k: int| false, |k: int| occurs(entries, kind_at(k)), KIND_COUNT as int);
}

/// Of two different kinds that occur, exactly one is ranked ahead of the
/// other, and no kind is ranked ahead of itself.
pub proof fn lemma_ranking_is_total(entries: Seq<Activity>, a: ActivityType, b: ActivityType)
    requires
        occurs(entries, a),
        occurs(entries, b),
    ensures
        a == b ==> !stands_before(entries, a, b),
        a != b ==> (stands_before(entries, a, b) <==> !stands_before(entries, b, a)),
{
}

/// A kind with another kind ranked ahead of it is not in the first place.
pub proof fn lemma_place_after(entries: Seq<Activity>, ahead: ActivityType, kind: ActivityType)
    requires
        stands_before(entries, ahead, kind),
    ensures
        place(entries, kind) >= 1,
{
    lemma_kind_at_ordinal(ahead);
    let none = |k: int| false;
    let before = |k: int| stands_before(entries, kind_at(k), kind);
    assert(before(ahead.ordinal()) && !none(ahead.ordinal()));
    lemma_count_grows(none, before, KIND_COUNT as int);
    lemma_count_none(KIND_COUNT as int);
}

/// A kind that is ranked ahead of another has the earlier place.
pub proof fn lemma_place_follows_rank(entries: Seq<Activity>, a: ActivityType, b: ActivityType)
    requires
        stands_before(entries, a, b),
    ensures
        place(entries, a) < place(entries, b),
{
    lemma_kind_at_ordinal(a);
    let ahead_of_a = |k: int| stands_before(entries, kind_at(k), a);
    let ahead_of_b = |k: int| stands_before(entries, kind_at(k), b);
    assert forall|k: int| 0 <= k < KIND_COUNT && #[trigger] ahead_of_a(k) implies ahead_of_b(
        k,
    ) by {
        lemma_ordinal_of_kind_at(k);
    }
    assert(ahead_of_b(a.ordinal()) && !ahead_of_a(a.ordinal()));
    lemma_count_grows(ahead_of_a, ahead_of_b, KIND_COUNT as int);
}

/// A ranking runs from the highest confidence to the lowest; entries of
/// equal confidence stand in the order their kinds are declared in; and no
/// kind is listed twice.
pub proof fn lemma_ranking_descends(ranking: Seq<Activity>, entries: Seq<Activity>)
    requires
        is_ranking_of(ranking, entries),
    ensures
        forall|i: int, j: int|
            0 <= i < j < ranking.len() ==> {
                &&& (#[trigger] ranking[i]).confidence >= (#[trigger] ranking[j]).confidence
                &&& ranking[i].kind_spec() != ranking[j].kind_spec()
                &&& ranking[i].confidence == ranking[j].confidence
                    ==> ranking[i].kind_spec().ordinal() < ranking[j].kind_spec().ordinal()
            },
{
    assert forall|i: int, j: int| 0 <= i < j < ranking.len() implies {
        &&& (#[trigger] ranking[i]).confidence >= (#[trigger] ranking[j]).confidence
        &&& ranking[i].kind_spec() != ranking[j].kind_spec()
        &&& ranking[i].confidence == ranking[j].confidence
            ==> ranking[i].kind_spec().ordinal() < ranking[j].kind_spec().ordinal()
    } by {
        let a = ranking[i].kind_spec();
        let b = ranking[j].kind_spec();
        assert(is_ranked_entry(ranking[i], entries, i));
        assert(is_ranked_entry(ranking[j], entries, j));
        if a != b {
            lemma_ranking_is_total(entries, a, b);
            if stands_before(entries, b, a) {
                lemma_place_follows_rank(entries, b, a);
            }
        }
    }
}

/// At most one kind that occurs has the first place.
pub proof fn lemma_first_place_unique(entries: Seq<Activity>, a: ActivityType, b: ActivityType)
    requires
        occurs(entries, a),
        occurs(entries, b),
        place(entries, a) == 0,
        place(entries, b) == 0,
    ensures
        a == b,
{
    if a != b {
        lemma_ranking_is_total(entries, a, b);
        if stands_before(entries, a, b) {
            lemma_place_after(entries, a, b);
        } else {
            lemma_place_after(entries, b, a);
        }
    }
}

/// Sums and occurrences so far, one place for each kind.
pub(crate) struct Tally {
    sums: Vec<i32>,
    seen: Vec<bool>,
}

/// Nine flags, none set.
fn no_flags() -> (flags: Vec<bool>)
    ensures
        flags@.len() == KIND_COUNT,
        forall|k: int| 0 <= k < KIND_COUNT ==> !flags@[k],
{
    let mut flags: Vec<bool> = Vec::new();
    let mut k: usize = 0;
    while k < KIND_COUNT
        invariant
            0 <= k <= KIND_COUNT,
            flags@.len() == k,
            forall|j: int| 0 <= j < k ==> !flags@[j],
        decreases KIND_COUNT - k,
    {
        flags.push(false);
        k = k + 1;
    }
    flags
}

/// The kind that is next in the ranking among those seen and not yet
/// taken: the one with the greatest sum, and of several the one declared
/// first. `None` once all that were seen are taken.
fn best_remaining(sums: &Vec<i32>, seen: &Vec<bool>, taken: &Vec<bool>) -> (r: Option<usize>)
    requires
        sums@.len() == KIND_COUNT,
        seen@.len() == KIND_COUNT,
        taken@.len() == KIND_COUNT,
    ensures
        match r {
            Some(b) => {
                &&& b < KIND_COUNT
                &&& seen@[b as int]
                &&& !taken@[b as int]
                &&& forall|j: int|
                    0 <= j < KIND_COUNT && seen@[j] && !taken@[j] && j != b ==> (sums@[b as int]
                        > #[trigger] sums@[j] || (sums@[b as int] == sums@[j] && b < j))
            },
            None => forall|j: int| 0 <= j < KIND_COUNT && #[trigger] seen@[j] ==> taken@[j],
        },
{
    let mut best: Option<usize> = None;
    let mut k: usize = 0;
    while k < KIND_COUNT
        invariant
            0 <= k <= KIND_COUNT,
            sums@.len() == KIND_COUNT,
            seen@.len() == KIND_COUNT,
            taken@.len() == KIND_COUNT,
            match best {
                Some(b) => {
                    &&& b < k
                    &&& seen@[b as int]
                    &&& !taken@[b as int]
                    &&& forall|j: int|
                        0 <= j < k && seen@[j] && !taken@[j] && j != b ==> (sums@[b as int]
                            > #[trigger] sums@[j] || (sums@[b as int] == sums@[j] && b < j))
                },
                None => forall|j: int| 0 <= j < k && #[trigger] seen@[j] ==> taken@[j],
            },
        decreases KIND_COUNT - k,
    {
        if seen[k] && !taken[k] {
            match best {
                Some(b) => {
                    if sums[k] > sums[b] {
                        best = Some(k);
                    }
                },
                None => {
                    best = Some(k);
                },
            }
        }
        k = k + 1;
    }
    best
}

/// The place of the kind at `k` in the order of declaration is `k`.
pub proof fn lemma_ordinal_of_kind_at(k: int)
    requires
        0 <= k < KIND_COUNT,
    ensures
        kind_at(k).ordinal() == k,
{
}

impl Tally {
    /// The tally holds, for each kind, the sum of the readings and whether
    /// the kind occurs among them.
    pub(crate) closed spec fn represents(&self, entries: Seq<Activity>) -> bool {
        &&& self.sums@.len() == KIND_COUNT
        &&& self.seen@.len() == KIND_COUNT
        &&& forall|k: int|
            0 <= k < KIND_COUNT ==> #[trigger] self.sums@[k] == total_for(entries, kind_at(k))
        &&& forall|k: int|
            0 <= k < KIND_COUNT ==> #[trigger] self.seen@[k] == occurs(entries, kind_at(k))
    }

    /// The tally of no readings.
    pub(crate) fn new() -> (tally: Tally)
        ensures
            tally.represents(Seq::empty()),
    {
        let mut sums: Vec<i32> = Vec::new();
        let mut k: usize = 0;
        while k < KIND_COUNT
            invariant
                0 <= k <= KIND_COUNT,
                sums@.len() == k,
                forall|j: int| 0 <= j < k ==> sums@[j] == 0,
            decreases KIND_COUNT - k,
        {
            sums.push(0);
            k = k + 1;
        }
        let seen: Vec<bool> = no_flags();
        Tally { sums, seen }
    }

    /// Adds the readings to a tally of the readings `before`; `None` exactly
    /// when a running sum leaves the range of 32 bits on the way.
    pub(crate) fn absorb(self, entries: &Vec<Activity>, Ghost(before): Ghost<Seq<Activity>>) -> (r:
        Option<Tally>)
        requires
            self.represents(before),
            running_totals_fit(before),
        ensures
            match r {
                Some(tally) => running_totals_fit(before + entries@) && tally.represents(
                    before + entries@,
                ),
                None => !running_totals_fit(before + entries@),
            },
    {
        let mut sums: Vec<i32> = self.sums;
        let mut seen: Vec<bool> = self.seen;
        let ghost all = before + entries@;
        let count: usize = entries.len();
        let mut e: usize = 0;
        assert(all.take(before.len() as int) =~= before);
        while e < count
            invariant
                0 <= e <= count,
                count == entries@.len(),
                all == before + entries@,
                running_totals_fit(all.take(before.len() + e)),
                sums@.len() == KIND_COUNT,
                seen@.len() == KIND_COUNT,
                forall|k: int|
                    0 <= k < KIND_COUNT ==> #[trigger] sums@[k] == total_for(
                        all.take(before.len() + e),
                        kind_at(k),
                    ),
                forall|k: int|
                    0 <= k < KIND_COUNT ==> #[trigger] seen@[k] == occurs(
                        all.take(before.len() + e),
                        kind_at(k),
                    ),
            decreases count - e,
        {
            let kind: ActivityType = entries[e].kind();
            let k: usize = kind.index();
            let ghost done = all.take(before.len() + e);
            let ghost grown = all.take(before.len() + e + 1);
            let ghost entry = entries@[e as int];
            let ghost old_sums = sums@;
            let ghost old_seen = seen@;
            proof {
                assert(all[before.len() + e] == entry);
                assert(grown =~= done.push(entry));
                lemma_kind_at_ordinal(kind);
                lemma_total_for_push(done, entry, kind);
                assert(old_sums[k as int] == total_for(done, kind_at(k as int)));
            }
            let sum: i64 = sums[k] as i64 + entries[e].confidence as i64;
            if sum < -0x8000_0000 || sum > 0x7fff_ffff {
                proof {
                    assert(total_for(all.take(before.len() + e + 1), kind) == sum);
                }
                return None;
            }
            sums.set(k, sum as i32);
            seen.set(k, true);
            proof {
                assert forall|j: int| 0 <= j < KIND_COUNT implies #[trigger] sums@[j] == total_for(
                    grown,
                    kind_at(j),
                ) by {
                    lemma_total_for_push(done, entry, kind_at(j));
                    lemma_ordinal_of_kind_at(j);
                    if j != k {
                        assert(sums@[j] == old_sums[j]);
                    }
                }
                assert forall|j: int| 0 <= j < KIND_COUNT implies #[trigger] seen@[j] == occurs(
                    grown,
                    kind_at(j),
                ) by {
                    lemma_occurs_push(done, entry, kind_at(j));
                    lemma_ordinal_of_kind_at(j);
                    if j != k {
                        assert(seen@[j] == old_seen[j]);
                    }
                }
                assert forall|n: int, any: ActivityType| 0 <= n <= grown.len() implies i32::MIN
                    <= #[trigger] total_for(grown.take(n), any) <= i32::MAX by {
                    if n <= done.len() {
                        assert(grown.take(n) =~= done.take(n));
                    } else {
                        assert(grown.take(n) =~= grown);
                        lemma_kind_at_ordinal(any);
                        assert(sums@[any.ordinal()] == total_for(grown, kind_at(any.ordinal())));
                    }
                }
            }
            e = e + 1;
        }
        assert(all.take(before.len() + count) =~= all);
        Some(Tally { sums, seen })
    }

    /// The ranking: one entry for each kind that occurs, highest sum first,
    /// equal sums in the order the kinds are declared in.
    pub(crate) fn ranking(&self, Ghost(entries): Ghost<Seq<Activity>>) -> (out: Vec<Activity>)
        requires
            self.represents(entries),
        ensures
            is_ranking_of(out@, entries),
    {
        let mut taken: Vec<bool> = no_flags();
        let mut out: Vec<Activity> = Vec::new();
        let mut next: Option<usize> = best_remaining(&self.sums, &self.seen, &taken);
        proof {
            lemma_count_none(KIND_COUNT as int);
            lemma_count_agrees(|k: int| false, |k: int| taken@[k], KIND_COUNT as int);
        }
        while next.is_some()
            invariant
                self.represents(entries),
                taken@.len() == KIND_COUNT,
                out@.len() == count_below(|k: int| taken@[k], KIND_COUNT as int),
                forall|k: int| 0 <= k < KIND_COUNT && #[trigger] taken@[k] ==> self.seen@[k],
                forall|k: int, j: int|
                    0 <= k < KIND_COUNT && 0 <= j < KIND_COUNT && #[trigger] taken@[k]
                        && #[trigger] self.seen@[j] && !taken@[j] ==> stands_before(
                        entries,
                        kind_at(k),
                        kind_at(j),
                    ),
                forall|i: int| 0 <= i < out@.len() ==> is_ranked_entry(#[trigger] out@[i], entries, i),
                forall|k: int|
                    0 <= k < KIND_COUNT && #[trigger] taken@[k] ==> 0 <= place(entries, kind_at(k))
                        < out@.len() && out@[place(entries, kind_at(k))].kind_spec() == kind_at(k),
                match next {
                    Some(b) => {
                        &&& b < KIND_COUNT
                        &&& self.seen@[b as int]
                        &&& !taken@[b as int]
                        &&& forall|j: int|
                            0 <= j < KIND_COUNT && self.seen@[j] && !taken@[j] && j != b ==> (
                            self.sums@[b as int] > #[trigger] self.sums@[j] || (self.sums@[b as int]
                                == self.sums@[j] && b < j))
                    },
                    None => forall|j: int|
                        0 <= j < KIND_COUNT && #[trigger] self.seen@[j] ==> taken@[j],
                },
            decreases KIND_COUNT - count_below(|k: int| taken@[k], KIND_COUNT as int),
        {
            let b: usize = match next {
                Some(b) => b,
                None => 0,
            };
            let kind: ActivityType = match ActivityType::from_index(b) {
                Some(kind) => kind,
                None => ActivityType::UNKNOWN,
            };
            let entry = Activity { activity_type: kind.label(), confidence: self.sums[b] };
            let ghost old_taken = taken@;
            let ghost old_out = out@;
            proof {
                lemma_label_round_trip(kind);
                lemma_ordinal_of_kind_at(b as int);
                assert(self.seen@[b as int] == occurs(entries, kind));
                assert(self.sums@[b as int] == total_for(entries, kind));
                assert forall|k: int| 0 <= k < KIND_COUNT implies stands_before(
                    entries,
                    kind_at(k),
                    kind,
                ) == old_taken[k] by {
                    lemma_ordinal_of_kind_at(k);
                    assert(self.seen@[k] == occurs(entries, kind_at(k)));
                    assert(self.sums@[k] == total_for(entries, kind_at(k)));
                }
                lemma_count_agrees(
                    |k: int| stands_before(entries, kind_at(k), kind),
                    |k: int| old_taken[k],
                    KIND_COUNT as int,
                );
                assert(place(entries, kind) == old_out.len());
            }
            out.push(entry);
            taken.set(b, true);
            proof {
                lemma_count_one_more(
                    |k: int| old_taken[k],
                    |k: int| taken@[k],
                    b as int,
                    KIND_COUNT as int,
                );
                lemma_count_bounds(|k: int| taken@[k], KIND_COUNT as int);
                assert forall|k: int, j: int|
                    0 <= k < KIND_COUNT && 0 <= j < KIND_COUNT && #[trigger] taken@[k]
                        && #[trigger] self.seen@[j] && !taken@[j] implies stands_before(
                    entries,
                    kind_at(k),
                    kind_at(j),
                ) by {
                    if k == b {
                        lemma_ordinal_of_kind_at(j);
                        assert(self.sums@[j] == total_for(entries, kind_at(j)));
                        assert(!old_taken[j]);
                    } else {
                        assert(old_taken[k]);
                        assert(!old_taken[j]);
                    }
                }
                assert forall|i: int| 0 <= i < out@.len() implies is_ranked_entry(
                    #[trigger] out@[i],
                    entries,
                    i,
                ) by {
                    if i < old_out.len() {
                        assert(out@[i] == old_out[i]);
                    }
                }
                assert forall|k: int| 0 <= k < KIND_COUNT && #[trigger] taken@[k] implies 0
                    <= place(entries, kind_at(k)) < out@.len() && out@[place(
                    entries,
                    kind_at(k),
                )].kind_spec() == kind_at(k) by {
                    if k != b {
                        assert(old_taken[k]);
                        assert(out@[place(entries, kind_at(k))] == old_out[place(
                            entries,
                            kind_at(k),
                        )]);
                    }
                }
            }
            next = best_remaining(&self.sums, &self.seen, &taken);
        }
        proof {
            assert forall|k: int| 0 <= k < KIND_COUNT implies (#[trigger] taken@[k]) == occurs(
                entries,
                kind_at(k),
            ) by {
                assert(self.seen@[k] == occurs(entries, kind_at(k)));
            }
            lemma_count_agrees(
                |k: int| taken@[k],
                |k: int| occurs(entries, kind_at(k)),
                KIND_COUNT as int,
            );
            assert forall|kind: ActivityType| #[trigger] occurs(entries, kind) implies 0 <= place(
                entries,
                kind,
            ) < out@.len() && out@[place(entries, kind)].kind_spec() == kind by {
                lemma_kind_at_ordinal(kind);
                assert(self.seen@[kind.ordinal()] == occurs(entries, kind_at(kind.ordinal())));
                assert(taken@[kind.ordinal()]);
            }
        }
        out
    }
}

} // verus!
