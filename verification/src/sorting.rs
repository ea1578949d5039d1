//! Stable sorting by an integer key, and what it means for one sequence to
//! be the stable sort of another.

use vstd::prelude::*;

verus! {

/// Values that are put in order by an integer key.
pub trait SortKey {
    /// The key: a value stands before every value with a greater key.
    spec fn sort_key(&self) -> int;

    /// Whether this value's key is strictly less than `other`'s.
    fn sorts_before(&self, other: &Self) -> (r: bool)
        ensures
            r == (self.sort_key() < other.sort_key()),
    ;
}

/// Keys never decrease along the sequence.
pub open spec fn is_sorted<T: SortKey>(s: Seq<T>) -> bool {
    forall|i: int, j: int| 0 <= i <= j < s.len() ==> s[i].sort_key() <= s[j].sort_key()
}

/// The elements of `s` whose key is `k`, in the order they have in `s`.
pub open spec fn with_key<T: SortKey>(s: Seq<T>, k: int) -> Seq<T>
    decreases s.len(),
{
    if s.len() == 0 {
        Seq::empty()
    } else if s.last().sort_key() == k {
        with_key(s.drop_last(), k).push(s.last())
    } else {
        with_key(s.drop_last(), k)
    }
}

/// `out` holds the elements of `input` in ascending order of key, and
/// elements with equal keys keep the order they had in `input`.
pub open spec fn is_stable_sort_of<T: SortKey>(out: Seq<T>, input: Seq<T>) -> bool {
    &&& is_sorted(out)
    &&& out.len() == input.len()
    &&& forall|k: int| #[trigger] with_key(out, k) == with_key(input, k)
}

/// Appending one element appends it to the selection for its own key and
/// leaves every other selection alone.
pub proof fn lemma_with_key_push<T: SortKey>(s: Seq<T>, x: T, k: int)
    ensures
        with_key(s.push(x), k) == if x.sort_key() == k {
            with_key(s, k).push(x)
        } else {
            with_key(s, k)
        },
{
    assert(s.push(x).drop_last() =~= s);
}

/// Selecting by key distributes over concatenation.
pub proof fn lemma_with_key_add<T: SortKey>(a: Seq<T>, b: Seq<T>, k: int)
    ensures
        with_key(a + b, k) == with_key(a, k) + with_key(b, k),
    decreases b.len(),
{
    if b.len() == 0 {
        assert(a + b =~= a);
        assert(with_key(a, k) + with_key(b, k) =~= with_key(a, k));
    } else {
        lemma_with_key_add(a, b.drop_last(), k);
        assert((a + b).drop_last() =~= a + b.drop_last());
        assert((a + b).last() == b.last());
        if b.last().sort_key() == k {
            assert((with_key(a, k) + with_key(b.drop_last(), k)).push(b.last()) =~= with_key(a, k)
                + with_key(b.drop_last(), k).push(b.last()));
        }
    }
}

/// Every selected element has the key, comes from the sequence, and the
/// selection is no longer than the sequence.
pub proof fn lemma_with_key_members<T: SortKey>(s: Seq<T>, k: int)
    ensures
        with_key(s, k).len() <= s.len(),
        forall|i: int|
            0 <= i < with_key(s, k).len() ==> (#[trigger] with_key(s, k)[i]).sort_key() == k
                && s.contains(with_key(s, k)[i]),
    decreases s.len(),
{
    if s.len() > 0 {
        lemma_with_key_members(s.drop_last(), k);
        assert forall|i: int| 0 <= i < with_key(s, k).len() implies (#[trigger] with_key(
            s,
            k,
        )[i]).sort_key() == k && s.contains(with_key(s, k)[i]) by {
            let x = with_key(s, k)[i];
            if i < with_key(s.drop_last(), k).len() {
                assert(x == with_key(s.drop_last(), k)[i]);
                assert(s.drop_last().contains(x));
                let j = choose|j: int| 0 <= j < s.drop_last().len() && s.drop_last()[j] == x;
                assert(s[j] == x);
            } else {
                assert(x == s.last());
                assert(s[s.len() - 1] == x);
            }
        }
    }
}

/// An element of the sequence is found in the selection for its key.
pub proof fn lemma_with_key_holds<T: SortKey>(s: Seq<T>, i: int)
    requires
        0 <= i < s.len(),
    ensures
        with_key(s, s[i].sort_key()).contains(s[i]),
    decreases s.len(),
{
    let k = s[i].sort_key();
    if i == s.len() - 1 {
        let w = with_key(s, k);
        assert(w[w.len() - 1] == s[i]);
    } else {
        lemma_with_key_holds(s.drop_last(), i);
        let w = with_key(s.drop_last(), k);
        let j = choose|j: int| 0 <= j < w.len() && w[j] == s.drop_last()[i];
        assert(with_key(s, k)[j] == s[i]);
    }
}

/// No element has the key: the selection is empty.
pub proof fn lemma_with_key_absent<T: SortKey>(s: Seq<T>, k: int)
    requires
        forall|i: int| 0 <= i < s.len() ==> s[i].sort_key() != k,
    ensures
        with_key(s, k) == Seq::<T>::empty(),
    decreases s.len(),
{
    if s.len() > 0 {
        assert(s.last() == s[s.len() - 1]);
        assert forall|i: int| 0 <= i < s.drop_last().len() implies s.drop_last()[i].sort_key()
            != k by {
            assert(s.drop_last()[i] == s[i]);
        }
        lemma_with_key_absent(s.drop_last(), k);
    }
}

/// Two sorted sequences with the same selection for every key are the same
/// sequence: a stable sort is determined by its input.
pub proof fn lemma_sorted_selections_determine<T: SortKey>(s: Seq<T>, t: Seq<T>)
    requires
        is_sorted(s),
        is_sorted(t),
        forall|k: int| #[trigger] with_key(s, k) == with_key(t, k),
    ensures
        s == t,
    decreases s.len(),
{
    if s.len() == 0 {
        if t.len() > 0 {
            lemma_with_key_holds(t, 0);
            assert(with_key(s, t[0].sort_key()) == with_key(t, t[0].sort_key()));
        }
        assert(s =~= t);
    } else {
        let k = s.last().sort_key();
        lemma_with_key_holds(s, s.len() - 1);
        assert(with_key(s, k) == with_key(t, k));
        lemma_with_key_members(t, k);
        assert(t.len() > 0);
        let kt = t.last().sort_key();
        // the greatest key of one sequence occurs in the other
        lemma_with_key_holds(t, t.len() - 1);
        assert(with_key(s, kt) == with_key(t, kt));
        lemma_with_key_members(s, kt);
        lemma_with_key_members(s, k);
        let ws = with_key(s, kt);
        let is = choose|i: int| 0 <= i < ws.len() && ws[i] == t[t.len() - 1];
        assert(s.contains(ws[is]));
        let js = choose|j: int| 0 <= j < s.len() && s[j] == ws[is];
        assert(s[js].sort_key() == kt);
        let wt = with_key(t, k);
        let it = choose|i: int| 0 <= i < wt.len() && wt[i] == s[s.len() - 1];
        assert(t.contains(wt[it]));
        let jt = choose|j: int| 0 <= j < t.len() && t[j] == wt[it];
        assert(t[jt].sort_key() == k);
        assert(k == kt);
        // so both end in the same element, and the rest agree by induction
        let s1 = s.drop_last();
        let t1 = t.drop_last();
        assert(with_key(s, k) == with_key(s1, k).push(s.last()));
        assert(with_key(t, k) == with_key(t1, k).push(t.last()));
        assert(with_key(s, k).last() == s.last());
        assert(with_key(t, k).last() == t.last());
        assert(with_key(s, k).drop_last() =~= with_key(s1, k));
        assert(with_key(t, k).drop_last() =~= with_key(t1, k));
        assert forall|q: int| #[trigger] with_key(s1, q) == with_key(t1, q) by {
            assert(with_key(s, q) == with_key(t, q));
        }
        assert(is_sorted(s1)) by {
            assert forall|i: int, j: int| 0 <= i <= j < s1.len() implies s1[i].sort_key()
                <= s1[j].sort_key() by {
                assert(s1[i] == s[i] && s1[j] == s[j]);
            }
        }
        assert(is_sorted(t1)) by {
            assert forall|i: int, j: int| 0 <= i <= j < t1.len() implies t1[i].sort_key()
                <= t1[j].sort_key() by {
                assert(t1[i] == t[i] && t1[j] == t[j]);
            }
        }
        lemma_sorted_selections_determine(s1, t1);
        assert(s =~= s1.push(s.last()));
        assert(t =~= t1.push(t.last()));
    }
}

/// Sorting what is already sorted changes nothing.
pub proof fn lemma_stable_sort_of_sorted<T: SortKey>(out: Seq<T>, input: Seq<T>)
    requires
        is_sorted(input),
        is_stable_sort_of(out, input),
    ensures
        out == input,
{
    lemma_sorted_selections_determine(out, input);
}

/// Sorting is idempotent: the sort of a sort is that sort.
pub proof fn lemma_stable_sort_idempotent<T: SortKey>(input: Seq<T>, once: Seq<T>, twice: Seq<T>)
    requires
        is_stable_sort_of(once, input),
        is_stable_sort_of(twice, once),
    ensures
        twice == once,
{
    lemma_stable_sort_of_sorted(twice, once);
}

/// A stable sort holds what its input holds, and nothing else.
pub proof fn lemma_stable_sort_same_elements<T: SortKey>(out: Seq<T>, input: Seq<T>)
    requires
        is_stable_sort_of(out, input),
    ensures
        forall|x: T| #[trigger] out.contains(x) <==> input.contains(x),
{
    assert forall|x: T| #[trigger] out.contains(x) <==> input.contains(x) by {
        let k = x.sort_key();
        assert(with_key(out, k) == with_key(input, k));
        lemma_with_key_members(out, k);
        lemma_with_key_members(input, k);
        if out.contains(x) {
            let i = choose|i: int| 0 <= i < out.len() && out[i] == x;
            lemma_with_key_holds(out, i);
            let w = with_key(input, k);
            let j = choose|j: int| 0 <= j < w.len() && w[j] == x;
            assert(input.contains(w[j]));
        }
        if input.contains(x) {
            let i = choose|i: int| 0 <= i < input.len() && input[i] == x;
            lemma_with_key_holds(input, i);
            let w = with_key(out, k);
            let j = choose|j: int| 0 <= j < w.len() && w[j] == x;
            assert(out.contains(w[j]));
        }
    }
}

/// Any two stable sorts of one input are equal.
pub proof fn lemma_stable_sort_unique<T: SortKey>(input: Seq<T>, first: Seq<T>, second: Seq<T>)
    requires
        is_stable_sort_of(first, input),
        is_stable_sort_of(second, input),
    ensures
        first == second,
{
    assert forall|k: int| #[trigger] with_key(first, k) == with_key(second, k) by {
        assert(with_key(first, k) == with_key(input, k));
        assert(with_key(second, k) == with_key(input, k));
    }
    lemma_sorted_selections_determine(first, second);
}

/// The elements in opposite order.
pub fn reversed<T>(v: Vec<T>) -> (out: Vec<T>)
    ensures
        out@ == v@.reverse(),
{
    let mut rest: Vec<T> = v;
    let mut out: Vec<T> = Vec::new();
    while rest.len() > 0
        invariant
            rest@.len() + out@.len() == v@.len(),
            rest@ == v@.take(rest@.len() as int),
            forall|i: int| 0 <= i < out@.len() ==> out@[i] == v@[v@.len() - 1 - i],
        decreases rest@.len(),
    {
        let x = rest.pop();
        match x {
            Some(item) => {
                out.push(item);
            },
            None => {},
        }
    }
    assert(out@ =~= v@.reverse());
    out
}

/// Merges two sorted vectors into one; among equal keys, the elements of `a`
/// come first.
fn merge<T: SortKey>(a: Vec<T>, b: Vec<T>) -> (out: Vec<T>)
    requires
        is_sorted(a@),
        is_sorted(b@),
    ensures
        is_sorted(out@),
        out@.len() == a@.len() + b@.len(),
        forall|k: int| #[trigger] with_key(out@, k) == with_key(a@, k) + with_key(b@, k),
{
    let mut left: Vec<T> = a;
    let mut right: Vec<T> = b;
    let mut back: Vec<T> = Vec::new();
    // what `back` holds, greatest last taken first
    let ghost mut tail: Seq<T> = Seq::empty();
    proof {
        assert forall|k: int|
            with_key(a@, k) + with_key(b@, k) == with_key(left@, k) + with_key(right@, k)
                + #[trigger] with_key(tail, k) by {
            assert(with_key(left@, k) + with_key(right@, k) + with_key(tail, k) =~= with_key(
                a@,
                k,
            ) + with_key(b@, k));
        }
    }
    while left.len() > 0 || right.len() > 0
        invariant
            is_sorted(left@),
            is_sorted(right@),
            is_sorted(tail),
            left@.len() + right@.len() + tail.len() == a@.len() + b@.len(),
            back@.len() == tail.len(),
            forall|i: int| 0 <= i < back@.len() ==> back@[i] == tail[tail.len() - 1 - i],
            forall|i: int, j: int|
                0 <= i < left@.len() && 0 <= j < tail.len() ==> left@[i].sort_key()
                    <= tail[j].sort_key(),
            forall|i: int, j: int|
                0 <= i < right@.len() && 0 <= j < tail.len() ==> right@[i].sort_key()
                    <= tail[j].sort_key(),
            forall|k: int|
                with_key(a@, k) + with_key(b@, k) == with_key(left@, k) + with_key(right@, k)
                    + #[trigger] with_key(tail, k),
        decreases left@.len() + right@.len(),
    {
        let from_right: bool = if left.len() == 0 {
            true
        } else if right.len() == 0 {
            false
        } else {
            !right[right.len() - 1].sorts_before(&left[left.len() - 1])
        };
        let ghost left0 = left@;
        let ghost right0 = right@;
        let ghost tail0 = tail;
        if from_right {
            let x = right.pop();
            match x {
                Some(item) => {
                    proof {
                        tail = seq![item] + tail0;
                        lemma_merge_step_right(left0, right0, tail0, a@, b@);
                    }
                    back.push(item);
                },
                None => {},
            }
        } else {
            let x = left.pop();
            match x {
                Some(item) => {
                    proof {
                        tail = seq![item] + tail0;
                        lemma_merge_step_left(left0, right0, tail0, a@, b@);
                    }
                    back.push(item);
                },
                None => {},
            }
        }
    }
    let out = reversed(back);
    proof {
        assert(out@ =~= tail);
        assert forall|k: int| #[trigger]
            with_key(out@, k) == with_key(a@, k) + with_key(b@, k) by {
            assert(left@ =~= Seq::<T>::empty());
            assert(right@ =~= Seq::<T>::empty());
            assert(with_key(left@, k) + with_key(right@, k) + with_key(tail, k) =~= with_key(
                tail,
                k,
            ));
        }
    }
    out
}

/// One step of the merge that takes the last element of the right part.
proof fn lemma_merge_step_right<T: SortKey>(
    left: Seq<T>,
    right: Seq<T>,
    tail: Seq<T>,
    a: Seq<T>,
    b: Seq<T>,
)
    requires
        right.len() > 0,
        is_sorted(left),
        is_sorted(right),
        is_sorted(tail),
        left.len() > 0 ==> left.last().sort_key() <= right.last().sort_key(),
        forall|i: int, j: int|
            0 <= i < left.len() && 0 <= j < tail.len() ==> left[i].sort_key() <= tail[j].sort_key(),
        forall|i: int, j: int|
            0 <= i < right.len() && 0 <= j < tail.len() ==> right[i].sort_key()
                <= tail[j].sort_key(),
        forall|k: int|
            with_key(a, k) + with_key(b, k) == with_key(left, k) + with_key(right, k)
                + #[trigger] with_key(tail, k),
    ensures
        is_sorted(right.drop_last()),
        is_sorted(seq![right.last()] + tail),
        forall|i: int, j: int|
            0 <= i < left.len() && 0 <= j < (seq![right.last()] + tail).len()
                ==> left[i].sort_key() <= (seq![right.last()] + tail)[j].sort_key(),
        forall|i: int, j: int|
            0 <= i < right.drop_last().len() && 0 <= j < (seq![right.last()] + tail).len()
                ==> right.drop_last()[i].sort_key() <= (seq![right.last()] + tail)[j].sort_key(),
        forall|k: int|
            with_key(a, k) + with_key(b, k) == with_key(left, k) + with_key(right.drop_last(), k)
                + #[trigger] with_key(seq![right.last()] + tail, k),
{
    let x = right.last();
    let rest = right.drop_last();
    let grown = seq![x] + tail;
    assert(right[right.len() - 1] == x);
    assert forall|i: int, j: int| 0 <= i <= j < rest.len() implies rest[i].sort_key()
        <= rest[j].sort_key() by {
        assert(rest[i] == right[i] && rest[j] == right[j]);
    }
    assert forall|i: int, j: int| 0 <= i <= j < grown.len() implies grown[i].sort_key()
        <= grown[j].sort_key() by {
        if i > 0 {
            assert(grown[i] == tail[i - 1] && grown[j] == tail[j - 1]);
        } else if j > 0 {
            assert(grown[j] == tail[j - 1]);
        }
    }
    assert forall|i: int, j: int| 0 <= i < left.len() && 0 <= j < grown.len() implies left[i].sort_key()
        <= grown[j].sort_key() by {
        if j > 0 {
            assert(grown[j] == tail[j - 1]);
        } else {
            assert(left[i].sort_key() <= left[left.len() - 1].sort_key());
        }
    }
    assert forall|i: int, j: int| 0 <= i < rest.len() && 0 <= j < grown.len() implies rest[i].sort_key()
        <= grown[j].sort_key() by {
        assert(rest[i] == right[i]);
        if j > 0 {
            assert(grown[j] == tail[j - 1]);
        }
    }
    assert forall|k: int|
        with_key(a, k) + with_key(b, k) == with_key(left, k) + with_key(rest, k)
            + #[trigger] with_key(grown, k) by {
        assert(with_key(a, k) + with_key(b, k) == with_key(left, k) + with_key(right, k)
            + with_key(tail, k));
        lemma_with_key_add(seq![x], tail, k);
        assert(seq![x] =~= Seq::<T>::empty().push(x));
        lemma_with_key_push(Seq::<T>::empty(), x, k);
        if x.sort_key() == k {
            assert(with_key(right, k) == with_key(rest, k).push(x));
            assert(with_key(left, k) + with_key(rest, k).push(x) + with_key(tail, k) =~= with_key(
                left,
                k,
            ) + with_key(rest, k) + (seq![x] + with_key(tail, k)));
            assert(with_key(grown, k) =~= seq![x] + with_key(tail, k));
        } else {
            assert(with_key(grown, k) =~= with_key(tail, k));
        }
    }
}

/// One step of the merge that takes the last element of the left part.
proof fn lemma_merge_step_left<T: SortKey>(
    left: Seq<T>,
    right: Seq<T>,
    tail: Seq<T>,
    a: Seq<T>,
    b: Seq<T>,
)
    requires
        left.len() > 0,
        is_sorted(left),
        is_sorted(right),
        is_sorted(tail),
        right.len() > 0 ==> right.last().sort_key() < left.last().sort_key(),
        forall|i: int, j: int|
            0 <= i < left.len() && 0 <= j < tail.len() ==> left[i].sort_key() <= tail[j].sort_key(),
        forall|i: int, j: int|
            0 <= i < right.len() && 0 <= j < tail.len() ==> right[i].sort_key()
                <= tail[j].sort_key(),
        forall|k: int|
            with_key(a, k) + with_key(b, k) == with_key(left, k) + with_key(right, k)
                + #[trigger] with_key(tail, k),
    ensures
        is_sorted(left.drop_last()),
        is_sorted(seq![left.last()] + tail),
        forall|i: int, j: int|
            0 <= i < left.drop_last().len() && 0 <= j < (seq![left.last()] + tail).len()
                ==> left.drop_last()[i].sort_key() <= (seq![left.last()] + tail)[j].sort_key(),
        forall|i: int, j: int|
            0 <= i < right.len() && 0 <= j < (seq![left.last()] + tail).len()
                ==> right[i].sort_key() <= (seq![left.last()] + tail)[j].sort_key(),
        forall|k: int|
            with_key(a, k) + with_key(b, k) == with_key(left.drop_last(), k) + with_key(right, k)
                + #[trigger] with_key(seq![left.last()] + tail, k),
{
    let x = left.last();
    let rest = left.drop_last();
    let grown = seq![x] + tail;
    assert(left[left.len() - 1] == x);
    assert forall|i: int, j: int| 0 <= i <= j < rest.len() implies rest[i].sort_key()
        <= rest[j].sort_key() by {
        assert(rest[i] == left[i] && rest[j] == left[j]);
    }
    assert forall|i: int, j: int| 0 <= i <= j < grown.len() implies grown[i].sort_key()
        <= grown[j].sort_key() by {
        if i > 0 {
            assert(grown[i] == tail[i - 1] && grown[j] == tail[j - 1]);
        } else if j > 0 {
            assert(grown[j] == tail[j - 1]);
        }
    }
    assert forall|i: int, j: int| 0 <= i < rest.len() && 0 <= j < grown.len() implies rest[i].sort_key()
        <= grown[j].sort_key() by {
        assert(rest[i] == left[i]);
        if j > 0 {
            assert(grown[j] == tail[j - 1]);
        }
    }
    assert forall|i: int, j: int| 0 <= i < right.len() && 0 <= j < grown.len() implies right[i].sort_key()
        <= grown[j].sort_key() by {
        if j > 0 {
            assert(grown[j] == tail[j - 1]);
        } else {
            assert(right[i].sort_key() <= right[right.len() - 1].sort_key());
        }
    }
    assert forall|k: int|
        with_key(a, k) + with_key(b, k) == with_key(left.drop_last(), k) + with_key(right, k)
            + #[trigger] with_key(grown, k) by {
        assert(with_key(a, k) + with_key(b, k) == with_key(left, k) + with_key(right, k)
            + with_key(tail, k));
        lemma_with_key_add(seq![x], tail, k);
        assert(seq![x] =~= Seq::<T>::empty().push(x));
        lemma_with_key_push(Seq::<T>::empty(), x, k);
        if x.sort_key() == k {
            // nothing on the right has this key: all of it is strictly smaller
            assert forall|i: int| 0 <= i < right.len() implies right[i].sort_key() != k by {
                assert(right[i].sort_key() <= right[right.len() - 1].sort_key());
            }
            lemma_with_key_absent(right, k);
            assert(with_key(left, k) == with_key(rest, k).push(x));
            assert(with_key(rest, k).push(x) + with_key(right, k) + with_key(tail, k) =~= with_key(
                rest,
                k,
            ) + with_key(right, k) + (seq![x] + with_key(tail, k)));
            assert(with_key(grown, k) =~= seq![x] + with_key(tail, k));
        } else {
            assert(with_key(grown, k) =~= with_key(tail, k));
        }
    }
}

/// Sorts by key in ascending order, keeping elements with equal keys in the
/// order they came in. A merge sort: about `n log n` comparisons.
pub fn stable_sort<T: SortKey>(v: Vec<T>) -> (out: Vec<T>)
    ensures
        is_stable_sort_of(out@, v@),
    decreases v@.len(),
{
    let mut left: Vec<T> = v;
    if left.len() <= 1 {
        return left;
    }
    let mid: usize = left.len() / 2;
    let right: Vec<T> = left.split_off(mid);
    let ghost first = left@;
    let ghost second = right@;
    assert(v@ =~= first + second);
    let sorted_left = stable_sort(left);
    let sorted_right = stable_sort(right);
    let out = merge(sorted_left, sorted_right);
    proof {
        assert forall|k: int| #[trigger] with_key(out@, k) == with_key(v@, k) by {
            assert(with_key(sorted_left@, k) == with_key(first, k));
            assert(with_key(sorted_right@, k) == with_key(second, k));
            lemma_with_key_add(first, second, k);
        }
    }
    out
}

} // verus!
