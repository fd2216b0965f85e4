//! Counting how often each label occurs in a sequence.

use ord_subset::OrdSubsetIterExt;
use vstd::prelude::*;

verus! {

/// A value that can serve as a discrete label. Two labels are the same label
/// exactly when their keys are equal.
pub trait Label: Sized {
    type Key;

    spec fn key(&self) -> Self::Key;

    fn same(&self, other: &Self) -> (b: bool)
        ensures
            b == (self.key() == other.key()),
    ;
}

impl Label for String {
    type Key = Seq<char>;

    open spec fn key(&self) -> Seq<char> {
        self@
    }

    fn same(&self, other: &Self) -> (b: bool) {
        *self == *other
    }
}

impl<'a, T: Label> Label for &'a T {
    type Key = T::Key;

    open spec fn key(&self) -> T::Key {
        (**self).key()
    }

    fn same(&self, other: &Self) -> (b: bool) {
        (*self).same(*other)
    }
}

impl Label for u8 {
    type Key = u8;

    open spec fn key(&self) -> u8 {
        *self
    }

    fn same(&self, other: &Self) -> (b: bool) {
        *self == *other
    }
}

impl Label for i32 {
    type Key = i32;

    open spec fn key(&self) -> i32 {
        *self
    }

    fn same(&self, other: &Self) -> (b: bool) {
        *self == *other
    }
}

impl Label for u64 {
    type Key = u64;

    open spec fn key(&self) -> u64 {
        *self
    }

    fn same(&self, other: &Self) -> (b: bool) {
        *self == *other
    }
}

impl Label for usize {
    type Key = usize;

    open spec fn key(&self) -> usize {
        *self
    }

    fn same(&self, other: &Self) -> (b: bool) {
        *self == *other
    }
}

/// The keys of a sequence of labels, position by position.
pub open spec fn keys<T: Label>(ts: Seq<T>) -> Seq<T::Key> {
    Seq::new(ts.len(), |i: int| ts[i].key())
}

/// How many positions of `s` hold `k`.
pub open spec fn occurrences<K>(s: Seq<K>, k: K) -> nat
    decreases s.len(),
{
    if s.len() == 0 {
        0
    } else {
        occurrences(s.drop_last(), k) + if s.last() == k {
            1nat
        } else {
            0nat
        }
    }
}

/// The distinct elements of `s`, each once, in the order in which they first appear.
pub open spec fn first_seen<K>(s: Seq<K>) -> Seq<K>
    decreases s.len(),
{
    if s.len() == 0 {
        Seq::empty()
    } else {
        let before = first_seen(s.drop_last());
        if before.contains(s.last()) {
            before
        } else {
            before.push(s.last())
        }
    }
}

/// The first position of `s` that holds `k`, where `s` holds `k` at all.
pub open spec fn first_position<K>(s: Seq<K>, k: K) -> int
    decreases s.len(),
{
    if s.len() == 0 {
        0
    } else if s.drop_last().contains(k) {
        first_position(s.drop_last(), k)
    } else {
        s.len() - 1
    }
}

/// Where `s` holds `k`, `first_position(s, k)` is a position of `s` that holds
/// `k`, and no earlier position does.
pub proof fn lemma_first_position<K>(s: Seq<K>, k: K)
    requires
        s.contains(k),
    ensures
        0 <= first_position(s, k) < s.len(),
        s[first_position(s, k)] == k,
        forall|j: int| 0 <= j < first_position(s, k) ==> s[j] != k,
    decreases s.len(),
{
    let i = choose|i: int| 0 <= i < s.len() && s[i] == k;
    let front = s.drop_last();
    if front.contains(k) {
        lemma_first_position(front, k);
        let p = first_position(front, k);
        assert(s[p] == front[p]);
        assert forall|j: int| 0 <= j < p implies s[j] != k by {
            assert(s[j] == front[j]);
        }
    } else {
        if i < s.len() - 1 {
            assert(front[i] == k);
        }
        assert forall|j: int| 0 <= j < s.len() - 1 implies s[j] != k by {
            if s[j] == k {
                assert(front[j] == k);
            }
        }
    }
}

/// `first_seen(s)` holds exactly the elements of `s`.
pub proof fn lemma_first_seen_contains<K>(s: Seq<K>, k: K)
    ensures
        first_seen(s).contains(k) <==> s.contains(k),
    decreases s.len(),
{
    if s.len() > 0 {
        let front = s.drop_last();
        lemma_first_seen_contains(front, k);
        let before = first_seen(front);
        if s.contains(k) {
            let i = choose|i: int| 0 <= i < s.len() && s[i] == k;
            if i < s.len() - 1 {
                assert(front[i] == k);
                assert(front.contains(k));
                let j = choose|j: int| 0 <= j < before.len() && before[j] == k;
                assert(first_seen(s)[j] == k);
            } else {
                assert(s.last() == k);
                if !before.contains(k) {
                    assert(before.push(k)[before.len() as int] == k);
                }
            }
        }
        if first_seen(s).contains(k) {
            let j = choose|j: int| 0 <= j < first_seen(s).len() && first_seen(s)[j] == k;
            if j < before.len() {
                assert(before[j] == k);
                assert(before.contains(k));
                let i = choose|i: int| 0 <= i < front.len() && front[i] == k;
                assert(s[i] == k);
            } else {
                assert(s[s.len() - 1] == k);
            }
        }
    }
}

/// No element occurs twice in `first_seen(s)`.
pub proof fn lemma_first_seen_no_duplicates<K>(s: Seq<K>)
    ensures
        first_seen(s).no_duplicates(),
    decreases s.len(),
{
    if s.len() > 0 {
        lemma_first_seen_no_duplicates(s.drop_last());
    }
}

/// An element that `s` does not hold occurs zero times, and one that it holds at least once.
pub proof fn lemma_occurrences_contains<K>(s: Seq<K>, k: K)
    ensures
        occurrences(s, k) > 0 <==> s.contains(k),
        occurrences(s, k) <= s.len(),
    decreases s.len(),
{
    if s.len() > 0 {
        let front = s.drop_last();
        lemma_occurrences_contains(front, k);
        if s.contains(k) {
            let i = choose|i: int| 0 <= i < s.len() && s[i] == k;
            if i < s.len() - 1 {
                assert(front[i] == k);
            }
        }
        if front.contains(k) {
            let i = choose|i: int| 0 <= i < front.len() && front[i] == k;
            assert(s[i] == k);
        }
        if s.last() == k {
            assert(s[s.len() - 1] == k);
        }
    }
}

/// The keys of the labels that a count holds, position by position.
pub open spec fn counted_keys<T: Label>(counts: Seq<(&T, usize)>) -> Seq<T::Key> {
    Seq::new(counts.len(), |i: int| counts[i].0.key())
}

/// Counts the occurrences of each distinct label of `ts`. The result holds one
/// entry for each distinct label: the first element of `ts` that carries the
/// label, and the number of positions of `ts` that hold it. The entries stand
/// in the order in which the labels first appear, which is the order that
/// decides between labels with equal counts.
pub fn frequency_count<T: Label>(ts: &[T]) -> (counts: Vec<(&T, usize)>)
    ensures
        counted_keys(counts@) == first_seen(keys(ts@)),
        forall|i: int|
            0 <= i < counts.len() ==> counts[i].1 == occurrences(
                keys(ts@),
                #[trigger] counts[i].0.key(),
            ),
        forall|i: int|
            0 <= i < counts.len() ==> *counts[i].0 == ts[first_position(
                keys(ts@),
                #[trigger] counts[i].0.key(),
            )],
{
    let mut counts: Vec<(&T, usize)> = Vec::new();
    let mut i: usize = 0;
    proof {
        assert(keys(ts@).take(0) =~= Seq::empty());
        assert(counted_keys(counts@) =~= Seq::empty());
    }
    while i < ts.len()
        invariant
            i <= ts.len(),
            counted_keys(counts@) == first_seen(keys(ts@).take(i as int)),
            forall|j: int|
                0 <= j < counts.len() ==> counts[j].1 == occurrences(
                    keys(ts@).take(i as int),
                    #[trigger] counts[j].0.key(),
                ),
            forall|j: int|
                0 <= j < counts.len() ==> *counts[j].0 == ts[first_position(
                    keys(ts@).take(i as int),
                    #[trigger] counts[j].0.key(),
                )],
        decreases ts.len() - i,
    {
        let t = &ts[i];
        let ghost seen = keys(ts@).take(i as int);
        let ghost next = keys(ts@).take(i + 1);
        proof {
            assert(next.drop_last() =~= seen);
            assert(next.last() == t.key());
            lemma_first_seen_no_duplicates(seen);
        }
        let mut j: usize = 0;
        let mut found: bool = false;
        while j < counts.len() && !found
            invariant
                j <= counts.len(),
                !found ==> forall|k: int| 0 <= k < j ==> counts[k].0.key() != t.key(),
                found ==> j < counts.len() && counts[j as int].0.key() == t.key(),
            decreases counts.len() - j + if found { 0int } else { 1int },
        {
            if counts[j].0.same(t) {
                found = true;
            } else {
                j = j + 1;
            }
        }
        if found {
            let entry = counts[j];
            proof {
                lemma_occurrences_contains(seen, t.key());
                assert(counted_keys(counts@)[j as int] == t.key());
                assert(first_seen(seen).contains(t.key()));
            }
            let ghost before = counts@;
            counts.set(j, (entry.0, entry.1 + 1));
            proof {
                assert(counted_keys(counts@) =~= counted_keys(before));
                assert forall|k: int| 0 <= k < counts.len() implies counts[k].1 == occurrences(
                    next,
                    #[trigger] counts[k].0.key(),
                ) by {
                    if k != j {
                        assert(counted_keys(before)[k] != counted_keys(before)[j as int]);
                    }
                }
                assert forall|k: int| 0 <= k < counts.len() implies *counts[k].0
                    == ts[first_position(next, #[trigger] counts[k].0.key())] by {
                    assert(counted_keys(before)[k] == before[k].0.key());
                    assert(first_seen(seen).contains(before[k].0.key()));
                    lemma_first_seen_contains(seen, before[k].0.key());
                }
            }
        } else {
            proof {
                assert(!first_seen(seen).contains(t.key())) by {
                    if first_seen(seen).contains(t.key()) {
                        let k = choose|k: int|
                            0 <= k < first_seen(seen).len() && first_seen(seen)[k] == t.key();
                        assert(counted_keys(counts@)[k] == t.key());
                    }
                }
                lemma_first_seen_contains(seen, t.key());
                lemma_occurrences_contains(seen, t.key());
            }
            let ghost before = counts@;
            counts.push((t, 1));
            proof {
                assert(counted_keys(counts@) =~= counted_keys(before).push(t.key()));
                assert forall|k: int| 0 <= k < counts.len() implies counts[k].1 == occurrences(
                    next,
                    #[trigger] counts[k].0.key(),
                ) by {
                    if k < before.len() {
                        assert(counted_keys(before)[k] == before[k].0.key());
                        assert(first_seen(seen).contains(before[k].0.key()));
                    }
                }
                assert forall|k: int| 0 <= k < counts.len() implies *counts[k].0
                    == ts[first_position(next, #[trigger] counts[k].0.key())] by {
                    if k < before.len() {
                        assert(counted_keys(before)[k] == before[k].0.key());
                        assert(first_seen(seen).contains(before[k].0.key()));
                        lemma_first_seen_contains(seen, before[k].0.key());
                    }
                }
            }
        }
        i = i + 1;
    }
    proof {
        assert(keys(ts@).take(i as int) =~= keys(ts@));
    }
    counts
}

/// Whether `best` is the place, among the distinct elements of `s` in the order
/// of first appearance, of the element that occurs most often in `s`. Of
/// several elements that occur equally often, the first to appear is taken.
pub open spec fn is_top<K>(s: Seq<K>, best: int) -> bool {
    let distinct = first_seen(s);
    &&& 0 <= best < distinct.len()
    &&& forall|j: int|
        0 <= j < distinct.len() ==> occurrences(s, distinct[j]) <= occurrences(s, distinct[best])
    &&& forall|j: int| 0 <= j < best ==> occurrences(s, distinct[j]) < occurrences(s, distinct[best])
}

/// The element that occurs most often in `s`; of several that occur equally
/// often, the one that appears first. `s` is not empty.
pub open spec fn majority<K>(s: Seq<K>) -> K {
    first_seen(s)[choose|best: int| is_top(s, best)]
}

/// `ord_subset_max_by_key` of the crate ord_subset over the entries with their
/// places, with the count of an entry as its key. The counts are integers, so
/// none is left out. The call hands back the place of the largest count and,
/// of several largest counts, the last. The result is `None` where there is
/// no entry.
#[verifier::external_body]
pub(crate) fn position_of_largest<T>(counts: &Vec<(&T, usize)>) -> (best: Option<usize>)
    ensures
        best is None <==> counts.len() == 0,
        best matches Some(b) ==> {
            &&& b < counts.len()
            &&& forall|j: int| 0 <= j < counts.len() ==> counts[j].1 <= counts[b as int].1
            &&& forall|j: int| b < j < counts.len() ==> counts[j].1 < counts[b as int].1
        },
{
    counts.iter().enumerate().ord_subset_max_by_key(|entry| (entry.1).1).map(|entry| entry.0)
}

/// The place of the largest count and, of several largest counts, the first.
/// There is none where there is no entry.
fn first_of_largest<T>(counts: &Vec<(&T, usize)>) -> (best: Option<usize>)
    ensures
        best is None <==> counts.len() == 0,
        best matches Some(b) ==> {
            &&& b < counts.len()
            &&& forall|j: int| 0 <= j < counts.len() ==> counts[j].1 <= counts[b as int].1
            &&& forall|j: int| 0 <= j < b ==> counts[j].1 < counts[b as int].1
        },
{
    let n = counts.len();
    let mut reversed: Vec<(&T, usize)> = Vec::new();
    let mut k: usize = 0;
    while k < n
        invariant
            k <= n,
            n == counts.len(),
            reversed.len() == k,
            forall|i: int| 0 <= i < k ==> reversed[i] == counts[n - 1 - i],
        decreases n - k,
    {
        reversed.push(counts[n - 1 - k]);
        k = k + 1;
    }
    match position_of_largest(&reversed) {
        Some(last) => {
            let best = n - 1 - last;
            proof {
                assert forall|j: int| 0 <= j < counts.len() implies counts[j].1
                    <= counts[best as int].1 by {
                    assert(reversed[n - 1 - j] == counts[j]);
                }
                assert forall|j: int| 0 <= j < best implies counts[j].1 < counts[best as int].1 by {
                    assert(reversed[n - 1 - j] == counts[j]);
                }
            }
            Some(best)
        },
        None => None,
    }
}

/// The label that occurs most often among `ts`; of several that occur equally
/// often, the one that appears first. It is handed back as the first element
/// of `ts` that carries it. There is none where `ts` is empty.
pub fn most_frequent<'a, T: Label>(ts: &'a [T]) -> (label: Option<&'a T>)
    ensures
        label is None <==> ts.len() == 0,
        label matches Some(t) ==> {
            &&& t.key() == majority(keys(ts@))
            &&& keys(ts@).contains(majority(keys(ts@)))
            &&& *t == ts[first_position(keys(ts@), majority(keys(ts@)))]
        },
{
    let counts = frequency_count(ts);
    proof {
        if ts.len() > 0 {
            lemma_first_seen_contains(keys(ts@), keys(ts@)[0]);
        }
        assert(counted_keys(counts@).len() == counts.len());
    }
    match first_of_largest(&counts) {
        Some(best) => {
            proof {
                let distinct = first_seen(keys(ts@));
                assert forall|j: int| 0 <= j < counts.len() implies counts[j].1 == occurrences(
                    keys(ts@),
                    #[trigger] distinct[j],
                ) by {
                    assert(counted_keys(counts@)[j] == counts[j].0.key());
                }
                assert(is_top(keys(ts@), best as int));
                let chosen = choose|b: int| is_top(keys(ts@), b);
                assert(chosen == best);
                assert(counted_keys(counts@)[best as int] == counts[best as int].0.key());
                assert(first_seen(keys(ts@)).contains(distinct[best as int]));
                lemma_first_seen_contains(keys(ts@), distinct[best as int]);
            }
            Some(counts[best].0)
        },
        None => {
            proof {
                if ts.len() > 0 {
                    assert(first_seen(keys(ts@)).contains(keys(ts@)[0]));
                }
            }
            None
        },
    }
}

proof fn lemma_top_below<K>(s: Seq<K>, n: int) -> (best: int)
    requires
        0 < n <= first_seen(s).len(),
    ensures
        0 <= best < n,
        forall|j: int|
            0 <= j < n ==> occurrences(s, first_seen(s)[j]) <= occurrences(s, first_seen(s)[best]),
        forall|j: int|
            0 <= j < best ==> occurrences(s, first_seen(s)[j]) < occurrences(
                s,
                first_seen(s)[best],
            ),
    decreases n,
{
    if n == 1 {
        0
    } else {
        let before = lemma_top_below(s, n - 1);
        if occurrences(s, first_seen(s)[n - 1]) > occurrences(s, first_seen(s)[before]) {
            n - 1
        } else {
            before
        }
    }
}

/// A sequence that is not empty has a majority: an element of the sequence
/// than which no element occurs more often, and the first to appear of those
/// that occur as often.
pub proof fn lemma_majority<K>(s: Seq<K>)
    requires
        s.len() > 0,
    ensures
        exists|best: int| is_top(s, best) && majority(s) == first_seen(s)[best],
        s.contains(majority(s)),
        forall|k: K| #[trigger] occurrences(s, k) <= occurrences(s, majority(s)),
{
    let distinct = first_seen(s);
    assert(s.contains(s[0]));
    lemma_first_seen_contains(s, s[0]);
    let found = lemma_top_below(s, distinct.len() as int);
    assert(is_top(s, found));
    let best = choose|best: int| is_top(s, best);
    assert(is_top(s, best) && majority(s) == distinct[best]);
    assert(distinct.contains(distinct[best]));
    lemma_first_seen_contains(s, distinct[best]);
    assert forall|k: K| #[trigger] occurrences(s, k) <= occurrences(s, majority(s)) by {
        lemma_occurrences_contains(s, k);
        lemma_first_seen_contains(s, k);
        if s.contains(k) {
            let j = choose|j: int| 0 <= j < distinct.len() && distinct[j] == k;
            assert(occurrences(s, distinct[j]) <= occurrences(s, distinct[best]));
        }
    }
}

/// Where every element of `s` is `k`, and there is one, `k` is the one
/// distinct element and the majority.
pub proof fn lemma_majority_of_one<K>(s: Seq<K>, k: K)
    requires
        s.len() > 0,
        forall|i: int| 0 <= i < s.len() ==> s[i] == k,
    ensures
        first_seen(s) == seq![k],
        majority(s) == k,
{
    let distinct = first_seen(s);
    lemma_first_seen_no_duplicates(s);
    assert(s.contains(s[0]));
    lemma_first_seen_contains(s, k);
    assert forall|j: int| 0 <= j < distinct.len() implies distinct[j] == k by {
        assert(distinct.contains(distinct[j]));
        lemma_first_seen_contains(s, distinct[j]);
    }
    if distinct.len() > 1 {
        assert(distinct[0] == distinct[1]);
    }
    assert(is_top(s, 0));
    assert(distinct =~= seq![k]);
}

} // verus!
