//! Discretization of a numeric attribute into class-homogeneous intervals.

use crate::iter::{first_seen, frequency_count, keys, occurrences, Label};
use ord_subset::OrdSubsetSliceExt;
use vstd::prelude::*;
use vstd::string::StringExecFns;

verus! {

/// A numeric attribute value. `rank` places the value among all numbers: one
/// number is smaller than another exactly when its rank is smaller. `text` is
/// the way the number is written in an interval's description. A value that
/// was read but is no number has a rank above every number.
#[derive(Debug, PartialEq, Eq)]
pub struct Number {
    pub rank: i64,
    pub text: String,
}

impl Clone for Number {
    fn clone(&self) -> (copy: Self)
        ensures
            copy == *self,
    {
        Number { rank: self.rank, text: self.text.clone() }
    }
}

/// The rank of what has the given bits in the binary format of single
/// precision: a sign bit above 31 bits of magnitude. Numbers are ordered as
/// their magnitudes are, with the sign taken into account, and the two zeros
/// are one number. Magnitudes above that of infinity stand for no number;
/// they share one rank above that of every number, which is where the sort of
/// the samples puts them.
pub open spec fn rank_of_bits(bits: u32) -> int {
    let magnitude = if bits >= 0x8000_0000 {
        bits - 0x8000_0000
    } else {
        bits as int
    };
    if magnitude > 0x7f80_0000 {
        0x7f80_0001
    } else if bits >= 0x8000_0000 {
        -magnitude
    } else {
        magnitude
    }
}

/// Whether the bits stand for a number.
pub open spec fn is_number(bits: u32) -> bool {
    bits <= 0x7f80_0000 || 0x8000_0000 <= bits <= 0xff80_0000
}

/// Ranks order the bit patterns as the numbers are ordered: patterns without
/// the sign bit by their magnitude, patterns with it against their magnitude,
/// and a pattern with the sign bit before one without, but for the two zeros,
/// which have one rank. What is no number comes behind every number.
pub proof fn lemma_rank_of_bits_orders(a: u32, b: u32)
    ensures
        is_number(a) && is_number(b) && a < 0x8000_0000 && b < 0x8000_0000 ==> (rank_of_bits(a)
            < rank_of_bits(b) <==> a < b),
        is_number(a) && is_number(b) && a >= 0x8000_0000 && b >= 0x8000_0000 ==> (rank_of_bits(a)
            < rank_of_bits(b) <==> a > b),
        is_number(a) && is_number(b) && a >= 0x8000_0000 && b < 0x8000_0000 ==> rank_of_bits(a)
            <= rank_of_bits(b),
        is_number(a) && is_number(b) && a >= 0x8000_0000 && b < 0x8000_0000 ==> (rank_of_bits(a)
            == rank_of_bits(b) <==> a == 0x8000_0000 && b == 0),
        is_number(a) && !is_number(b) ==> rank_of_bits(a) < rank_of_bits(b),
        !is_number(a) && !is_number(b) ==> rank_of_bits(a) == rank_of_bits(b),
{
}

impl Number {
    /// What has the given bits in the binary format of single precision,
    /// written as `text`.
    pub fn from_bits(bits: u32, text: String) -> (number: Number)
        ensures
            number.rank == rank_of_bits(bits),
            number.text == text,
    {
        let negative = bits >= 0x8000_0000;
        let magnitude: u32 = if negative {
            bits - 0x8000_0000
        } else {
            bits
        };
        if magnitude > 0x7f80_0000 {
            Number { rank: 0x7f80_0001, text }
        } else if negative {
            Number { rank: -(magnitude as i64), text }
        } else {
            Number { rank: magnitude as i64, text }
        }
    }
}

/// One sample of a numeric attribute: its value, the class of the example,
/// and the place that the sample had before the samples were sorted.
#[derive(Debug, PartialEq, Eq)]
pub struct Sample {
    pub value: Number,
    pub class: String,
    pub row: usize,
}

impl Clone for Sample {
    fn clone(&self) -> (copy: Self)
        ensures
            copy == *self,
    {
        Sample { value: self.value.clone(), class: self.class.clone(), row: self.row }
    }
}

/// A set of numbers with the class that most of its samples belong to.
#[derive(Debug, PartialEq, Eq)]
pub enum Interval {
    /// The numbers smaller than `below`.
    Lower { below: Number, class: String },
    /// The numbers from `from` on that are smaller than `below`.
    Range { from: Number, below: Number, class: String },
    /// The numbers from `from` on.
    Upper { from: Number, class: String },
    /// All numbers.
    Infinite { class: String },
}

impl Clone for Interval {
    fn clone(&self) -> (copy: Self)
        ensures
            copy == *self,
    {
        match self {
            Interval::Lower { below, class } => Interval::Lower {
                below: below.clone(),
                class: class.clone(),
            },
            Interval::Range { from, below, class } => Interval::Range {
                from: from.clone(),
                below: below.clone(),
                class: class.clone(),
            },
            Interval::Upper { from, class } => Interval::Upper {
                from: from.clone(),
                class: class.clone(),
            },
            Interval::Infinite { class } => Interval::Infinite { class: class.clone() },
        }
    }
}

impl Interval {
    /// The class of the interval.
    pub open spec fn class_of(self) -> String {
        match self {
            Interval::Lower { class, .. } => class,
            Interval::Range { class, .. } => class,
            Interval::Upper { class, .. } => class,
            Interval::Infinite { class } => class,
        }
    }

    /// The rank at which the interval starts, if it is bounded from below.
    pub open spec fn start(self) -> Option<int> {
        match self {
            Interval::Lower { .. } => None,
            Interval::Range { from, .. } => Some(from.rank as int),
            Interval::Upper { from, .. } => Some(from.rank as int),
            Interval::Infinite { .. } => None,
        }
    }

    /// The rank before which the interval ends, if it is bounded from above.
    pub open spec fn end(self) -> Option<int> {
        match self {
            Interval::Lower { below, .. } => Some(below.rank as int),
            Interval::Range { below, .. } => Some(below.rank as int),
            Interval::Upper { .. } => None,
            Interval::Infinite { .. } => None,
        }
    }

    /// Whether the number of rank `rank` lies in the interval.
    pub open spec fn covers(self, rank: int) -> bool {
        &&& self.start() matches Some(from) ==> from <= rank
        &&& self.end() matches Some(below) ==> rank < below
    }

    /// Whether the interval can be joined with `later`, the interval that follows it.
    pub open spec fn joins(self, later: Interval) -> bool {
        (self is Lower || self is Range) && (later is Range || later is Upper)
    }

    /// The interval that spans `self` and `later`, with the class of `later`.
    pub open spec fn joined(self, later: Interval) -> Interval {
        match (self, later) {
            (Interval::Lower { .. }, Interval::Range { below, class, .. }) => Interval::Lower {
                below,
                class,
            },
            (Interval::Lower { .. }, Interval::Upper { class, .. }) => Interval::Infinite { class },
            (Interval::Range { from, .. }, Interval::Range { below, class, .. }) => Interval::Range {
                from,
                below,
                class,
            },
            (Interval::Range { from, .. }, Interval::Upper { class, .. }) => Interval::Upper {
                from,
                class,
            },
            _ => self,
        }
    }

    pub fn class(&self) -> (class: &String)
        ensures
            *class == self.class_of(),
    {
        match self {
            Interval::Lower { class, .. } => class,
            Interval::Range { class, .. } => class,
            Interval::Upper { class, .. } => class,
            Interval::Infinite { class } => class,
        }
    }

    /// Joins the interval with the one that follows it.
    pub fn merge(&self, later: &Self) -> (merged: Self)
        requires
            self.joins(*later),
        ensures
            merged == self.joined(*later),
    {
        match self {
            Interval::Lower { .. } => match later {
                Interval::Range { below, class, .. } => Interval::Lower {
                    below: below.clone(),
                    class: class.clone(),
                },
                Interval::Upper { class, .. } => Interval::Infinite { class: class.clone() },
                _ => self.clone(),
            },
            Interval::Range { from, .. } => match later {
                Interval::Range { below, class, .. } => Interval::Range {
                    from: from.clone(),
                    below: below.clone(),
                    class: class.clone(),
                },
                Interval::Upper { class, .. } => Interval::Upper {
                    from: from.clone(),
                    class: class.clone(),
                },
                _ => self.clone(),
            },
            _ => self.clone(),
        }
    }
}

/// `s` with `x` put behind every sample whose rank is not greater than that of
/// `x`, where `s` is in ascending order.
pub open spec fn inserted(s: Seq<Sample>, x: Sample) -> Seq<Sample>
    decreases s.len(),
{
    if s.len() == 0 || s.last().value.rank <= x.value.rank {
        s.push(x)
    } else {
        inserted(s.drop_last(), x).push(s.last())
    }
}

/// The samples of `s` in ascending order of rank; samples of equal rank keep
/// the order that they have in `s`.
pub open spec fn stable_sorted(s: Seq<Sample>) -> Seq<Sample>
    decreases s.len(),
{
    if s.len() == 0 {
        s
    } else {
        inserted(stable_sorted(s.drop_last()), s.last())
    }
}

/// No sample is followed by one of smaller rank.
pub open spec fn ascending(s: Seq<Sample>) -> bool {
    forall|i: int, j: int| 0 <= i < j < s.len() ==> s[i].value.rank <= s[j].value.rank
}

proof fn lemma_inserted(s: Seq<Sample>, x: Sample, bound: int)
    requires
        ascending(s),
        x.value.rank <= bound,
        forall|i: int| 0 <= i < s.len() ==> s[i].value.rank <= bound,
    ensures
        ascending(inserted(s, x)),
        inserted(s, x).len() == s.len() + 1,
        forall|i: int| 0 <= i < inserted(s, x).len() ==> inserted(s, x)[i].value.rank <= bound,
    decreases s.len(),
{
    if !(s.len() == 0 || s.last().value.rank <= x.value.rank) {
        let front = s.drop_last();
        lemma_inserted(front, x, bound);
        lemma_inserted(front, x, s.last().value.rank as int);
    }
}

/// `stable_sorted(s)` is as long as `s` and in ascending order.
pub proof fn lemma_stable_sorted(s: Seq<Sample>)
    ensures
        stable_sorted(s).len() == s.len(),
        ascending(stable_sorted(s)),
    decreases s.len(),
{
    if s.len() > 0 {
        lemma_stable_sorted(s.drop_last());
        lemma_inserted(stable_sorted(s.drop_last()), s.last(), i64::MAX as int);
    }
}

/// `stable_sorted(s)` holds the samples of `s`, each as often as `s` does.
pub proof fn lemma_stable_sorted_permutes(s: Seq<Sample>)
    ensures
        stable_sorted(s).to_multiset() == s.to_multiset(),
    decreases s.len(),
{
    broadcast use vstd::seq_lib::group_to_multiset_ensures;

    if s.len() > 0 {
        let front = s.drop_last();
        lemma_stable_sorted_permutes(front);
        lemma_inserted_permutes(stable_sorted(front), s.last());
        assert(front.push(s.last()) =~= s);
    }
}

proof fn lemma_inserted_permutes(s: Seq<Sample>, x: Sample)
    ensures
        inserted(s, x).to_multiset() == s.to_multiset().insert(x),
    decreases s.len(),
{
    broadcast use vstd::seq_lib::group_to_multiset_ensures;

    if !(s.len() == 0 || s.last().value.rank <= x.value.rank) {
        let front = s.drop_last();
        lemma_inserted_permutes(front, x);
        assert(front.push(s.last()) =~= s);
        assert(front.to_multiset().insert(x).insert(s.last()) =~= front.to_multiset().insert(
            s.last(),
        ).insert(x));
    }
}

/// The samples of `s` that have the rank `rank`, in their order.
pub open spec fn of_rank(s: Seq<Sample>, rank: i64) -> Seq<Sample>
    decreases s.len(),
{
    if s.len() == 0 {
        s
    } else if s.last().value.rank == rank {
        of_rank(s.drop_last(), rank).push(s.last())
    } else {
        of_rank(s.drop_last(), rank)
    }
}

proof fn lemma_inserted_of_rank(s: Seq<Sample>, x: Sample, rank: i64)
    ensures
        of_rank(inserted(s, x), rank) == if x.value.rank == rank {
            of_rank(s, rank).push(x)
        } else {
            of_rank(s, rank)
        },
    decreases s.len(),
{
    if s.len() == 0 || s.last().value.rank <= x.value.rank {
        assert(s.push(x).drop_last() =~= s);
    } else {
        let front = s.drop_last();
        lemma_inserted_of_rank(front, x, rank);
        assert(inserted(front, x).push(s.last()).drop_last() =~= inserted(front, x));
    }
}

/// `stable_sorted(s)` holds the samples of any one rank in the order that
/// they have in `s`.
pub proof fn lemma_stable_sorted_keeps_order(s: Seq<Sample>, rank: i64)
    ensures
        of_rank(stable_sorted(s), rank) == of_rank(s, rank),
    decreases s.len(),
{
    if s.len() > 0 {
        lemma_stable_sorted_keeps_order(s.drop_last(), rank);
        lemma_inserted_of_rank(stable_sorted(s.drop_last()), s.last(), rank);
    }
}

/// `ord_subset_sort_by_key` of the crate ord_subset, with the rank as the key.
/// Ranks are integers, so every key lies inside the order and the call is the
/// stable sort of the standard library: the samples come out in ascending
/// order of rank, and samples of equal rank keep their order.
#[verifier::external_body]
fn sort_by_rank(samples: &mut Vec<Sample>)
    ensures
        final(samples)@ == stable_sorted(old(samples)@),
{
    samples.ord_subset_sort_by_key(|sample| sample.value.rank);
}

/// The positions below `n` at which the class of `data` differs from the class
/// one position earlier, in ascending order.
pub open spec fn class_changes(data: Seq<Sample>, n: int) -> Seq<usize>
    decreases n,
{
    if n <= 1 {
        Seq::empty()
    } else if data[n - 1].class@ != data[n - 2].class@ {
        class_changes(data, n - 1).push((n - 1) as usize)
    } else {
        class_changes(data, n - 1)
    }
}

/// Whether `splits` are positions of a sequence of `n` samples that leave no
/// segment empty: each lies after the first sample, and each is greater than
/// the one before it.
pub open spec fn valid_splits(splits: Seq<usize>, n: int) -> bool {
    &&& forall|i: int| 0 <= i < splits.len() ==> 0 < #[trigger] splits[i] < n
    &&& forall|i: int, j: int| 0 <= i < j < splits.len() ==> splits[i] < splits[j]
}

/// The class changes below `n` are valid splits of `n` samples.
pub proof fn lemma_class_changes_valid(data: Seq<Sample>, n: int)
    requires
        n <= data.len() <= usize::MAX,
    ensures
        valid_splits(class_changes(data, n), n),
    decreases n,
{
    if n > 1 {
        lemma_class_changes_valid(data, n - 1);
    }
}

/// A position is among the class changes below `n` exactly if it lies below
/// `n` and the class there differs from the class one position earlier.
pub proof fn lemma_class_changes_holds(data: Seq<Sample>, n: int, i: usize)
    requires
        n <= data.len() <= usize::MAX,
    ensures
        class_changes(data, n).contains(i) <==> 0 < i < n && data[i as int].class@ != data[i
            - 1].class@,
    decreases n,
{
    if n > 1 {
        lemma_class_changes_holds(data, n - 1, i);
        let before = class_changes(data, n - 1);
        if data[n - 1].class@ != data[n - 2].class@ {
            let now = before.push((n - 1) as usize);
            if before.contains(i) {
                let k = choose|k: int| 0 <= k < before.len() && before[k] == i;
                assert(now[k] == i);
            }
            if i == n - 1 {
                assert(now[before.len() as int] == i);
            }
            if now.contains(i) {
                let k = choose|k: int| 0 <= k < now.len() && now[k] == i;
                if k < before.len() {
                    assert(before[k] == i);
                }
            }
        }
    }
}

/// The positions at which the class of `data` changes.
pub fn split_points(data: &Vec<Sample>) -> (splits: Vec<usize>)
    ensures
        splits@ == class_changes(data@, data.len() as int),
{
    let mut splits: Vec<usize> = Vec::new();
    let mut i: usize = 1;
    while i < data.len()
        invariant
            1 <= i,
            data.len() >= 1 ==> i <= data.len(),
            splits@ == class_changes(data@, if data.len() >= 1 { i as int } else { 0 }),
        decreases data.len() - i,
    {
        if data[i].class != data[i - 1].class {
            splits.push(i);
        }
        i = i + 1;
    }
    splits
}

/// The classes of the samples from `start` up to, not including, `until`.
pub open spec fn segment_classes(data: Seq<Sample>, start: int, until: int) -> Seq<Seq<char>> {
    Seq::new((until - start) as nat, |i: int| data[start + i].class@)
}

/// Whether no class occurs more than `small` times among the samples from
/// `start` up to `until`.
pub open spec fn no_dominant(data: Seq<Sample>, start: int, until: int, small: usize) -> bool {
    forall|class: Seq<char>| occurrences(segment_classes(data, start, until), class) <= small
}

fn classes_between(data: &Vec<Sample>, start: usize, until: usize) -> (classes: Vec<&String>)
    requires
        start <= until <= data.len(),
    ensures
        keys(classes@) == segment_classes(data@, start as int, until as int),
        classes.len() == until - start,
        forall|i: int| 0 <= i < classes.len() ==> *classes[i] == data[start + i].class,
{
    let mut classes: Vec<&String> = Vec::new();
    let mut i: usize = start;
    while i < until
        invariant
            start <= i <= until <= data.len(),
            classes.len() == i - start,
            forall|j: int| 0 <= j < classes.len() ==> *classes[j] == data[start + j].class,
        decreases until - i,
    {
        classes.push(&data[i].class);
        i = i + 1;
    }
    assert(keys(classes@) =~= segment_classes(data@, start as int, until as int));
    classes
}

/// Whether the samples from `start` up to `until` hold no class more than
/// `small` times.
pub fn no_dominant_class(start: usize, until: usize, small: usize, data: &Vec<Sample>) -> (none: bool)
    requires
        start <= until <= data.len(),
    ensures
        none == no_dominant(data@, start as int, until as int, small),
{
    let classes = classes_between(data, start, until);
    let counts = frequency_count(classes.as_slice());
    let ghost segment = segment_classes(data@, start as int, until as int);
    let mut i: usize = 0;
    while i < counts.len()
        invariant
            i <= counts.len(),
            segment == segment_classes(data@, start as int, until as int),
            forall|j: int|
                0 <= j < counts.len() ==> counts[j].1 == occurrences(
                    segment,
                    #[trigger] counts[j].0.key(),
                ),
            forall|j: int| 0 <= j < i ==> counts[j].1 <= small,
        decreases counts.len() - i,
    {
        if counts[i].1 > small {
            proof {
                let class = counts[i as int].0.key();
                assert(occurrences(segment, class) > small);
            }
            return false;
        }
        i = i + 1;
    }
    proof {
        assert forall|class: Seq<char>| occurrences(segment, class) <= small by {
            crate::iter::lemma_occurrences_contains(segment, class);
            crate::iter::lemma_first_seen_contains(segment, class);
            if segment.contains(class) {
                let j = choose|j: int|
                    0 <= j < first_seen(segment).len() && first_seen(segment)[j] == class;
                assert(crate::iter::counted_keys(counts@)[j] == counts[j].0.key());
            }
        }
    }
    true
}

/// The splits that a pass from left to right keeps. A split is dropped where
/// the samples from the last kept split (at first from `start`) up to it hold
/// no class more than `small` times; a kept split starts the next segment.
pub open spec fn trimmed(splits: Seq<usize>, start: usize, data: Seq<Sample>, small: usize) -> Seq<
    usize,
>
    decreases splits.len(),
{
    if splits.len() == 0 {
        Seq::empty()
    } else if no_dominant(data, start as int, splits.first() as int, small) {
        trimmed(splits.drop_first(), start, data, small)
    } else {
        seq![splits.first()] + trimmed(splits.drop_first(), splits.first(), data, small)
    }
}

/// What is kept of valid splits that all lie after `start` are valid splits
/// that lie after `start`.
pub proof fn lemma_trimmed_valid(splits: Seq<usize>, start: usize, data: Seq<Sample>, small: usize)
    requires
        valid_splits(splits, data.len() as int),
        forall|i: int| 0 <= i < splits.len() ==> start < splits[i],
    ensures
        valid_splits(trimmed(splits, start, data, small), data.len() as int),
        forall|i: int|
            0 <= i < trimmed(splits, start, data, small).len() ==> start < trimmed(
                splits,
                start,
                data,
                small,
            )[i],
    decreases splits.len(),
{
    if splits.len() > 0 {
        let tail = splits.drop_first();
        assert forall|i: int| 0 <= i < tail.len() implies splits.first() < tail[i] by {
            assert(tail[i] == splits[i + 1]);
        }
        assert forall|i: int| 0 <= i < tail.len() implies 0 < #[trigger] tail[i] < data.len() by {
            assert(tail[i] == splits[i + 1]);
        }
        assert forall|i: int, j: int| 0 <= i < j < tail.len() implies tail[i] < tail[j] by {
            assert(tail[i] == splits[i + 1]);
            assert(tail[j] == splits[j + 1]);
        }
        if no_dominant(data, start as int, splits.first() as int, small) {
            lemma_trimmed_valid(tail, start, data, small);
        } else {
            lemma_trimmed_valid(tail, splits.first(), data, small);
        }
    }
}

/// Each split that is kept closes a segment in which some class occurs more
/// than `small` times: the samples from the split kept before it, or from
/// `start`, up to it.
pub proof fn lemma_trimmed_segments(
    splits: Seq<usize>,
    start: usize,
    data: Seq<Sample>,
    small: usize,
    k: int,
)
    requires
        0 <= k < trimmed(splits, start, data, small).len(),
    ensures
        !no_dominant(
            data,
            if k == 0 {
                start as int
            } else {
                trimmed(splits, start, data, small)[k - 1] as int
            },
            trimmed(splits, start, data, small)[k] as int,
            small,
        ),
    decreases splits.len(),
{
    let tail = splits.drop_first();
    if no_dominant(data, start as int, splits.first() as int, small) {
        lemma_trimmed_segments(tail, start, data, small, k);
    } else if k > 0 {
        lemma_trimmed_segments(tail, splits.first(), data, small, k - 1);
    }
}

/// Whether `splits` are positions of a sequence of `n` samples in ascending
/// order.
pub open spec fn ascending_splits(splits: Seq<usize>, n: int) -> bool {
    &&& forall|i: int| 0 <= i < splits.len() ==> #[trigger] splits[i] <= n
    &&& forall|i: int, j: int| 0 <= i < j < splits.len() ==> splits[i] <= splits[j]
}

/// Removes the splits that would close a segment in which no class occurs more
/// than `small` times.
pub fn trim_splits(splits: Vec<usize>, small: usize, data: &Vec<Sample>) -> (kept: Vec<usize>)
    requires
        ascending_splits(splits@, data.len() as int),
    ensures
        kept@ == trimmed(splits@, 0, data@, small),
        valid_splits(splits@, data.len() as int) ==> valid_splits(kept@, data.len() as int),
{
    let mut kept: Vec<usize> = Vec::new();
    let mut start: usize = 0;
    let mut i: usize = 0;
    proof {
        assert(splits@.skip(0) =~= splits@);
    }
    while i < splits.len()
        invariant
            i <= splits.len(),
            ascending_splits(splits@, data.len() as int),
            forall|j: int| i <= j < splits.len() ==> start <= splits[j],
            kept@ + trimmed(splits@.skip(i as int), start, data@, small) == trimmed(
                splits@,
                0,
                data@,
                small,
            ),
        decreases splits.len() - i,
    {
        let head = splits[i];
        let ghost rest = splits@.skip(i as int);
        proof {
            assert(rest.first() == head);
            assert(rest.drop_first() =~= splits@.skip(i + 1));
        }
        if !no_dominant_class(start, head, small, data) {
            proof {
                assert(kept@.push(head) + trimmed(splits@.skip(i + 1), head, data@, small) =~= kept@
                    + trimmed(rest, start, data@, small));
            }
            kept.push(head);
            start = head;
        }
        i = i + 1;
    }
    proof {
        assert(splits@.skip(i as int) =~= Seq::<usize>::empty());
        assert(kept@ + Seq::<usize>::empty() =~= kept@);
        if valid_splits(splits@, data.len() as int) {
            lemma_trimmed_valid(splits@, 0, data@, small);
        }
    }
    kept
}

/// Whether the sample at `i` goes before the sample at `j` when the class of
/// the samples from `start` up to `until` is decided: its class has more
/// samples there or, with equally many, it has the smaller row or, with one
/// row, the earlier place.
pub open spec fn outranks(data: Seq<Sample>, start: int, until: int, i: int, j: int) -> bool {
    let classes = segment_classes(data, start, until);
    let mine = occurrences(classes, data[i].class@);
    let theirs = occurrences(classes, data[j].class@);
    mine > theirs || (mine == theirs && (data[i].row < data[j].row || (data[i].row == data[j].row
        && i < j)))
}

/// Whether the sample at `i` goes before every other sample from `start` up
/// to `until`.
pub open spec fn decides(data: Seq<Sample>, start: int, until: int, i: int) -> bool {
    &&& start <= i < until
    &&& forall|j: int| start <= j < until && j != i ==> outranks(data, start, until, i, j)
}

/// The class that most of the samples from `start` up to `until` belong to.
/// Of several classes with equally many samples, it is the class that came
/// first before the samples were sorted: the class of the sample with the
/// smallest row.
pub open spec fn segment_class(data: Seq<Sample>, start: int, until: int) -> String {
    data[choose|i: int| decides(data, start, until, i)].class
}

proof fn lemma_decider_below(data: Seq<Sample>, start: int, until: int, p: int) -> (best: int)
    requires
        0 <= start < p <= until <= data.len(),
    ensures
        start <= best < p,
        forall|j: int| start <= j < p && j != best ==> outranks(data, start, until, best, j),
    decreases p - start,
{
    if p == start + 1 {
        start
    } else {
        let before = lemma_decider_below(data, start, until, p - 1);
        let last = p - 1;
        if outranks(data, start, until, last, before) {
            assert forall|j: int| start <= j < p && j != last implies #[trigger] outranks(
                data,
                start,
                until,
                last,
                j,
            ) by {
                if j != before {
                    assert(outranks(data, start, until, before, j));
                }
            }
            last
        } else {
            before
        }
    }
}

/// Samples, of which there is one, have a class: that of one sample which
/// goes before every other. The class occurs among the samples, and no class
/// occurs more often there.
pub proof fn lemma_segment_class(data: Seq<Sample>, start: int, until: int)
    requires
        0 <= start < until <= data.len(),
    ensures
        exists|i: int|
            decides(data, start, until, i) && segment_class(data, start, until) == data[i].class,
        segment_classes(data, start, until).contains(segment_class(data, start, until)@),
        forall|class: Seq<char>| #[trigger]
            occurrences(segment_classes(data, start, until), class) <= occurrences(
                segment_classes(data, start, until),
                segment_class(data, start, until)@,
            ),
{
    let segment = segment_classes(data, start, until);
    let found = lemma_decider_below(data, start, until, until);
    assert(decides(data, start, until, found));
    let chosen = choose|i: int| decides(data, start, until, i);
    assert(decides(data, start, until, chosen) && segment_class(data, start, until)
        == data[chosen].class);
    assert(segment[chosen - start] == data[chosen].class@);
    assert forall|class: Seq<char>| #[trigger]
        occurrences(segment, class) <= occurrences(
            segment,
            segment_class(data, start, until)@,
        ) by {
        crate::iter::lemma_occurrences_contains(segment, class);
        if segment.contains(class) {
            let k = choose|k: int| 0 <= k < segment.len() && segment[k] == class;
            assert(data[start + k].class@ == class);
            if start + k != chosen {
                assert(outranks(data, start, until, chosen, start + k));
            }
        }
    }
}

fn count_in(counts: &Vec<(&&String, usize)>, class: &String, Ghost(classes): Ghost<
    Seq<Seq<char>>,
>) -> (count: usize)
    requires
        classes.contains(class@),
        crate::iter::counted_keys(counts@) == first_seen(classes),
        forall|i: int|
            0 <= i < counts.len() ==> counts[i].1 == occurrences(
                classes,
                #[trigger] counts[i].0.key(),
            ),
    ensures
        count == occurrences(classes, class@),
{
    proof {
        crate::iter::lemma_first_seen_contains(classes, class@);
        assert(crate::iter::counted_keys(counts@).len() == counts.len());
    }
    let mut i: usize = 0;
    while i < counts.len()
        invariant
            i <= counts.len(),
            crate::iter::counted_keys(counts@) == first_seen(classes),
            first_seen(classes).contains(class@),
            forall|j: int|
                0 <= j < counts.len() ==> counts[j].1 == occurrences(
                    classes,
                    #[trigger] counts[j].0.key(),
                ),
            forall|j: int| 0 <= j < i ==> counts[j].0.key() != class@,
        decreases counts.len() - i,
    {
        if **counts[i].0 == *class {
            assert(counts[i as int].0.key() == class@);
            return counts[i].1;
        }
        i = i + 1;
    }
    proof {
        let j = choose|j: int|
            0 <= j < first_seen(classes).len() && first_seen(classes)[j] == class@;
        assert(crate::iter::counted_keys(counts@)[j] == counts[j].0.key());
    }
    0
}

fn most_frequent_class(data: &Vec<Sample>, start: usize, until: usize) -> (class: String)
    requires
        start < until <= data.len(),
    ensures
        class == segment_class(data@, start as int, until as int),
{
    let classes = classes_between(data, start, until);
    let counts = frequency_count(classes.as_slice());
    let ghost segment = segment_classes(data@, start as int, until as int);
    proof {
        assert forall|p: int| start <= p < until implies segment.contains(
            #[trigger] data[p].class@,
        ) by {
            assert(segment[p - start] == data[p].class@);
        }
    }
    let mut best: usize = start;
    let mut best_count: usize = count_in(&counts, &data[start].class, Ghost(segment));
    let mut p: usize = start + 1;
    while p < until
        invariant
            start <= best < p <= until <= data.len(),
            segment == segment_classes(data@, start as int, until as int),
            crate::iter::counted_keys(counts@) == first_seen(segment),
            forall|i: int|
                0 <= i < counts.len() ==> counts[i].1 == occurrences(
                    segment,
                    #[trigger] counts[i].0.key(),
                ),
            forall|q: int| start <= q < until ==> segment.contains(#[trigger] data[q].class@),
            best_count == occurrences(segment, data[best as int].class@),
            forall|j: int|
                start <= j < p && j != best ==> outranks(
                    data@,
                    start as int,
                    until as int,
                    best as int,
                    j,
                ),
        decreases until - p,
    {
        let count = count_in(&counts, &data[p].class, Ghost(segment));
        if count > best_count || (count == best_count && data[p].row < data[best].row) {
            proof {
                assert forall|j: int| start <= j < p + 1 && j != p implies outranks(
                    data@,
                    start as int,
                    until as int,
                    p as int,
                    j,
                ) by {
                    if j != best {
                        assert(outranks(data@, start as int, until as int, best as int, j));
                    }
                }
            }
            best = p;
            best_count = count;
        }
        p = p + 1;
    }
    proof {
        assert(decides(data@, start as int, until as int, best as int));
        let chosen = choose|i: int| decides(data@, start as int, until as int, i);
        if chosen != best {
            assert(outranks(data@, start as int, until as int, best as int, chosen));
            assert(outranks(data@, start as int, until as int, chosen, best as int));
        }
    }
    data[best].class.clone()
}

/// The intervals that the splits cut the samples into: numbers below the value
/// at the first split, numbers between the values at two neighbouring splits,
/// and numbers from the value at the last split on. With no split, a single
/// interval holds all numbers. Each interval has the class of most of the
/// samples between its splits.
pub open spec fn intervals_of(splits: Seq<usize>, data: Seq<Sample>) -> Seq<Interval> {
    let k = splits.len() as int;
    let n = data.len() as int;
    if k == 0 {
        seq![Interval::Infinite { class: segment_class(data, 0, n) }]
    } else {
        Seq::new(
            (k + 1) as nat,
            |i: int|
                if i == 0 {
                    Interval::Lower {
                        below: data[splits[0] as int].value,
                        class: segment_class(data, 0, splits[0] as int),
                    }
                } else if i == k {
                    Interval::Upper {
                        from: data[splits[k - 1] as int].value,
                        class: segment_class(data, splits[k - 1] as int, n),
                    }
                } else {
                    Interval::Range {
                        from: data[splits[i - 1] as int].value,
                        below: data[splits[i] as int].value,
                        class: segment_class(data, splits[i - 1] as int, splits[i] as int),
                    }
                },
        )
    }
}

impl Interval {
    /// Builds the intervals that `splits` cut the samples of `data` into.
    pub fn from_splits(splits: Vec<usize>, data: &Vec<Sample>) -> (intervals: Vec<Interval>)
        requires
            data.len() > 0,
            valid_splits(splits@, data.len() as int),
        ensures
            intervals@ == intervals_of(splits@, data@),
    {
        let k = splits.len();
        let mut intervals: Vec<Interval> = Vec::new();
        if k == 0 {
            intervals.push(Interval::Infinite { class: most_frequent_class(data, 0, data.len()) });
            assert(intervals@ =~= intervals_of(splits@, data@));
            return intervals;
        }
        intervals.push(
            Interval::Lower {
                below: data[splits[0]].value.clone(),
                class: most_frequent_class(data, 0, splits[0]),
            },
        );
        let mut i: usize = 1;
        while i < k
            invariant
                1 <= i <= k,
                k == splits.len(),
                data.len() > 0,
                valid_splits(splits@, data.len() as int),
                intervals.len() == i,
                forall|j: int| 0 <= j < i ==> intervals[j] == intervals_of(splits@, data@)[j],
            decreases k - i,
        {
            intervals.push(
                Interval::Range {
                    from: data[splits[i - 1]].value.clone(),
                    below: data[splits[i]].value.clone(),
                    class: most_frequent_class(data, splits[i - 1], splits[i]),
                },
            );
            i = i + 1;
        }
        intervals.push(
            Interval::Upper {
                from: data[splits[k - 1]].value.clone(),
                class: most_frequent_class(data, splits[k - 1], data.len()),
            },
        );
        assert(intervals@ =~= intervals_of(splits@, data@));
        intervals
    }
}

/// Whether `later` starts where `earlier` ends.
pub open spec fn meets(earlier: Interval, later: Interval) -> bool {
    earlier.end() is Some && earlier.end() == later.start()
}

/// Whether the intervals follow each other from the left: the first has no
/// lower bound, each starts where the one before it ends, and none ends before
/// it starts.
pub open spec fn is_chain(intervals: Seq<Interval>) -> bool {
    &&& intervals.len() > 0
    &&& intervals.first().start() is None
    &&& forall|i: int, j: int|
        0 <= i && j == i + 1 && j < intervals.len() ==> meets(
            #[trigger] intervals[i],
            #[trigger] intervals[j],
        )
    &&& forall|i: int|
        0 <= i < intervals.len() ==> (#[trigger] intervals[i].start() matches Some(from)
            ==> intervals[i].end() matches Some(below) ==> from <= below)
}

/// Whether the intervals divide the numbers among them: they follow each other
/// from the left, and the last has no upper bound.
pub open spec fn is_partition(intervals: Seq<Interval>) -> bool {
    is_chain(intervals) && intervals.last().end() is None
}

/// Whether no interval has the class of the interval before it.
pub open spec fn distinct_neighbours(intervals: Seq<Interval>) -> bool {
    forall|i: int, j: int|
        0 <= i && j == i + 1 && j < intervals.len() ==> (#[trigger] intervals[i]).class_of()@ != (
        #[trigger] intervals[j]).class_of()@
}

/// The intervals that are left when every interval that has the class of the
/// interval before it is joined with that interval, from left to right.
pub open spec fn merged_all(intervals: Seq<Interval>) -> Seq<Interval>
    decreases intervals.len(),
{
    if intervals.len() == 0 {
        intervals
    } else {
        let before = merged_all(intervals.drop_last());
        let next = intervals.last();
        if before.len() > 0 && before.last().class_of()@ == next.class_of()@ {
            before.drop_last().push(before.last().joined(next))
        } else {
            before.push(next)
        }
    }
}

/// The intervals cut at valid splits of samples in ascending order divide the
/// numbers among them.
pub proof fn lemma_intervals_of_partition(splits: Seq<usize>, data: Seq<Sample>)
    requires
        data.len() > 0,
        valid_splits(splits, data.len() as int),
        ascending(data),
    ensures
        is_partition(intervals_of(splits, data)),
        intervals_of(splits, data).len() == splits.len() + 1,
{
}

/// Joining neighbours of one class keeps a chain a chain with the same end,
/// and leaves no interval with the class of the one before it.
pub proof fn lemma_merged_all(intervals: Seq<Interval>)
    ensures
        distinct_neighbours(merged_all(intervals)),
        merged_all(intervals).len() <= intervals.len(),
        intervals.len() > 0 ==> merged_all(intervals).len() > 0 && merged_all(
            intervals,
        ).last().class_of()@ == intervals.last().class_of()@,
        is_chain(intervals) ==> is_chain(merged_all(intervals)) && merged_all(
            intervals,
        ).last().end() == intervals.last().end(),
    decreases intervals.len(),
{
    if intervals.len() > 0 {
        let front = intervals.drop_last();
        let before = merged_all(front);
        let next = intervals.last();
        lemma_merged_all(front);
        if is_chain(intervals) && front.len() > 0 {
            assert(is_chain(front)) by {
                assert forall|i: int, j: int|
                    0 <= i && j == i + 1 && j < front.len() implies meets(
                    #[trigger] front[i],
                    #[trigger] front[j],
                ) by {
                    assert(meets(intervals[i], intervals[j]));
                }
                assert forall|i: int| 0 <= i < front.len() implies (
                #[trigger] front[i].start() matches Some(from) ==> front[i].end() matches Some(
                    below,
                ) ==> from <= below) by {
                    assert(front[i] == intervals[i]);
                }
            }
            assert(meets(intervals[front.len() - 1], intervals[front.len() as int]));
            assert(front.last() == intervals[front.len() - 1]);
        }
    }
}

/// Joining neighbours of one class a second time changes nothing.
pub proof fn lemma_merge_is_idempotent(intervals: Seq<Interval>)
    ensures
        merged_all(merged_all(intervals)) == merged_all(intervals),
{
    lemma_merged_all(intervals);
    lemma_merged_all_fixed(merged_all(intervals));
}

/// Where no interval has the class of the one before it, nothing is joined.
pub proof fn lemma_merged_all_fixed(intervals: Seq<Interval>)
    requires
        distinct_neighbours(intervals),
    ensures
        merged_all(intervals) == intervals,
    decreases intervals.len(),
{
    if intervals.len() > 0 {
        let front = intervals.drop_last();
        assert(distinct_neighbours(front)) by {
            assert forall|i: int, j: int| 0 <= i && j == i + 1 && j < front.len() implies (
            #[trigger] front[i]).class_of()@ != (#[trigger] front[j]).class_of()@ by {
                assert(front[i] == intervals[i]);
                assert(front[j] == intervals[j]);
            }
        }
        lemma_merged_all_fixed(front);
        if front.len() > 0 {
            assert(front.last() == intervals[front.len() - 1]);
            assert(intervals.last() == intervals[front.len() as int]);
        }
        assert(front.push(intervals.last()) =~= intervals);
    }
}

/// Whether the intervals can be merged: wherever an interval has the class of
/// what the intervals before it were merged into, the two can be joined.
pub open spec fn can_merge(intervals: Seq<Interval>) -> bool
    decreases intervals.len(),
{
    if intervals.len() <= 1 {
        true
    } else {
        let before = merged_all(intervals.drop_last());
        &&& can_merge(intervals.drop_last())
        &&& before.last().class_of()@ == intervals.last().class_of()@ ==> before.last().joins(
            intervals.last(),
        )
    }
}

/// The intervals of a chain can be merged.
pub proof fn lemma_chain_can_merge(intervals: Seq<Interval>)
    requires
        is_chain(intervals),
    ensures
        can_merge(intervals),
    decreases intervals.len(),
{
    if intervals.len() > 1 {
        let front = intervals.drop_last();
        assert(front =~= intervals.take(intervals.len() - 1));
        lemma_take_chain(intervals, intervals.len() - 1);
        lemma_chain_can_merge(front);
        lemma_merged_all(front);
        assert(front.last() == intervals[intervals.len() - 2]);
        assert(meets(intervals[intervals.len() - 2], intervals[intervals.len() - 1]));
    }
}

proof fn lemma_can_merge_take(intervals: Seq<Interval>, n: int)
    requires
        can_merge(intervals),
        0 <= n <= intervals.len(),
    ensures
        can_merge(intervals.take(n)),
    decreases intervals.len() - n,
{
    if n < intervals.len() {
        if n + 1 < intervals.len() {
            lemma_can_merge_take(intervals, n + 1);
        } else {
            assert(intervals.take(n + 1) =~= intervals);
        }
        assert(intervals.take(n + 1).drop_last() =~= intervals.take(n));
    } else {
        assert(intervals.take(n) =~= intervals);
    }
}

impl Interval {
    /// Joins every interval that has the class of the interval before it with
    /// that interval, from left to right.
    pub fn merge_neighbours_with_same_class(intervals: &Vec<Interval>) -> (merged: Vec<Interval>)
        requires
            can_merge(intervals@),
        ensures
            merged@ == merged_all(intervals@),
            distinct_neighbours(merged@),
            is_chain(intervals@) ==> is_chain(merged@) && merged@.last().end()
                == intervals@.last().end(),
    {
        let mut merged: Vec<Interval> = Vec::new();
        let mut i: usize = 0;
        proof {
            assert(intervals@.take(0) =~= Seq::<Interval>::empty());
        }
        while i < intervals.len()
            invariant
                i <= intervals.len(),
                can_merge(intervals@),
                merged@ == merged_all(intervals@.take(i as int)),
            decreases intervals.len() - i,
        {
            let interval = &intervals[i];
            let ghost seen = intervals@.take(i as int);
            proof {
                assert(intervals@.take(i + 1).drop_last() =~= seen);
                assert(intervals@.take(i + 1).last() == *interval);
                lemma_can_merge_take(intervals@, i + 1);
                lemma_merged_all(seen);
            }
            let n = merged.len();
            if n > 0 && *merged[n - 1].class() == *interval.class() {
                let joined = merged[n - 1].merge(interval);
                let ghost before = merged@;
                merged.pop();
                merged.push(joined);
                assert(merged@ =~= before.drop_last().push(before.last().joined(*interval)));
            } else {
                merged.push(interval.clone());
            }
            i = i + 1;
        }
        proof {
            assert(intervals@.take(i as int) =~= intervals@);
            lemma_merged_all(intervals@);
        }
        merged
    }
}

proof fn lemma_take_chain(intervals: Seq<Interval>, n: int)
    requires
        is_chain(intervals),
        0 < n <= intervals.len(),
    ensures
        is_chain(intervals.take(n)),
{
    let front = intervals.take(n);
    assert forall|i: int, j: int| 0 <= i && j == i + 1 && j < front.len() implies meets(
        #[trigger] front[i],
        #[trigger] front[j],
    ) by {
        assert(meets(intervals[i], intervals[j]));
    }
    assert forall|i: int| 0 <= i < front.len() implies (#[trigger] front[i].start() matches Some(
        from,
    ) ==> front[i].end() matches Some(below) ==> from <= below) by {
        assert(front[i] == intervals[i]);
    }
}

/// The samples with their places in the sequence as their rows.
pub open spec fn numbered(samples: Seq<Sample>) -> Seq<Sample> {
    Seq::new(
        samples.len(),
        |i: int| Sample { value: samples[i].value, class: samples[i].class, row: i as usize },
    )
}

/// The intervals found for `samples`: the samples are put in ascending order,
/// split wherever the class changes, the splits are trimmed, and the intervals
/// cut at the splits that are left are joined where neighbours have one
/// class. Without samples there is no interval.
pub open spec fn discretized(samples: Seq<Sample>, small: usize) -> Seq<Interval> {
    if samples.len() == 0 {
        Seq::empty()
    } else {
        let sorted = stable_sorted(numbered(samples));
        let splits = trimmed(class_changes(sorted, sorted.len() as int), 0, sorted, small);
        merged_all(intervals_of(splits, sorted))
    }
}

/// Whatever the samples, if there is one, and whatever the threshold, the
/// intervals found divide the numbers among them, and no interval has the
/// class of the interval before it.
pub proof fn lemma_discretized_partition(samples: Seq<Sample>, small: usize)
    requires
        0 < samples.len() <= usize::MAX,
    ensures
        is_partition(discretized(samples, small)),
        distinct_neighbours(discretized(samples, small)),
{
    let sorted = stable_sorted(numbered(samples));
    lemma_stable_sorted(numbered(samples));
    let splits = class_changes(sorted, sorted.len() as int);
    lemma_class_changes_valid(sorted, sorted.len() as int);
    lemma_trimmed_valid(splits, 0, sorted, small);
    let kept = trimmed(splits, 0, sorted, small);
    lemma_intervals_of_partition(kept, sorted);
    lemma_merged_all(intervals_of(kept, sorted));
}

/// Whatever the samples, if there is one, and whatever the threshold, every
/// number lies in exactly one of the intervals found.
pub proof fn lemma_discretized_covers_once(samples: Seq<Sample>, small: usize, rank: int)
    requires
        0 < samples.len() <= usize::MAX,
    ensures
        0 <= covering(discretized(samples, small), rank) < discretized(samples, small).len(),
        forall|i: int|
            0 <= i < discretized(samples, small).len() ==> (discretized(samples, small)[i].covers(
                rank,
            ) <==> i == covering(discretized(samples, small), rank)),
{
    lemma_discretized_partition(samples, small);
    lemma_partition_covers_once(discretized(samples, small), rank);
}

/// Finds the intervals of a numeric attribute from its samples. A segment of
/// the sorted samples becomes an interval of its own only if one class occurs
/// in it more than `small` times.
pub fn quantize(samples: &Vec<Sample>, small: usize) -> (intervals: Vec<Interval>)
    ensures
        intervals@ == discretized(samples@, small),
        distinct_neighbours(intervals@),
        samples.len() > 0 ==> is_partition(intervals@),
{
    if samples.len() == 0 {
        return Vec::new();
    }
    let mut sorted: Vec<Sample> = Vec::new();
    let mut i: usize = 0;
    while i < samples.len()
        invariant
            i <= samples.len(),
            sorted@ == numbered(samples@).take(i as int),
        decreases samples.len() - i,
    {
        sorted.push(
            Sample { value: samples[i].value.clone(), class: samples[i].class.clone(), row: i },
        );
        proof {
            assert(numbered(samples@).take(i + 1) =~= numbered(samples@).take(i as int).push(
                numbered(samples@)[i as int],
            ));
        }
        i = i + 1;
    }
    proof {
        assert(numbered(samples@).take(i as int) =~= numbered(samples@));
        lemma_stable_sorted(numbered(samples@));
    }
    sort_by_rank(&mut sorted);
    let splits = split_points(&sorted);
    proof {
        lemma_class_changes_valid(sorted@, sorted.len() as int);
    }
    let kept = trim_splits(splits, small, &sorted);
    let cut = Interval::from_splits(kept, &sorted);
    proof {
        lemma_intervals_of_partition(kept@, sorted@);
        lemma_chain_can_merge(cut@);
    }
    Interval::merge_neighbours_with_same_class(&cut)
}

/// The place of the first interval that covers the number of rank `rank`, or
/// the number of intervals where none covers it.
pub open spec fn covering(intervals: Seq<Interval>, rank: int) -> int
    decreases intervals.len(),
{
    if intervals.len() == 0 {
        0
    } else if intervals.first().covers(rank) {
        0
    } else {
        1 + covering(intervals.drop_first(), rank)
    }
}

/// `covering` is the place of an interval that covers the number, with none
/// before it that does, or it is the number of intervals and none covers.
pub proof fn lemma_covering(intervals: Seq<Interval>, rank: int)
    ensures
        0 <= covering(intervals, rank) <= intervals.len(),
        covering(intervals, rank) < intervals.len() ==> intervals[covering(
            intervals,
            rank,
        )].covers(rank),
        forall|i: int| 0 <= i < covering(intervals, rank) ==> !intervals[i].covers(rank),
    decreases intervals.len(),
{
    if intervals.len() > 0 && !intervals.first().covers(rank) {
        let rest = intervals.drop_first();
        lemma_covering(rest, rank);
        assert forall|i: int| 0 <= i < covering(intervals, rank) implies !intervals[i].covers(
            rank,
        ) by {
            if i > 0 {
                assert(intervals[i] == rest[i - 1]);
            }
        }
    }
}

/// In a chain, an interval ends no later than any interval behind it starts.
pub proof fn lemma_chain_ordered(intervals: Seq<Interval>, i: int, j: int)
    requires
        is_chain(intervals),
        0 <= i < j < intervals.len(),
    ensures
        intervals[i].end() is Some,
        intervals[j].start() is Some,
        intervals[i].end()->0 <= intervals[j].start()->0,
    decreases j - i,
{
    if j == i + 1 {
        assert(meets(intervals[i], intervals[j]));
    } else {
        lemma_chain_ordered(intervals, i, j - 1);
        assert(meets(intervals[j - 1], intervals[j]));
        assert(intervals[j - 1].start() is Some);
    }
}

/// In a chain no two intervals cover one number: an interval that covers a
/// number is the first that does.
pub proof fn lemma_chain_covering(intervals: Seq<Interval>, rank: int, i: int)
    requires
        is_chain(intervals),
        0 <= i < intervals.len(),
        intervals[i].covers(rank),
    ensures
        covering(intervals, rank) == i,
{
    lemma_covering(intervals, rank);
    let first = covering(intervals, rank);
    if first < i {
        lemma_chain_ordered(intervals, first, i);
    }
}

/// Merging keeps the class of every number: a number that lies in an interval
/// of a chain lies in an interval of that class once neighbours of one class
/// are joined.
pub proof fn lemma_merged_all_keeps_class(intervals: Seq<Interval>, rank: int)
    requires
        is_chain(intervals),
        covering(intervals, rank) < intervals.len(),
    ensures
        covering(merged_all(intervals), rank) < merged_all(intervals).len(),
        merged_all(intervals)[covering(merged_all(intervals), rank)].class_of()@
            == intervals[covering(intervals, rank)].class_of()@,
    decreases intervals.len(),
{
    let n = intervals.len() as int;
    let i = covering(intervals, rank);
    let merged = merged_all(intervals);
    lemma_covering(intervals, rank);
    lemma_merged_all(intervals);
    if n == 1 {
        assert(merged =~= intervals);
        lemma_chain_covering(merged, rank, 0);
    } else {
        let front = intervals.drop_last();
        let next = intervals.last();
        let before = merged_all(front);
        assert(front =~= intervals.take(n - 1));
        lemma_take_chain(intervals, n - 1);
        lemma_merged_all(front);
        assert(front.last() == intervals[n - 2]);
        assert(meets(intervals[n - 2], intervals[n - 1]));
        let joins = before.last().class_of()@ == next.class_of()@;
        let joined = before.last().joined(next);
        if i < n - 1 {
            assert(front[i] == intervals[i]);
            lemma_chain_covering(front, rank, i);
            lemma_merged_all_keeps_class(front, rank);
            lemma_covering(before, rank);
            let c = covering(before, rank);
            if joins && c == before.len() - 1 {
                assert(merged[merged.len() - 1] == joined);
                assert(joined.covers(rank));
                lemma_chain_covering(merged, rank, merged.len() - 1);
            } else {
                assert(merged[c] == before[c]);
                lemma_chain_covering(merged, rank, c);
            }
        } else {
            if joins {
                assert(merged[merged.len() - 1] == joined);
                assert(joined.covers(rank));
            } else {
                assert(merged[merged.len() - 1] == next);
            }
            lemma_chain_covering(merged, rank, merged.len() - 1);
        }
    }
}

/// Intervals that divide the numbers among them cover every number exactly
/// once: the number lies in one of the intervals and in no other.
pub proof fn lemma_partition_covers_once(intervals: Seq<Interval>, rank: int)
    requires
        is_partition(intervals),
    ensures
        0 <= covering(intervals, rank) < intervals.len(),
        forall|i: int|
            0 <= i < intervals.len() ==> (intervals[i].covers(rank) <==> i == covering(
                intervals,
                rank,
            )),
{
    lemma_covering(intervals, rank);
    let found = covering(intervals, rank);
    if found == intervals.len() {
        lemma_partition_reaches(intervals, rank, intervals.len() - 1);
    }
    assert forall|i: int| 0 <= i < intervals.len() && intervals[i].covers(rank) implies i
        == found by {
        if found < i {
            lemma_chain_ordered(intervals, found, i);
        }
    }
}

proof fn lemma_partition_reaches(intervals: Seq<Interval>, rank: int, n: int)
    requires
        is_chain(intervals),
        0 <= n < intervals.len(),
        forall|i: int| 0 <= i < n ==> !intervals[i].covers(rank),
    ensures
        intervals[n].start() matches Some(from) ==> from <= rank,
    decreases n,
{
    if n > 0 {
        lemma_partition_reaches(intervals, rank, n - 1);
        assert(meets(intervals[n - 1], intervals[n]));
    }
}

/// Finds the interval that a number lies in: the first that covers it.
pub fn interval_of<'a>(intervals: &'a Vec<Interval>, number: &Number) -> (found: Option<
    &'a Interval,
>)
    ensures
        found is Some <==> covering(intervals@, number.rank as int) < intervals.len(),
        found matches Some(interval) ==> *interval == intervals[covering(
            intervals@,
            number.rank as int,
        )],
        is_partition(intervals@) ==> found is Some,
{
    proof {
        if is_partition(intervals@) {
            lemma_partition_covers_once(intervals@, number.rank as int);
        }
    }
    let mut i: usize = 0;
    proof {
        assert(intervals@.skip(0) =~= intervals@);
    }
    while i < intervals.len()
        invariant
            i <= intervals.len(),
            covering(intervals@, number.rank as int) == i + covering(
                intervals@.skip(i as int),
                number.rank as int,
            ),
        decreases intervals.len() - i,
    {
        proof {
            assert(intervals@.skip(i as int).first() == intervals[i as int]);
            assert(intervals@.skip(i as int).drop_first() =~= intervals@.skip(i + 1));
        }
        let inside = match &intervals[i] {
            Interval::Lower { below, .. } => number.rank < below.rank,
            Interval::Range { from, below, .. } => from.rank <= number.rank && number.rank
                < below.rank,
            Interval::Upper { from, .. } => from.rank <= number.rank,
            Interval::Infinite { .. } => true,
        };
        if inside {
            return Some(&intervals[i]);
        }
        i = i + 1;
    }
    None
}

impl Interval {
    /// The text that describes the numbers of the interval.
    pub open spec fn description(self) -> Seq<char> {
        match self {
            Interval::Lower { below, .. } => "< "@ + below.text@,
            Interval::Range { from, below, .. } => ">= "@ + from.text@ + " and < "@ + below.text@,
            Interval::Upper { from, .. } => ">= "@ + from.text@,
            Interval::Infinite { .. } => "any value"@,
        }
    }

    /// Writes out which numbers the interval holds.
    pub fn show(&self) -> (text: String)
        ensures
            text@ == self.description(),
    {
        match self {
            Interval::Lower { below, .. } => {
                let mut text = String::from_str("< ");
                text.append(below.text.as_str());
                text
            },
            Interval::Range { from, below, .. } => {
                let mut text = String::from_str(">= ");
                text.append(from.text.as_str());
                text.append(" and < ");
                text.append(below.text.as_str());
                text
            },
            Interval::Upper { from, .. } => {
                let mut text = String::from_str(">= ");
                text.append(from.text.as_str());
                text
            },
            Interval::Infinite { .. } => String::from_str("any value"),
        }
    }
}

/// Whether a cell stands for a number: it is not blank, it is not the mark for
/// a missing value, and it was read as a number.
pub open spec fn reads_as_number(value: Seq<char>, number: Option<Number>, missing: Seq<char>) -> bool {
    value.len() > 0 && value != missing && number is Some
}

/// Whether a column is numeric: every cell is blank, the mark for a missing
/// value or was read as a number, and the column has more than
/// `distinct_above` distinct cells.
pub open spec fn numeric_column(
    values: Seq<String>,
    numbers: Seq<Option<Number>>,
    distinct_above: usize,
    missing: Seq<char>,
) -> bool {
    &&& forall|r: int|
        0 <= r < values.len() ==> (#[trigger] values[r])@.len() == 0 || values[r]@ == missing
            || numbers[r] is Some
    &&& first_seen(keys(values)).len() > distinct_above
}

/// Tells whether a column is to be treated as numeric. `numbers` holds for
/// each cell the number that it was read as, if it was.
pub fn is_numeric(
    values: &Vec<String>,
    numbers: &Vec<Option<Number>>,
    distinct_above: usize,
    missing_value: &str,
) -> (numeric: bool)
    requires
        values.len() == numbers.len(),
    ensures
        numeric == numeric_column(values@, numbers@, distinct_above, missing_value@),
{
    let missing = String::from_str(missing_value);
    let mut i: usize = 0;
    while i < values.len()
        invariant
            i <= values.len(),
            values.len() == numbers.len(),
            missing@ == missing_value@,
            forall|r: int|
                0 <= r < i ==> (#[trigger] values[r])@.len() == 0 || values[r]@ == missing@
                    || numbers[r] is Some,
        decreases values.len() - i,
    {
        if !(values[i].as_str().is_empty() || values[i] == missing || numbers[i].is_some()) {
            return false;
        }
        i = i + 1;
    }
    let counts = frequency_count(values.as_slice());
    proof {
        assert(crate::iter::counted_keys(counts@).len() == counts.len());
    }
    counts.len() > distinct_above
}

} // verus!
