//! Replacing the numeric attributes of a dataset by the intervals that their
//! values lie in.

use crate::dataset::{rectangular, Dataset};
use crate::iter::{first_seen, frequency_count, keys, Label};
use crate::quant::{
    covering, discretized, interval_of, is_numeric, numeric_column, quantize, reads_as_number,
    Interval, Number, Sample,
};
use vstd::prelude::*;

verus! {

/// The number of distinct values among `xs`.
pub fn count_distinct<T: Label>(xs: &[T]) -> (n: usize)
    ensures
        n == first_seen(keys(xs@)).len(),
        n == keys(xs@).to_set().len(),
{
    let counts = frequency_count(xs);
    proof {
        assert(crate::iter::counted_keys(counts@).len() == counts.len());
        lemma_distinct_is_cardinality(keys(xs@));
    }
    counts.len()
}

/// The distinct elements of a sequence are as many as the set of its elements has.
pub proof fn lemma_distinct_is_cardinality<K>(s: Seq<K>)
    ensures
        first_seen(s).len() == s.to_set().len(),
{
    crate::iter::lemma_first_seen_no_duplicates(s);
    first_seen(s).unique_seq_to_set();
    assert(first_seen(s).to_set() =~= s.to_set()) by {
        assert forall|k: K| first_seen(s).to_set().contains(k) <==> s.to_set().contains(k) by {
            crate::iter::lemma_first_seen_contains(s, k);
        }
    }
}

/// Writes out which numbers an interval holds.
pub fn show(interval: &Interval) -> (text: String)
    ensures
        text@ == interval.description(),
{
    interval.show()
}

/// The samples of a column: for each of the first `n` cells that stands for a
/// number, that number with the class of the example.
pub open spec fn samples_of(
    values: Seq<String>,
    numbers: Seq<Option<Number>>,
    classes: Seq<String>,
    missing: Seq<char>,
    n: int,
) -> Seq<Sample>
    decreases n,
{
    if n <= 0 {
        Seq::empty()
    } else if reads_as_number(values[n - 1]@, numbers[n - 1], missing) {
        samples_of(values, numbers, classes, missing, n - 1).push(
            Sample { value: numbers[n - 1]->0, class: classes[n - 1], row: (n - 1) as usize },
        )
    } else {
        samples_of(values, numbers, classes, missing, n - 1)
    }
}

/// What a cell becomes: the description of the interval that its number lies
/// in. A cell that does not stand for a number, or whose number lies in no
/// interval, stays as it is.
pub open spec fn quantized_cell(
    intervals: Seq<Interval>,
    value: String,
    number: Option<Number>,
    missing: Seq<char>,
) -> Seq<char> {
    if reads_as_number(value@, number, missing) && covering(intervals, number->0.rank as int)
        < intervals.len() {
        intervals[covering(intervals, number->0.rank as int)].description()
    } else {
        value@
    }
}

/// What a column becomes: a numeric column has each cell replaced according to
/// the intervals found for its samples; any other column stays as it is.
pub open spec fn quantized_column(
    values: Seq<String>,
    numbers: Seq<Option<Number>>,
    classes: Seq<String>,
    distinct_above: usize,
    small: usize,
    missing: Seq<char>,
) -> Seq<Seq<char>> {
    if numeric_column(values, numbers, distinct_above, missing) {
        let intervals = discretized(
            samples_of(values, numbers, classes, missing, values.len() as int),
            small,
        );
        Seq::new(
            values.len(),
            |r: int| quantized_cell(intervals, values[r], numbers[r], missing),
        )
    } else {
        keys(values)
    }
}

/// Replaces the cells of one column by the descriptions of the intervals that
/// their numbers lie in, if the column is numeric.
pub fn quantize_column(
    values: &Vec<String>,
    numbers: &Vec<Option<Number>>,
    classes: &Vec<String>,
    distinct_above: usize,
    small: usize,
    missing_value: &str,
) -> (quantized: Vec<String>)
    requires
        values.len() == numbers.len(),
        values.len() == classes.len(),
    ensures
        keys(quantized@) == quantized_column(
            values@,
            numbers@,
            classes@,
            distinct_above,
            small,
            missing_value@,
        ),
{
    if !is_numeric(values, numbers, distinct_above, missing_value) {
        return crate::dataset::copy_of(values.as_slice());
    }
    let missing = String::from_str(missing_value);
    let mut samples: Vec<Sample> = Vec::new();
    let mut i: usize = 0;
    while i < values.len()
        invariant
            i <= values.len(),
            values.len() == numbers.len(),
            values.len() == classes.len(),
            missing@ == missing_value@,
            samples@ == samples_of(values@, numbers@, classes@, missing_value@, i as int),
        decreases values.len() - i,
    {
        if !values[i].as_str().is_empty() && values[i] != missing {
            match &numbers[i] {
                Some(number) => {
                    samples.push(
                        Sample { value: number.clone(), class: classes[i].clone(), row: i },
                    );
                },
                None => {},
            }
        }
        i = i + 1;
    }
    let intervals = quantize(&samples, small);
    let mut quantized: Vec<String> = Vec::new();
    let mut r: usize = 0;
    while r < values.len()
        invariant
            r <= values.len(),
            values.len() == numbers.len(),
            missing@ == missing_value@,
            quantized.len() == r,
            forall|k: int|
                0 <= k < r ==> (#[trigger] quantized[k])@ == quantized_cell(
                    intervals@,
                    values[k],
                    numbers[k],
                    missing_value@,
                ),
        decreases values.len() - r,
    {
        let mut cell: Option<String> = None;
        if !values[r].as_str().is_empty() && values[r] != missing {
            match &numbers[r] {
                Some(number) => {
                    match interval_of(&intervals, number) {
                        Some(interval) => {
                            cell = Some(show(interval));
                        },
                        None => {},
                    }
                },
                None => {},
            }
        }
        match cell {
            Some(text) => {
                quantized.push(text);
            },
            None => {
                quantized.push(values[r].clone());
            },
        }
        r = r + 1;
    }
    proof {
        assert(keys(quantized@) =~= quantized_column(
            values@,
            numbers@,
            classes@,
            distinct_above,
            small,
            missing_value@,
        ));
    }
    quantized
}

/// Replaces every numeric attribute of the dataset by the intervals that its
/// values lie in. `numbers` holds, attribute by attribute and example by
/// example, the number that each cell was read as, if it was. A column counts
/// as numeric if each of its cells is blank, is `missing_value` or was read
/// as a number, and if it has more than `distinct_above` distinct cells. The
/// names of the attributes and the classes stay as they are.
pub fn auto_quantize(
    dataset: Dataset,
    numbers: &Vec<Vec<Option<Number>>>,
    distinct_above: usize,
    small: usize,
    missing_value: &str,
) -> (quantized: Dataset)
    requires
        dataset.wf(),
        numbers.len() == dataset.width(),
        forall|c: int| 0 <= c < numbers.len() ==> (#[trigger] numbers[c]).len() == dataset.rows().len(),
    ensures
        quantized.wf(),
        quantized.attribute_names@ == dataset.attribute_names@,
        quantized.labels() == dataset.labels(),
        quantized.rows().len() == dataset.rows().len(),
        quantized.width() == dataset.width(),
        forall|c: int|
            0 <= c < dataset.width() ==> keys(#[trigger] quantized.column(c)) == quantized_column(
                dataset.column(c),
                numbers[c]@,
                dataset.labels(),
                distinct_above,
                small,
                missing_value@,
            ),
{
    let ghost given = dataset;
    let mut dataset = dataset;
    let width = dataset.attributes.ncols();
    let classes = dataset.classes.to_vec();
    let mut c: usize = 0;
    while c < width
        invariant
            c <= width,
            width == given.width(),
            given.wf(),
            dataset.wf(),
            dataset.attribute_names@ == given.attribute_names@,
            dataset.labels() == given.labels(),
            classes@ == given.labels(),
            dataset.rows().len() == given.rows().len(),
            dataset.width() == given.width(),
            rectangular(given.rows(), given.width()),
            rectangular(dataset.rows(), given.width()),
            numbers.len() == given.width(),
            forall|k: int|
                0 <= k < numbers.len() ==> (#[trigger] numbers[k]).len() == given.rows().len(),
            forall|k: int|
                0 <= k < c ==> keys(#[trigger] dataset.column(k)) == quantized_column(
                    given.column(k),
                    numbers[k]@,
                    given.labels(),
                    distinct_above,
                    small,
                    missing_value@,
                ),
            forall|k: int| c <= k < width ==> #[trigger] dataset.column(k) == given.column(k),
        decreases width - c,
    {
        let values = dataset.attributes.column(c);
        proof {
            assert(values@ =~= dataset.column(c as int));
            assert(dataset.column(c as int) == given.column(c as int));
        }
        let quantized = quantize_column(
            &values,
            &numbers[c],
            &classes,
            distinct_above,
            small,
            missing_value,
        );
        let ghost before = dataset;
        proof {
            assert(keys(quantized@).len() == quantized.len());
        }
        dataset.attributes.set_column(c, &quantized);
        proof {
            assert(rectangular(dataset.rows(), given.width())) by {
                assert forall|r: int| 0 <= r < dataset.rows().len() implies (
                #[trigger] dataset.rows()[r]).len() == given.width() by {
                    assert(before.rows()[r].len() == given.width());
                }
            }
            assert(dataset.column(c as int) =~= quantized@);
            assert forall|k: int| 0 <= k < c implies keys(#[trigger] dataset.column(k))
                == quantized_column(
                given.column(k),
                numbers[k]@,
                given.labels(),
                distinct_above,
                small,
                missing_value@,
            ) by {
                assert(dataset.column(k) =~= before.column(k)) by {
                    assert forall|r: int| 0 <= r < dataset.rows().len() implies dataset.rows()[r][k]
                        == before.rows()[r][k] by {
                        assert(before.rows()[r].len() == given.width());
                    }
                }
            }
            assert forall|k: int| c < k < width implies #[trigger] dataset.column(k)
                == given.column(k) by {
                assert(dataset.column(k) =~= before.column(k)) by {
                    assert forall|r: int| 0 <= r < dataset.rows().len() implies dataset.rows()[r][k]
                        == before.rows()[r][k] by {
                        assert(before.rows()[r].len() == given.width());
                    }
                }
            }
        }
        c = c + 1;
    }
    dataset
}

} // verus!
